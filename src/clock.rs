use vstd::prelude::*;

verus! {

/// std's `Instant`, a point in time; nothing of its value is used in proofs.
#[verifier::external_type_specification]
#[verifier::external_body]
pub struct ExInstant(std::time::Instant);

/// Relies on std's `Instant::now`: the current time, of which nothing is assumed.
pub assume_specification[ std::time::Instant::now ]() -> std::time::Instant;

/// Relies on std's `Instant::elapsed`: the time since the instant, of which nothing is assumed.
pub assume_specification[ std::time::Instant::elapsed ](
    self_: &std::time::Instant,
) -> std::time::Duration;

/// Relies on std's `Duration::as_millis`: whole milliseconds, of which nothing is assumed.
pub assume_specification[ core::time::Duration::as_millis ](self_: &core::time::Duration) -> u128;

} // verus!
