use vstd::prelude::*;
use rand::seq::SliceRandom;
use crate::moves::Move;

verus! {

/// Relies on rand's `SliceRandom::choose` with the thread-local generator: `None` for an empty
/// slice, otherwise one of its elements.
#[verifier::external_body]
pub(crate) fn choose_move(moves: &Vec<Move>) -> (r: Option<Move>)
    ensures
        r is None <==> moves@.len() == 0,
        r matches Some(m) ==> moves@.contains(m),
{
    moves.choose(&mut rand::thread_rng()).copied()
}

/// Relies on rand's `SliceRandom::shuffle` with the thread-local generator: the elements are
/// put in a random order, each kept once.
#[verifier::external_body]
pub(crate) fn shuffle_moves(moves: &mut Vec<Move>)
    ensures
        final(moves)@.to_multiset() == old(moves)@.to_multiset(),
{
    moves.shuffle(&mut rand::thread_rng())
}

/// Relies on rand's `random`, drawn from the thread-local generator: any value of the type.
pub assume_specification<T>[ rand::random::<T> ]() -> (r: T)
    where
        rand::distributions::Standard: rand::distributions::Distribution<T>,
;

} // verus!
