use vstd::prelude::*;

verus! {

/// Bit `i` of `x` is set.
pub open spec fn has_bit(x: u128, i: u128) -> bool {
    (x >> i) & 1u128 == 1u128
}

/// The mask with the bits of the board's cells (0 to 120) set and no other.
pub const BOARD_MASK: u128 = 0x1FF_FFFF_FFFF_FFFF_FFFF_FFFF_FFFF_FFFF;

pub proof fn lemma_bit_clear(x: u128, i: u128, j: u128)
    by (bit_vector)
    requires
        i < 128,
        j < 128,
    ensures
        has_bit(x & !(1u128 << i), j) == (j != i && has_bit(x, j)),
{
}

pub proof fn lemma_bit_toggle2(x: u128, s: u128, e: u128, j: u128)
    by (bit_vector)
    requires
        s < 128,
        e < 128,
        j < 128,
        s != e,
    ensures
        has_bit(x ^ ((1u128 << s) | (1u128 << e)), j) == (if j == s || j == e {
            !has_bit(x, j)
        } else {
            has_bit(x, j)
        }),
{
}

pub proof fn lemma_single_bit(i: u128, j: u128)
    by (bit_vector)
    requires
        i < 128,
        j < 128,
    ensures
        has_bit(1u128 << i, j) == (i == j),
        (1u128 << i) != 0,
{
}

pub proof fn lemma_shift_injective(i: u128, j: u128)
    by (bit_vector)
    requires
        i < 128,
        j < 128,
        (1u128 << i) == (1u128 << j),
    ensures
        i == j,
{
}

pub proof fn lemma_zero_no_bits(j: u128)
    by (bit_vector)
    requires
        j < 128,
    ensures
        !has_bit(0u128, j),
{
}

pub proof fn lemma_masked_toggle2(x: u128, s: u128, e: u128)
    by (bit_vector)
    requires
        x & !BOARD_MASK == 0,
        s < 121,
        e < 121,
    ensures
        (x ^ ((1u128 << s) | (1u128 << e))) & !BOARD_MASK == 0,
{
}

pub proof fn lemma_masked_clear(x: u128, s: u128)
    by (bit_vector)
    requires
        x & !BOARD_MASK == 0,
    ensures
        (x & !(1u128 << s)) & !BOARD_MASK == 0,
{
}

/// Two values share a bit exactly where their conjunction has it.
pub proof fn lemma_and_bit(x: u128, y: u128, j: u128)
    by (bit_vector)
    requires
        j < 128,
    ensures
        has_bit(x & y, j) == (has_bit(x, j) && has_bit(y, j)),
        has_bit(x | y, j) == (has_bit(x, j) || has_bit(y, j)),
{
}

pub proof fn lemma_masked_single(s: u128)
    by (bit_vector)
    requires
        s < 121,
    ensures
        (1u128 << s) & !BOARD_MASK == 0,
{
}

/// A value within the board mask has no bit at or beyond 121.
pub proof fn lemma_masked_high(x: u128, j: u128)
    by (bit_vector)
    requires
        x & !BOARD_MASK == 0,
        121 <= j < 128,
    ensures
        !has_bit(x, j),
{
}

pub proof fn lemma_single_toggle(s: u128, e: u128)
    by (bit_vector)
    requires
        s < 128,
        e < 128,
        s != e,
    ensures
        (1u128 << s) ^ ((1u128 << s) | (1u128 << e)) == (1u128 << e),
{
}

pub proof fn lemma_single_clear(s: u128)
    by (bit_vector)
    requires
        s < 128,
    ensures
        (1u128 << s) & !(1u128 << s) == 0,
{
}

} // verus!
