//! Facts about single bits of `u64` words, used by the bitmaps of the page
//! pool and of the ternary weight masks.
use vstd::prelude::*;

verus! {

/// Bit `j` (counted from the least significant end) of `w` is set.
pub open spec fn bit_set(w: u64, j: u64) -> bool {
    (w >> j) & 1u64 == 1u64
}

/// Clearing bit `b` leaves every other bit as it was and clears `b`.
pub proof fn lemma_clear_bit(w: u64, b: u64, j: u64)
    requires
        b < 64,
        j < 64,
    ensures
        bit_set(w & !(1u64 << b), j) == (bit_set(w, j) && j != b),
{
    assert(bit_set(w & !(1u64 << b), j) == (bit_set(w, j) && j != b)) by (bit_vector)
        requires
            b < 64,
            j < 64,
    ;
}

/// Setting bit `b` leaves every other bit as it was and sets `b`.
pub proof fn lemma_set_bit(w: u64, b: u64, j: u64)
    requires
        b < 64,
        j < 64,
    ensures
        bit_set(w | (1u64 << b), j) == (bit_set(w, j) || j == b),
{
    assert(bit_set(w | (1u64 << b), j) == (bit_set(w, j) || j == b)) by (bit_vector)
        requires
            b < 64,
            j < 64,
    ;
}

/// The mask of the `r` lowest bits has exactly the bits below `r` set.
pub proof fn lemma_low_mask(r: u64, j: u64)
    requires
        r < 64,
        j < 64,
    ensures
        bit_set(((1u64 << r) - 1u64) as u64, j) == (j < r),
{
    assert(bit_set(((1u64 << r) - 1u64) as u64, j) == (j < r)) by (bit_vector)
        requires
            r < 64,
            j < 64,
    ;
}

/// Every bit of the all-ones word is set, and no bit of zero.
pub proof fn lemma_full_and_empty(j: u64)
    requires
        j < 64,
    ensures
        bit_set(u64::MAX, j),
        !bit_set(0u64, j),
{
    assert(bit_set(u64::MAX, j) && !bit_set(0u64, j)) by (bit_vector)
        requires
            j < 64,
    ;
}

} // verus!
