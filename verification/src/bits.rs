//! Candidate bitsets: a 16-bit mask whose bits 1..9 record which digits are
//! still available; bit 0 and bits 10..15 are always clear.

use vstd::prelude::*;

verus! {

/// The mask with all nine candidates 1..9 present and every other bit clear.
pub const FULL_MASK: u16 = 0x3FE;

/// Whether bit `v` of `mask` is set.
pub open spec fn bit_set(mask: u16, v: u16) -> bool {
    mask & (1u16 << v) != 0
}

/// The number of set bits of `mask` at positions `lo <= v < hi`.
pub open spec fn count_in_range(mask: u16, lo: int, hi: int) -> nat
    decreases hi - lo,
{
    if hi <= lo {
        0
    } else {
        count_in_range(mask, lo, hi - 1) + if bit_set(mask, (hi - 1) as u16) {
            1nat
        } else {
            0nat
        }
    }
}

/// The number of candidates a mask carries: its set bits among 1..9.
pub open spec fn popcount9(mask: u16) -> nat {
    count_in_range(mask, 1, 10)
}

/// Counting over adjacent ranges adds up.
pub proof fn lemma_count_split(mask: u16, lo: int, mid: int, hi: int)
    requires
        lo <= mid <= hi,
    ensures
        count_in_range(mask, lo, hi) == count_in_range(mask, lo, mid) + count_in_range(
            mask,
            mid,
            hi,
        ),
    decreases hi - mid,
{
    if mid < hi {
        lemma_count_split(mask, lo, mid, hi - 1);
    }
}

/// A range of `hi - lo` positions holds at most `hi - lo` set bits.
pub proof fn lemma_count_le(mask: u16, lo: int, hi: int)
    requires
        lo <= hi,
    ensures
        count_in_range(mask, lo, hi) <= hi - lo,
    decreases hi - lo,
{
    if lo < hi {
        lemma_count_le(mask, lo, hi - 1);
    }
}

/// A range with no set bit counts zero.
pub proof fn lemma_count_all_clear(mask: u16, lo: int, hi: int)
    requires
        forall|v: int| lo <= v < hi ==> !#[trigger] bit_set(mask, v as u16),
    ensures
        count_in_range(mask, lo, hi) == 0,
    decreases hi - lo,
{
    if lo < hi {
        lemma_count_all_clear(mask, lo, hi - 1);
    }
}

/// A set bit within a range contributes to the count beyond the bits below it.
pub proof fn lemma_bit_counts(mask: u16, v: int, lo: int, hi: int)
    requires
        lo <= v < hi,
        bit_set(mask, v as u16),
    ensures
        count_in_range(mask, lo, hi) >= count_in_range(mask, lo, v) + 1,
{
    lemma_count_split(mask, lo, v, hi);
    lemma_count_split(mask, v, v + 1, hi);
    assert(count_in_range(mask, v, v) == 0);
    assert(count_in_range(mask, v, v + 1) == 1);
}

/// A mask with exactly one candidate has exactly one set bit among 1..9.
pub proof fn lemma_single_bit(mask: u16, a: int, b: int)
    requires
        popcount9(mask) == 1,
        1 <= a <= 9,
        1 <= b <= 9,
        bit_set(mask, a as u16),
        bit_set(mask, b as u16),
    ensures
        a == b,
{
    if a < b {
        lemma_bit_counts(mask, a, 1, b);
        lemma_bit_counts(mask, b, 1, 10);
    } else if b < a {
        lemma_bit_counts(mask, b, 1, a);
        lemma_bit_counts(mask, a, 1, 10);
    }
}

/// Two set bits preceded by the same number of set bits are the same bit.
pub proof fn lemma_ordinal_unique(mask: u16, a: int, b: int)
    requires
        1 <= a <= 9,
        1 <= b <= 9,
        bit_set(mask, a as u16),
        bit_set(mask, b as u16),
        count_in_range(mask, 1, a) == count_in_range(mask, 1, b),
    ensures
        a == b,
{
    if a < b {
        lemma_bit_counts(mask, a, 1, b);
    } else if b < a {
        lemma_bit_counts(mask, b, 1, a);
    }
}

/// The zero mask has no bit set.
pub proof fn lemma_zero_mask_bit(v: u16)
    ensures
        !bit_set(0u16, v),
{
    assert(0u16 & (1u16 << v) == 0) by (bit_vector);
}

/// A mask with at least one candidate is not the zero mask.
pub proof fn lemma_popcount_positive(mask: u16)
    requires
        popcount9(mask) >= 1,
    ensures
        mask != 0,
{
    if mask == 0 {
        assert forall|v: int| 1 <= v < 10 implies !#[trigger] bit_set(0u16, v as u16) by {
            lemma_zero_mask_bit(v as u16);
        }
        lemma_count_all_clear(0u16, 1, 10);
        assert(popcount9(0u16) == 0);
    }
}

/// A bit of an AND of two masks is set exactly when it is set in both.
pub proof fn lemma_and_bit(a: u16, b: u16, v: u16)
    requires
        v <= 15,
    ensures
        bit_set(a & b, v) == (bit_set(a, v) && bit_set(b, v)),
{
    assert(((a & b) & (1u16 << v) != 0) == ((a & (1u16 << v) != 0) && (b & (1u16 << v) != 0)))
        by (bit_vector)
        requires
            v <= 15,
    ;
}

/// The full mask has exactly the bits 1..9 set.
pub proof fn lemma_full_mask_bit(v: u16)
    requires
        v <= 15,
    ensures
        bit_set(FULL_MASK, v) == (1 <= v <= 9),
{
    assert((0x3FEu16 & (1u16 << v) != 0) == (1 <= v && v <= 9)) by (bit_vector)
        requires
            v <= 15,
    ;
}

/// Clearing one candidate bit clears that bit and leaves every other bit alone.
pub proof fn lemma_clear_bit(m: u16, v: u16, w: u16)
    requires
        1 <= v <= 9,
        w <= 15,
    ensures
        bit_set(m & !(0x3FEu16 & (1u16 << v)), w) == (w != v && bit_set(m, w)),
{
    assert(((m & !(0x3FEu16 & (1u16 << v))) & (1u16 << w) != 0) == (w != v && (m & (1u16 << w)
        != 0))) by (bit_vector)
        requires
            1 <= v <= 9,
            w <= 15,
    ;
}

/// Two masks that agree on every bit are equal.
pub proof fn lemma_mask_bits_determine(a: u16, b: u16)
    requires
        forall|v: u16| v <= 15 ==> bit_set(a, v) == bit_set(b, v),
    ensures
        a == b,
{
    assert(bit_set(a, 0) == bit_set(b, 0));
    assert(bit_set(a, 1) == bit_set(b, 1));
    assert(bit_set(a, 2) == bit_set(b, 2));
    assert(bit_set(a, 3) == bit_set(b, 3));
    assert(bit_set(a, 4) == bit_set(b, 4));
    assert(bit_set(a, 5) == bit_set(b, 5));
    assert(bit_set(a, 6) == bit_set(b, 6));
    assert(bit_set(a, 7) == bit_set(b, 7));
    assert(bit_set(a, 8) == bit_set(b, 8));
    assert(bit_set(a, 9) == bit_set(b, 9));
    assert(bit_set(a, 10) == bit_set(b, 10));
    assert(bit_set(a, 11) == bit_set(b, 11));
    assert(bit_set(a, 12) == bit_set(b, 12));
    assert(bit_set(a, 13) == bit_set(b, 13));
    assert(bit_set(a, 14) == bit_set(b, 14));
    assert(bit_set(a, 15) == bit_set(b, 15));
    assert(a == b) by (bit_vector)
        requires
            (a & (1u16 << 0u16) != 0) == (b & (1u16 << 0u16) != 0),
            (a & (1u16 << 1u16) != 0) == (b & (1u16 << 1u16) != 0),
            (a & (1u16 << 2u16) != 0) == (b & (1u16 << 2u16) != 0),
            (a & (1u16 << 3u16) != 0) == (b & (1u16 << 3u16) != 0),
            (a & (1u16 << 4u16) != 0) == (b & (1u16 << 4u16) != 0),
            (a & (1u16 << 5u16) != 0) == (b & (1u16 << 5u16) != 0),
            (a & (1u16 << 6u16) != 0) == (b & (1u16 << 6u16) != 0),
            (a & (1u16 << 7u16) != 0) == (b & (1u16 << 7u16) != 0),
            (a & (1u16 << 8u16) != 0) == (b & (1u16 << 8u16) != 0),
            (a & (1u16 << 9u16) != 0) == (b & (1u16 << 9u16) != 0),
            (a & (1u16 << 10u16) != 0) == (b & (1u16 << 10u16) != 0),
            (a & (1u16 << 11u16) != 0) == (b & (1u16 << 11u16) != 0),
            (a & (1u16 << 12u16) != 0) == (b & (1u16 << 12u16) != 0),
            (a & (1u16 << 13u16) != 0) == (b & (1u16 << 13u16) != 0),
            (a & (1u16 << 14u16) != 0) == (b & (1u16 << 14u16) != 0),
            (a & (1u16 << 15u16) != 0) == (b & (1u16 << 15u16) != 0),
    ;
}

} // verus!
