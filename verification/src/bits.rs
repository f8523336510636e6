//! Bit-flag helpers over a 32-bit word.

use vstd::prelude::*;

verus! {

/// The value (0 or 1) of bit `i` of `n`.
pub open spec fn bit(n: u32, i: nat) -> nat {
    ((n >> (i as u32)) & 1) as nat
}

/// The number of 1-bits among the lowest `k` bits of `n`.
pub open spec fn ones_below(n: u32, k: nat) -> nat
    decreases k,
{
    if k == 0 {
        0
    } else {
        ones_below(n, (k - 1) as nat) + bit(n, (k - 1) as nat)
    }
}

/// The number of 1-bits of `n`.
pub open spec fn ones(n: u32) -> nat {
    ones_below(n, 32)
}

proof fn lemma_fold_counts(n: u32, a: u32, b: u32, c: u32, d: u32, e: u32)
    by (bit_vector)
    requires
        a == n - ((n >> 1) & 0x5555_5555),
        b == (a & 0x3333_3333) + ((a >> 2) & 0x3333_3333),
        c == ((b + (b >> 4)) as u32) & 0x0f0f_0f0f,
        d == c + (c >> 8),
        e == ((d + (d >> 16)) as u32) & 0x3f,
    ensures
        e == (n & 1) + ((n >> 1) & 1) + ((n >> 2) & 1) + ((n >> 3) & 1) + ((n >> 4) & 1) + ((n
            >> 5) & 1) + ((n >> 6) & 1) + ((n >> 7) & 1) + ((n >> 8) & 1) + ((n >> 9) & 1) + ((n
            >> 10) & 1) + ((n >> 11) & 1) + ((n >> 12) & 1) + ((n >> 13) & 1) + ((n >> 14) & 1)
            + ((n >> 15) & 1) + ((n >> 16) & 1) + ((n >> 17) & 1) + ((n >> 18) & 1) + ((n >> 19)
            & 1) + ((n >> 20) & 1) + ((n >> 21) & 1) + ((n >> 22) & 1) + ((n >> 23) & 1) + ((n
            >> 24) & 1) + ((n >> 25) & 1) + ((n >> 26) & 1) + ((n >> 27) & 1) + ((n >> 28) & 1)
            + ((n >> 29) & 1) + ((n >> 30) & 1) + ((n >> 31) & 1),
{
}

/// Counts the 1-bits of `n`, without a branch: neighbouring bits are summed
/// in pairs, the pairs in fours, and so on up to the whole word.
pub fn bit_count(n: u32) -> (count: u32)
    ensures
        count == ones(n),
{
    assert(n >= (n >> 1) & 0x5555_5555) by (bit_vector);
    let a: u32 = n - ((n >> 1) & 0x5555_5555);
    assert((a & 0x3333_3333) + ((a >> 2) & 0x3333_3333) <= 0x6666_6666) by (bit_vector);
    let b: u32 = (a & 0x3333_3333) + ((a >> 2) & 0x3333_3333);
    assert(b + (b >> 4) <= 0x6ccc_cccc) by (bit_vector)
        requires
            b <= 0x6666_6666,
    ;
    let c: u32 = (b + (b >> 4)) & 0x0f0f_0f0f;
    assert(c + (c >> 8) <= 0x0f1e_1e1e) by (bit_vector)
        requires
            c == ((b + (b >> 4)) as u32) & 0x0f0f_0f0f,
    ;
    let d: u32 = c + (c >> 8);
    assert(d + (d >> 16) <= 0x0f1f_2d3c) by (bit_vector)
        requires
            d <= 0x0f1e_1e1e,
    ;
    let e: u32 = (d + (d >> 16)) & 0x3f;
    proof {
        lemma_fold_counts(n, a, b, c, d, e);
        reveal_with_fuel(ones_below, 33);
        assert(n >> 0 == n) by (bit_vector);
    }
    e
}

/// Tells whether `n` and `mask` have a 1-bit in common.
pub fn get_bit(n: u32, mask: u32) -> (set: bool)
    ensures
        set == (n & mask != 0),
{
    (n & mask) != 0
}

/// Sets in `n` every bit that is 1 in `mask`.
pub fn set_bit(n: u32, mask: u32) -> (word: u32)
    ensures
        word == n | mask,
{
    n | mask
}

/// Clears in `n` every bit that is 1 in `mask`.
pub fn clear_bit(n: u32, mask: u32) -> (word: u32)
    ensures
        word == n & !mask,
{
    n & !mask
}

/// After the bits of a mask that is not empty are set, the word has a bit
/// of the mask.
pub proof fn lemma_set_then_get(word: u32, mask: u32)
    requires
        mask != 0,
    ensures
        (word | mask) & mask != 0,
{
    assert(mask != 0 ==> (word | mask) & mask != 0) by (bit_vector);
}

/// After the bits of a mask are cleared, the word has no bit of the mask.
pub proof fn lemma_clear_then_get(word: u32, mask: u32)
    ensures
        (word & !mask) & mask == 0,
{
    assert((word & !mask) & mask == 0) by (bit_vector);
}

/// To set or to clear the bits of the empty mask changes nothing.
pub proof fn lemma_empty_mask(word: u32)
    ensures
        word | 0 == word,
        word & !0u32 == word,
{
    assert(word | 0 == word) by (bit_vector);
    assert(word & !0u32 == word) by (bit_vector);
}

/// A word has at most 32 bits that are 1; the word 0 has none, and the
/// word of all ones has 32.
pub proof fn lemma_ones_bounds(n: u32)
    ensures
        ones(n) <= 32,
        ones(0) == 0,
        ones(0xffff_ffff) == 32,
{
    reveal_with_fuel(ones_below, 33);
    assert(forall|i: u32| i < 32 ==> #[trigger] ((n >> i) & 1) <= 1) by (bit_vector);
    assert(forall|i: u32| i < 32 ==> #[trigger] ((0u32 >> i) & 1) == 0) by (bit_vector);
    assert(forall|i: u32| i < 32 ==> #[trigger] ((0xffff_ffffu32 >> i) & 1) == 1) by (bit_vector);
}

} // verus!
