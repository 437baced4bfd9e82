//! Single bits inside 32-bit words, and the split of a bit index into a word
//! index and an offset.

use vstd::prelude::*;

verus! {

/// Bit `offset` of `word` is set.
pub open spec fn word_bit(word: u32, offset: u32) -> bool {
    (word >> offset) & 1 != 0
}

/// Shifting a bit index right by five and masking its low five bits give its
/// quotient and remainder by 32.
pub proof fn lemma_split_index(k: usize)
    by (bit_vector)
    ensures
        k >> 5 == k / 32,
        k & 31 == k % 32,
{
}

/// Every bit of the all-ones word is set.
pub proof fn lemma_full_word(b: u32)
    by (bit_vector)
    requires
        b < 32,
    ensures
        word_bit(0xFFFF_FFFF, b),
{
}

/// Masking out bit `offset` clears that bit and leaves the others alone.
pub proof fn lemma_cleared_word(word: u32, offset: u32, b: u32)
    by (bit_vector)
    requires
        offset < 32,
        b < 32,
    ensures
        word_bit(word & !(1u32 << offset), b) == (b != offset && word_bit(word, b)),
{
}

/// Or-ing in bit `offset` sets that bit and leaves the others alone.
pub proof fn lemma_set_word(word: u32, offset: u32, b: u32)
    by (bit_vector)
    requires
        offset < 32,
        b < 32,
    ensures
        word_bit(word | (1u32 << offset), b) == (b == offset || word_bit(word, b)),
{
}

} // verus!
