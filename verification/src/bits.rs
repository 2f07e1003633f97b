//! A fixed-capacity bit set held in thirty-two 64-bit words.
//!
//! Bit `i` of the set is bit `i % 64` of word `i / 64`. This is the one place
//! where an index is split into a word and a shift; the graphs and the batch
//! operations speak of bits through `bit_at` and `bits_of`.

use vstd::prelude::*;

verus! {

/// The number of bits in a bit set.
pub const CAPACITY: usize = 64 * 32;

/// Bit `j` of a word, `j < 64`; bit 0 is the least significant.
pub open spec fn word_bit(w: u64, j: u64) -> bool {
    (w >> j) & 1 == 1
}

/// The word whose bits below `n` are set and no others, `n <= 64`.
pub open spec fn low_mask(n: u64) -> u64 {
    if n >= 64 {
        0xffff_ffff_ffff_ffffu64
    } else {
        ((1u64 << n) - 1) as u64
    }
}

/// Bit `i` of a sequence of words.
pub open spec fn bit_at(words: Seq<u64>, i: int) -> bool {
    word_bit(words[i / 64], (i % 64) as u64)
}

/// The first `n` bits of a sequence of words.
pub open spec fn bits_of(words: Seq<u64>, n: nat) -> Seq<bool> {
    Seq::new(n, |i: int| bit_at(words, i))
}

proof fn lemma_word_test(w: u64, j: u64)
    by (bit_vector)
    requires
        j < 64,
    ensures
        (w & (1u64 << j) != 0) == word_bit(w, j),
{
}

proof fn lemma_word_set(w: u64, j: u64, k: u64)
    by (bit_vector)
    requires
        j < 64,
        k < 64,
    ensures
        word_bit(w | (1u64 << j), k) == (k == j || word_bit(w, k)),
{
}

proof fn lemma_word_clear(w: u64, j: u64, k: u64)
    by (bit_vector)
    requires
        j < 64,
        k < 64,
    ensures
        word_bit(w & !(1u64 << j), k) == (k != j && word_bit(w, k)),
{
}

/// No bit of the zero word is set.
pub proof fn lemma_word_zero(k: u64)
    by (bit_vector)
    requires
        k < 64,
    ensures
        !word_bit(0u64, k),
{
}

/// A bit of `a & b` is set when it is set in both.
pub proof fn lemma_word_and(a: u64, b: u64, k: u64)
    by (bit_vector)
    requires
        k < 64,
    ensures
        word_bit(a & b, k) == (word_bit(a, k) && word_bit(b, k)),
{
}

/// A bit of `a ^ b` is set when `a` and `b` differ there.
pub proof fn lemma_word_xor(a: u64, b: u64, k: u64)
    by (bit_vector)
    requires
        k < 64,
    ensures
        word_bit(a ^ b, k) == (word_bit(a, k) != word_bit(b, k)),
{
}

/// The mask that a right shift of the all-ones word leaves.
pub proof fn lemma_low_mask_shift(n: u64)
    by (bit_vector)
    requires
        0 < n <= 64,
    ensures
        0xffff_ffff_ffff_ffffu64 >> ((64 - n) as u64) == low_mask(n),
{
}

/// A set bit below `n` survives the mask of width `n`.
pub proof fn lemma_low_mask_keeps(x: u64, n: u64, k: u64)
    by (bit_vector)
    requires
        k < n <= 64,
        word_bit(x, k),
    ensures
        x & low_mask(n) != 0,
{
}

proof fn lemma_low_mask_step(x: u64, n: u64)
    by (bit_vector)
    requires
        0 < n <= 64,
        x & low_mask(n) != 0,
    ensures
        word_bit(x, (n - 1) as u64) || x & low_mask((n - 1) as u64) != 0,
{
}

proof fn lemma_low_mask_none(x: u64)
    by (bit_vector)
    ensures
        x & low_mask(0) == 0,
        x & low_mask(64) == x,
{
}

/// A word that is not zero under the mask of width `n` has a set bit below `n`.
pub proof fn lemma_low_mask_witness(x: u64, n: u64) -> (k: u64)
    requires
        n <= 64,
        x & low_mask(n) != 0,
    ensures
        k < n,
        word_bit(x, k),
    decreases n,
{
    lemma_low_mask_none(x);
    lemma_low_mask_step(x, n);
    if word_bit(x, (n - 1) as u64) {
        (n - 1) as u64
    } else {
        lemma_low_mask_witness(x, (n - 1) as u64)
    }
}

/// Two words agree under the mask of width `n` exactly when their bits below
/// `n` agree.
pub proof fn lemma_words_agree(a: u64, b: u64, n: u64)
    requires
        n <= 64,
    ensures
        ((a ^ b) & low_mask(n) == 0) <==> (forall|k: u64|
            k < n ==> word_bit(a, k) == word_bit(b, k)),
{
    if (a ^ b) & low_mask(n) != 0 {
        let k = lemma_low_mask_witness(a ^ b, n);
        lemma_word_xor(a, b, k);
    } else {
        assert forall|k: u64| k < n implies word_bit(a, k) == word_bit(b, k) by {
            lemma_word_xor(a, b, k);
            if word_bit(a ^ b, k) {
                lemma_low_mask_keeps(a ^ b, n, k);
            }
        }
    }
}

/// Reads bit `index`.
pub fn get_bit(words: &[u64; 32], index: usize) -> (b: bool)
    requires
        index < CAPACITY,
    ensures
        b == bit_at(words@, index as int),
    no_unwind
{
    let i = index / 64;
    let j = index % 64;
    proof {
        lemma_word_test(words[i as int], j as u64);
    }
    (words[i] & (1u64 << j)) != 0
}

/// Sets bit `index` and leaves the others as they were.
pub fn set_bit(words: &mut [u64; 32], index: usize)
    requires
        index < CAPACITY,
    ensures
        forall|i: int|
            0 <= i < CAPACITY ==> #[trigger] bit_at(final(words)@, i) == (i == index || bit_at(
                old(words)@,
                i,
            )),
    no_unwind
{
    let i = index / 64;
    let j = index % 64;
    let before = words[i];
    words[i] = before | (1u64 << j);
    proof {
        assert forall|p: int| 0 <= p < CAPACITY implies #[trigger] bit_at(words@, p) == (p == index
            || bit_at(old(words)@, p)) by {
            if p / 64 == i {
                lemma_word_set(before, j as u64, (p % 64) as u64);
            }
        }
    }
}

/// Clears bit `index` and leaves the others as they were.
pub fn clear_bit(words: &mut [u64; 32], index: usize)
    requires
        index < CAPACITY,
    ensures
        forall|i: int|
            0 <= i < CAPACITY ==> #[trigger] bit_at(final(words)@, i) == (i != index && bit_at(
                old(words)@,
                i,
            )),
    no_unwind
{
    let i = index / 64;
    let j = index % 64;
    let before = words[i];
    words[i] = before & !(1u64 << j);
    proof {
        assert forall|p: int| 0 <= p < CAPACITY implies #[trigger] bit_at(words@, p) == (p != index
            && bit_at(old(words)@, p)) by {
            if p / 64 == i {
                lemma_word_clear(before, j as u64, (p % 64) as u64);
            }
        }
    }
}

/// No bit of the all-zero set is set.
pub proof fn lemma_zero_words(words: Seq<u64>, i: int)
    requires
        words.len() == 32,
        forall|w: int| 0 <= w < 32 ==> words[w] == 0,
        0 <= i < CAPACITY,
    ensures
        !bit_at(words, i),
{
    lemma_word_zero((i % 64) as u64);
}

} // verus!
