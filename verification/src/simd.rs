//! Operations on a whole bit set at once: AND, equality and the zero test.
//!
//! Each operation has one contract, stated over the bits of its arguments. The
//! portable implementations below meet it word by word; the last word that
//! holds compared bits is cut to its low bits by a mask.

use vstd::prelude::*;
use crate::bits::{
    bit_at, lemma_low_mask_shift, lemma_word_and, lemma_words_agree, lemma_zero_words, low_mask,
    word_bit, CAPACITY,
};

verus! {

/// `a` and `b` hold the same first `v` bits.
pub open spec fn bits_agree(a: Seq<u64>, b: Seq<u64>, v: nat) -> bool {
    forall|i: int| 0 <= i < v ==> bit_at(a, i) == bit_at(b, i)
}

/// None of the first `v` bits of `a` is set.
pub open spec fn bits_clear(a: Seq<u64>, v: nat) -> bool {
    forall|i: int| 0 <= i < v ==> !bit_at(a, i)
}

/// The first `v` bits of `r` are those of `a` AND `b`.
pub open spec fn bits_are_and(r: Seq<u64>, a: Seq<u64>, b: Seq<u64>, v: nat) -> bool {
    forall|i: int| 0 <= i < v ==> bit_at(r, i) == (bit_at(a, i) && bit_at(b, i))
}

/// Bit `k` of word `w` is bit `64 * w + k` of the set.
pub proof fn lemma_bit_in_word(words: Seq<u64>, w: int, k: u64)
    requires
        0 <= w,
        k < 64,
    ensures
        bit_at(words, 64 * w + k) == word_bit(words[w], k),
{
}

/// Two sets that agree below word `w` agree on `n` bits more exactly when
/// their words `w` agree under the mask of width `n`.
pub proof fn lemma_agree_through_word(a: Seq<u64>, b: Seq<u64>, w: int, n: u64)
    requires
        0 <= w,
        n <= 64,
        bits_agree(a, b, (64 * w) as nat),
    ensures
        bits_agree(a, b, (64 * w + n) as nat) <==> (a[w] ^ b[w]) & low_mask(n) == 0,
{
    lemma_words_agree(a[w], b[w], n);
    if (a[w] ^ b[w]) & low_mask(n) == 0 {
        assert forall|i: int| 0 <= i < 64 * w + n implies bit_at(a, i) == bit_at(b, i) by {
            if i >= 64 * w {
                let k = (i - 64 * w) as u64;
                lemma_bit_in_word(a, w, k);
                lemma_bit_in_word(b, w, k);
            }
        }
    }
    if bits_agree(a, b, (64 * w + n) as nat) {
        assert forall|k: u64| k < n implies word_bit(a[w], k) == word_bit(b[w], k) by {
            lemma_bit_in_word(a, w, k);
            lemma_bit_in_word(b, w, k);
        }
    }
}

/// Two results that both meet the contract of the AND hold the same first
/// `v` bits, whichever implementation gave them.
pub proof fn lemma_and_results_agree(
    r1: Seq<u64>,
    r2: Seq<u64>,
    a: Seq<u64>,
    b: Seq<u64>,
    v: nat,
)
    requires
        bits_are_and(r1, a, b, v),
        bits_are_and(r2, a, b, v),
    ensures
        bits_agree(r1, r2, v),
{
}

/// The zero test is the equality with the all-zero set.
pub proof fn lemma_clear_is_agree_with_zero(a: Seq<u64>, zero: Seq<u64>, v: nat)
    requires
        v <= CAPACITY,
        zero.len() == 32,
        forall|w: int| 0 <= w < 32 ==> zero[w] == 0,
    ensures
        bits_clear(a, v) <==> bits_agree(a, zero, v),
{
    assert forall|i: int| 0 <= i < v implies !bit_at(zero, i) by {
        lemma_zero_words(zero, i);
    }
}

/// Calculates `a & b`. Callers may rely on the first `v` bits of the result.
pub fn simd_and(a: [u64; 32], b: [u64; 32], v: usize) -> (r: [u64; 32])
    requires
        v <= CAPACITY,
    ensures
        bits_are_and(r@, a@, b@, v as nat),
{
    simd_and_fallback(a, b, v)
}

/// Checks whether `a` and `b` hold the same first `v` bits, and looks at no
/// other bit.
pub fn simd_eq(a: [u64; 32], b: [u64; 32], v: usize) -> (r: bool)
    requires
        v <= CAPACITY,
    ensures
        r == bits_agree(a@, b@, v as nat),
{
    simd_eq_fallback(a, b, v)
}

/// Checks whether none of the first `v` bits of `a` is set.
pub fn simd_is_zero(a: [u64; 32], v: usize) -> (r: bool)
    requires
        v <= CAPACITY,
    ensures
        r == bits_clear(a@, v as nat),
{
    let zero: [u64; 32] = [0; 32];
    proof {
        lemma_clear_is_agree_with_zero(a@, zero@, v as nat);
    }
    simd_eq(a, zero, v)
}

/// The portable AND: every word of the result is the AND of the two words.
pub fn simd_and_fallback(a: [u64; 32], b: [u64; 32], v: usize) -> (r: [u64; 32])
    requires
        v <= CAPACITY,
    ensures
        forall|w: int| 0 <= w < 32 ==> r@[w] == a@[w] & b@[w],
        bits_are_and(r@, a@, b@, CAPACITY as nat),
{
    let mut r = a;
    let mut i: usize = 0;
    while i < 32
        invariant
            i <= 32,
            forall|w: int| 0 <= w < i ==> r@[w] == a@[w] & b@[w],
            forall|w: int| i <= w < 32 ==> r@[w] == a@[w],
        decreases 32 - i,
    {
        r[i] = r[i] & b[i];
        i += 1;
    }
    proof {
        assert forall|p: int| 0 <= p < CAPACITY implies bit_at(r@, p) == (bit_at(a@, p) && bit_at(
            b@,
            p,
        )) by {
            lemma_word_and(a@[p / 64], b@[p / 64], (p % 64) as u64);
        }
    }
    r
}

/// The portable equality: whole words below the last one, and the last one
/// under a mask of `v % 64` low bits.
pub fn simd_eq_fallback(a: [u64; 32], b: [u64; 32], v: usize) -> (r: bool)
    requires
        v <= CAPACITY,
    ensures
        r == bits_agree(a@, b@, v as nat),
{
    let integers = v / 64;
    let bitsleft = v % 64;
    let mut i: usize = 0;
    while i < 32
        invariant
            i <= 32,
            i <= integers,
            integers == v / 64,
            bitsleft == v % 64,
            v <= CAPACITY,
            bits_agree(a@, b@, (64 * i) as nat),
        decreases 32 - i,
    {
        // Zero where the two words agree.
        let c = a[i] ^ b[i];
        if i == integers {
            if bitsleft == 0 {
                return true;
            }
            let trim = 0xffff_ffff_ffff_ffffu64 >> (64 - bitsleft);
            proof {
                lemma_low_mask_shift(bitsleft as u64);
                lemma_agree_through_word(a@, b@, i as int, bitsleft as u64);
            }
            return c & trim == 0;
        }
        proof {
            lemma_agree_through_word(a@, b@, i as int, 64);
            assert(c & low_mask(64) == c) by (bit_vector);
        }
        if c != 0 {
            return false;
        }
        i += 1;
    }
    true
}

} // verus!
