//! Colorings in counting order.
//!
//! A coloring of `n` edges is a sequence of `n` booleans, `true` for red. Read
//! as a binary number with edge 0 least significant it has a rank below
//! `2^n`, and stepping to the successor adds one to the rank. The rank is what
//! makes "every coloring was visited" a statement that can be proved.

use vstd::prelude::*;
use vstd::arithmetic::power2::{lemma_pow2_pos, lemma_pow2_unfold, pow2};
use crate::bits::{bit_at, bits_of, clear_bit, get_bit, set_bit, CAPACITY};

verus! {

/// The number that a coloring spells in binary, edge 0 least significant.
pub open spec fn rank(c: Seq<bool>) -> nat
    decreases c.len(),
{
    if c.len() == 0 {
        0
    } else {
        (if c[0] {
            1nat
        } else {
            0nat
        }) + 2 * rank(c.drop_first())
    }
}

/// The coloring of `n` edges that is blue throughout.
pub open spec fn all_blue(n: nat) -> Seq<bool> {
    Seq::new(n, |i: int| false)
}

/// The index of the first blue edge, or the length where every edge is red.
pub open spec fn first_blue(c: Seq<bool>) -> nat
    decreases c.len(),
{
    if c.len() == 0 || !c[0] {
        0
    } else {
        1 + first_blue(c.drop_first())
    }
}

/// The next coloring in counting order: the red edges below the first blue
/// one turn blue, and the first blue one turns red. After the all-red coloring
/// comes the all-blue one.
pub open spec fn successor(c: Seq<bool>) -> Seq<bool> {
    Seq::new(
        c.len(),
        |i: int|
            if i < first_blue(c) {
                false
            } else if i == first_blue(c) {
                true
            } else {
                c[i]
            },
    )
}

/// Every edge below `first_blue` is red, and the edge there is blue.
pub proof fn lemma_first_blue(c: Seq<bool>)
    ensures
        first_blue(c) <= c.len(),
        forall|i: int| 0 <= i < first_blue(c) ==> c[i],
        first_blue(c) < c.len() ==> !c[first_blue(c) as int],
    decreases c.len(),
{
    if c.len() > 0 && c[0] {
        let t = c.drop_first();
        lemma_first_blue(t);
        assert forall|i: int| 0 <= i < first_blue(c) implies c[i] by {
            if i > 0 {
                assert(c[i] == t[i - 1]);
            }
        }
        if first_blue(c) < c.len() {
            assert(c[first_blue(c) as int] == t[first_blue(t) as int]);
        }
    }
}

/// An index whose edge is blue while all edges below it are red is
/// `first_blue`.
pub proof fn lemma_first_blue_is(c: Seq<bool>, d: nat)
    requires
        d <= c.len(),
        forall|i: int| 0 <= i < d ==> c[i],
        d < c.len() ==> !c[d as int],
    ensures
        first_blue(c) == d,
{
    lemma_first_blue(c);
    let f = first_blue(c);
    if f < d {
        assert(c[f as int]);
    } else if d < f {
        assert(c[d as int]);
    }
}

/// The rank of a coloring of `n` edges is below `2^n`.
pub proof fn lemma_rank_bound(c: Seq<bool>)
    ensures
        rank(c) < pow2(c.len()),
    decreases c.len(),
{
    if c.len() == 0 {
        lemma_pow2_pos(0);
    } else {
        lemma_rank_bound(c.drop_first());
        lemma_pow2_unfold(c.len());
    }
}

/// The all-blue coloring has rank 0.
pub proof fn lemma_rank_all_blue(n: nat)
    ensures
        rank(all_blue(n)) == 0,
    decreases n,
{
    if n > 0 {
        lemma_rank_all_blue((n - 1) as nat);
        assert(all_blue(n).drop_first() =~= all_blue((n - 1) as nat));
    }
}

/// Two colorings of the same edges with the same rank are the same coloring.
pub proof fn lemma_rank_injective(c1: Seq<bool>, c2: Seq<bool>)
    requires
        c1.len() == c2.len(),
        rank(c1) == rank(c2),
    ensures
        c1 == c2,
    decreases c1.len(),
{
    if c1.len() > 0 {
        let t1 = c1.drop_first();
        let t2 = c2.drop_first();
        assert(c1[0] == c2[0]);
        lemma_rank_injective(t1, t2);
        assert forall|i: int| 0 <= i < c1.len() implies c1[i] == c2[i] by {
            if i > 0 {
                assert(c1[i] == t1[i - 1]);
                assert(c2[i] == t2[i - 1]);
            }
        }
    }
    assert(c1 =~= c2);
}

/// Stepping to the successor adds one to the rank, except at the all-red
/// coloring, whose rank is the last one, `2^n - 1`, and whose successor is the
/// all-blue coloring.
pub proof fn lemma_rank_successor(c: Seq<bool>)
    ensures
        successor(c).len() == c.len(),
        first_blue(c) < c.len() ==> rank(successor(c)) == rank(c) + 1,
        first_blue(c) == c.len() ==> rank(c) + 1 == pow2(c.len()) && successor(c) == all_blue(
            c.len(),
        ),
        first_blue(c) <= c.len(),
    decreases c.len(),
{
    lemma_first_blue(c);
    if c.len() == 0 {
        lemma_pow2_pos(0);
        assert(pow2(0) == 1) by {
            vstd::arithmetic::power2::lemma2_to64();
        }
        assert(successor(c) =~= all_blue(0));
    } else {
        let t = c.drop_first();
        let s = successor(c);
        lemma_pow2_unfold(c.len());
        if !c[0] {
            assert(s.drop_first() =~= t);
        } else {
            lemma_rank_successor(t);
            lemma_first_blue(t);
            assert(s.drop_first() =~= successor(t));
            if first_blue(c) == c.len() {
                assert(s =~= all_blue(c.len()));
            }
        }
    }
}

/// The coloring reached from `c` by `j` steps in counting order.
pub open spec fn nth_successor(c: Seq<bool>, j: nat) -> Seq<bool>
    decreases j,
{
    if j == 0 {
        c
    } else {
        successor(nth_successor(c, (j - 1) as nat))
    }
}

/// Counting up from the all-blue coloring of `n` edges: step `j`, `j < 2^n`,
/// reaches the coloring of rank `j`, and that coloring is the last one, the
/// all-red one after which a step reports exhaustion, exactly when
/// `j == 2^n - 1`. So `2^n` colorings are visited before the report.
pub proof fn lemma_counting_order(n: nat, j: nat)
    requires
        j < pow2(n),
    ensures
        nth_successor(all_blue(n), j).len() == n,
        rank(nth_successor(all_blue(n), j)) == j,
        first_blue(nth_successor(all_blue(n), j)) == n <==> j + 1 == pow2(n),
    decreases j,
{
    let c = nth_successor(all_blue(n), j);
    if j == 0 {
        lemma_rank_all_blue(n);
    } else {
        let before = nth_successor(all_blue(n), (j - 1) as nat);
        lemma_counting_order(n, (j - 1) as nat);
        lemma_rank_successor(before);
    }
    lemma_rank_successor(c);
    lemma_rank_bound(successor(c));
}

/// The colorings visited on the way are all different.
pub proof fn lemma_counting_distinct(n: nat, i: nat, j: nat)
    requires
        i < j < pow2(n),
    ensures
        nth_successor(all_blue(n), i) != nth_successor(all_blue(n), j),
{
    lemma_counting_order(n, i);
    lemma_counting_order(n, j);
}

/// Steps the first `n` bits of `words` to their successor in counting order
/// and says whether they were the last coloring, the all-red one.
pub fn increment_bits(words: &mut [u64; 32], n: usize) -> (exhausted: bool)
    requires
        n <= CAPACITY,
    ensures
        bits_of(final(words)@, n as nat) == successor(bits_of(old(words)@, n as nat)),
        exhausted == (first_blue(bits_of(old(words)@, n as nat)) == n),
        forall|i: int| n <= i < CAPACITY ==> bit_at(final(words)@, i) == bit_at(old(words)@, i),
    no_unwind
{
    let ghost before = words@;
    let mut digit: usize = 0;
    while digit < n
        invariant
            digit <= n <= CAPACITY,
            before == old(words)@,
            forall|i: int| 0 <= i < digit ==> bit_at(before, i),
            forall|i: int| 0 <= i < digit ==> !bit_at(words@, i),
            forall|i: int| digit <= i < CAPACITY ==> bit_at(words@, i) == bit_at(before, i),
        decreases n - digit,
    {
        if get_bit(words, digit) {
            clear_bit(words, digit);
            digit += 1;
        } else {
            set_bit(words, digit);
            proof {
                lemma_first_blue_is(bits_of(before, n as nat), digit as nat);
                assert(bits_of(words@, n as nat) =~= successor(bits_of(before, n as nat)));
            }
            return false;
        }
    }
    proof {
        lemma_first_blue_is(bits_of(before, n as nat), n as nat);
        assert(bits_of(words@, n as nat) =~= successor(bits_of(before, n as nat)));
    }
    true
}

} // verus!
