//! Vertex subsets of a fixed size, in lexicographic order.
//!
//! A subset of `n` vertices is a sequence of `n` booleans. `combinations(n, k)`
//! lists the subsets with `k` members, the one that holds the lowest vertices
//! first. `next_subset` steps from one to the next by moving the rightmost
//! member that can move one place to the right and packing the members after
//! it directly behind it.

use vstd::prelude::*;

verus! {

/// The number of members of a subset.
pub open spec fn count_true(s: Seq<bool>) -> nat
    decreases s.len(),
{
    if s.len() == 0 {
        0
    } else {
        (if s[0] {
            1nat
        } else {
            0nat
        }) + count_true(s.drop_first())
    }
}

/// The number of subsets of size `k` of `n` vertices.
pub open spec fn binomial(n: nat, k: nat) -> nat
    decreases n,
{
    if k == 0 {
        1
    } else if n == 0 {
        0
    } else {
        binomial((n - 1) as nat, (k - 1) as nat) + binomial((n - 1) as nat, k)
    }
}

/// The subset of `n` vertices that holds the `k` lowest ones.
pub open spec fn first_subset(n: nat, k: nat) -> Seq<bool> {
    Seq::new(n, |i: int| i < k)
}

/// The subset of `n` vertices that holds the `k` highest ones.
pub open spec fn last_subset(n: nat, k: nat) -> Seq<bool> {
    Seq::new(n, |i: int| i >= n - k)
}

/// Each subset of `ss` over one more vertex, put in front, which is a member
/// or not as `h` says.
pub open spec fn prepend_each(h: bool, ss: Seq<Seq<bool>>) -> Seq<Seq<bool>> {
    Seq::new(ss.len(), |i: int| seq![h] + ss[i])
}

/// The subsets of size `k` of `n` vertices in lexicographic order: those that
/// hold vertex 0 come first.
pub open spec fn combinations(n: nat, k: nat) -> Seq<Seq<bool>>
    decreases n,
{
    if n == 0 {
        if k == 0 {
            seq![Seq::<bool>::empty()]
        } else {
            Seq::<Seq<bool>>::empty()
        }
    } else if k == 0 {
        prepend_each(false, combinations((n - 1) as nat, 0))
    } else {
        prepend_each(true, combinations((n - 1) as nat, (k - 1) as nat)) + prepend_each(
            false,
            combinations((n - 1) as nat, k),
        )
    }
}

/// No member has a free place directly to its right: the members are the
/// highest vertices.
pub open spec fn is_last_subset(s: Seq<bool>) -> bool {
    forall|i: int| 0 <= i < s.len() - 1 ==> !(#[trigger] s[i] && !s[i + 1])
}

/// The subset after `s` in lexicographic order, for an `s` that is not the
/// last one.
pub open spec fn next_subset_of(s: Seq<bool>) -> Seq<bool>
    decreases s.len(),
{
    if s.len() < 2 {
        s
    } else if !is_last_subset(s.drop_first()) {
        seq![s[0]] + next_subset_of(s.drop_first())
    } else if s[0] && !s[1] {
        seq![false] + first_subset((s.len() - 1) as nat, count_true(s.drop_first()) + 1)
    } else {
        s
    }
}

/// `s` comes before `t` in lexicographic order: where they first differ, `s`
/// holds the vertex and `t` does not.
pub open spec fn precedes(s: Seq<bool>, t: Seq<bool>) -> bool {
    exists|p: int|
        0 <= p < s.len() && p < t.len() && s.take(p) == t.take(p) && #[trigger] s[p] && !t[p]
}

/// Members of a concatenation are counted part by part.
pub proof fn lemma_count_concat(a: Seq<bool>, b: Seq<bool>)
    ensures
        count_true(a + b) == count_true(a) + count_true(b),
    decreases a.len(),
{
    if a.len() == 0 {
        assert(a + b =~= b);
    } else {
        assert((a + b).drop_first() =~= a.drop_first() + b);
        lemma_count_concat(a.drop_first(), b);
    }
}

/// A subset has no more members than there are vertices.
pub proof fn lemma_count_bound(s: Seq<bool>)
    ensures
        count_true(s) <= s.len(),
    decreases s.len(),
{
    if s.len() > 0 {
        lemma_count_bound(s.drop_first());
    }
}

/// A subset that holds no vertex has no members.
pub proof fn lemma_count_none(s: Seq<bool>)
    requires
        forall|i: int| 0 <= i < s.len() ==> !s[i],
    ensures
        count_true(s) == 0,
    decreases s.len(),
{
    if s.len() > 0 {
        let t = s.drop_first();
        assert forall|i: int| 0 <= i < t.len() implies !t[i] by {
            assert(t[i] == s[i + 1]);
        }
        lemma_count_none(t);
    }
}

/// There is a subset of size `k` of `n` vertices exactly when `k <= n`.
pub proof fn lemma_binomial_positive(n: nat, k: nat)
    ensures
        k <= n <==> binomial(n, k) > 0,
    decreases n,
{
    if n > 0 && k > 0 {
        lemma_binomial_positive((n - 1) as nat, (k - 1) as nat);
        lemma_binomial_positive((n - 1) as nat, k);
    }
}

/// There are `binomial(n, k)` subsets of size `k` of `n` vertices.
pub proof fn lemma_combinations_len(n: nat, k: nat)
    ensures
        combinations(n, k).len() == binomial(n, k),
    decreases n,
{
    if n > 0 {
        if k > 0 {
            lemma_combinations_len((n - 1) as nat, (k - 1) as nat);
        }
        lemma_combinations_len((n - 1) as nat, k);
    }
}

/// Each listed subset is over `n` vertices and has `k` members.
pub proof fn lemma_combinations_member(n: nat, k: nat, j: int)
    requires
        0 <= j < combinations(n, k).len(),
    ensures
        combinations(n, k)[j].len() == n,
        count_true(combinations(n, k)[j]) == k,
    decreases n,
{
    if n > 0 {
        let s = combinations(n, k)[j];
        let front = if k > 0 {
            combinations((n - 1) as nat, (k - 1) as nat)
        } else {
            Seq::<Seq<bool>>::empty()
        };
        if j < front.len() {
            lemma_combinations_member((n - 1) as nat, (k - 1) as nat, j);
            assert(s.drop_first() =~= front[j]);
        } else {
            let rest = combinations((n - 1) as nat, k);
            lemma_combinations_member((n - 1) as nat, k, j - front.len());
            assert(s.drop_first() =~= rest[j - front.len()]);
        }
    }
}

/// Every subset of `n` vertices with `k` members is listed.
pub proof fn lemma_combinations_complete(n: nat, k: nat, s: Seq<bool>) -> (j: int)
    requires
        s.len() == n,
        count_true(s) == k,
    ensures
        0 <= j < combinations(n, k).len(),
        combinations(n, k)[j] == s,
    decreases n,
{
    if n == 0 {
        assert(s =~= Seq::<bool>::empty());
        0
    } else {
        let t = s.drop_first();
        assert(s =~= seq![s[0]] + t);
        if k == 0 {
            let j = lemma_combinations_complete((n - 1) as nat, 0, t);
            j
        } else if s[0] {
            let j = lemma_combinations_complete((n - 1) as nat, (k - 1) as nat, t);
            j
        } else {
            let j = lemma_combinations_complete((n - 1) as nat, k, t);
            combinations((n - 1) as nat, (k - 1) as nat).len() + j
        }
    }
}

/// The list starts with the subset of the `k` lowest vertices.
pub proof fn lemma_combinations_first(n: nat, k: nat)
    requires
        k <= n,
    ensures
        combinations(n, k).len() > 0,
        combinations(n, k)[0] == first_subset(n, k),
    decreases n,
{
    if n == 0 {
        assert(combinations(n, k)[0] =~= first_subset(n, k));
    } else if k == 0 {
        lemma_combinations_first((n - 1) as nat, 0);
        assert(combinations(n, k)[0] =~= first_subset(n, k));
    } else {
        lemma_combinations_first((n - 1) as nat, (k - 1) as nat);
        assert(combinations(n, k)[0] =~= first_subset(n, k));
    }
}

/// A subset whose members cannot move is the subset of the highest vertices.
pub proof fn lemma_last_subset_is(s: Seq<bool>)
    requires
        is_last_subset(s),
    ensures
        s == last_subset(s.len(), count_true(s)),
    decreases s.len(),
{
    lemma_count_bound(s);
    if s.len() > 0 {
        let t = s.drop_first();
        assert forall|i: int| 0 <= i < t.len() - 1 implies !(#[trigger] t[i] && !t[i + 1]) by {
            assert(t[i] == s[i + 1]);
            assert(!(s[i + 1] && !s[i + 2]));
        }
        lemma_last_subset_is(t);
        lemma_count_bound(t);
        let c = count_true(t);
        assert forall|i: int| 0 <= i < s.len() implies s[i] == (i >= s.len() - count_true(s)) by {
            if i > 0 {
                assert(s[i] == t[i - 1]);
            }
            if s[0] && s.len() > 1 {
                assert(!(s[0] && !s[1]));
                assert(s[1] == t[0]);
            }
        }
    }
    assert(s =~= last_subset(s.len(), count_true(s)));
}

/// Putting a vertex in front of a subset whose members cannot move leaves them
/// unable to move, unless the new vertex is a member and the old first one is
/// not.
pub proof fn lemma_last_subset_prepend(h: bool, x: Seq<bool>)
    requires
        is_last_subset(x),
        !h || x.len() == 0 || x[0],
    ensures
        is_last_subset(seq![h] + x),
{
    let s = seq![h] + x;
    assert forall|i: int| 0 <= i < s.len() - 1 implies !(#[trigger] s[i] && !s[i + 1]) by {
        if i > 0 {
            assert(s[i] == x[i - 1]);
            assert(s[i + 1] == x[i]);
            assert(!(x[i - 1] && !x[i]));
        }
    }
}

/// A vertex in front of a subset with a member that can move: the member still
/// can, and the next subset keeps the vertex in front.
pub proof fn lemma_next_subset_prepend(h: bool, x: Seq<bool>)
    requires
        !is_last_subset(x),
    ensures
        !is_last_subset(seq![h] + x),
        next_subset_of(seq![h] + x) == seq![h] + next_subset_of(x),
{
    let s = seq![h] + x;
    let i = choose|i: int| 0 <= i < x.len() - 1 && (#[trigger] x[i] && !x[i + 1]);
    assert(s[i + 1] == x[i]);
    assert(s[i + 2] == x[i + 1]);
    assert(s[i + 1] && !s[i + 1 + 1]);
    assert(s.drop_first() =~= x);
}

/// Stepping through the list: the subset after `combinations(n, k)[j]` is
/// `combinations(n, k)[j + 1]`, and the last listed subset is the one whose
/// members cannot move.
pub proof fn lemma_combinations_next(n: nat, k: nat, j: int)
    requires
        0 <= j < combinations(n, k).len(),
    ensures
        j + 1 < combinations(n, k).len() ==> !is_last_subset(combinations(n, k)[j])
            && next_subset_of(combinations(n, k)[j]) == combinations(n, k)[j + 1],
        j + 1 == combinations(n, k).len() ==> is_last_subset(combinations(n, k)[j]),
    decreases n,
{
    let all = combinations(n, k);
    let s = all[j];
    if n > 0 {
        let m = (n - 1) as nat;
        let front = if k > 0 {
            combinations(m, (k - 1) as nat)
        } else {
            Seq::<Seq<bool>>::empty()
        };
        let rest = combinations(m, k);
        assert(all.len() == front.len() + rest.len());
        if j < front.len() {
            let x = front[j];
            assert(s == seq![true] + x);
            lemma_combinations_next(m, (k - 1) as nat, j);
            lemma_combinations_member(m, (k - 1) as nat, j);
            if j + 1 < front.len() {
                lemma_next_subset_prepend(true, x);
                assert(all[j + 1] == seq![true] + front[j + 1]);
            } else {
                lemma_last_subset_is(x);
                lemma_combinations_len(m, k);
                lemma_binomial_positive(m, k);
                if rest.len() == 0 {
                    lemma_last_subset_prepend(true, x);
                } else {
                    lemma_combinations_first(m, k);
                    assert(all[j + 1] == seq![false] + rest[0]);
                    assert(s[0] && !s[1]);
                    assert(s.drop_first() =~= x);
                }
            }
        } else {
            let i = j - front.len();
            let x = rest[i];
            assert(s == seq![false] + x);
            lemma_combinations_next(m, k, i);
            if i + 1 < rest.len() {
                lemma_next_subset_prepend(false, x);
                assert(all[j + 1] == seq![false] + rest[i + 1]);
            } else {
                lemma_last_subset_prepend(false, x);
            }
        }
    }
}

/// Earlier listed subsets come before later ones in lexicographic order, so no
/// subset is listed twice.
pub proof fn lemma_combinations_ordered(n: nat, k: nat, i: int, j: int)
    requires
        0 <= i < j < combinations(n, k).len(),
    ensures
        precedes(combinations(n, k)[i], combinations(n, k)[j]),
        combinations(n, k)[i] != combinations(n, k)[j],
    decreases n,
{
    let all = combinations(n, k);
    let s = all[i];
    let t = all[j];
    if n > 0 {
        let m = (n - 1) as nat;
        let front = if k > 0 {
            combinations(m, (k - 1) as nat)
        } else {
            Seq::<Seq<bool>>::empty()
        };
        let rest = combinations(m, k);
        if j < front.len() {
            lemma_combinations_ordered(m, (k - 1) as nat, i, j);
            lemma_precedes_prepend(true, front[i], front[j]);
        } else if i >= front.len() {
            lemma_combinations_ordered(m, k, i - front.len(), j - front.len());
            lemma_precedes_prepend(false, rest[i - front.len()], rest[j - front.len()]);
        } else {
            assert(s.take(0) =~= t.take(0));
            assert(s[0] && !t[0]);
        }
    }
}

/// The same vertex in front of two subsets keeps their order.
pub proof fn lemma_precedes_prepend(h: bool, s: Seq<bool>, t: Seq<bool>)
    requires
        precedes(s, t),
    ensures
        precedes(seq![h] + s, seq![h] + t),
{
    let p = choose|p: int|
        0 <= p < s.len() && p < t.len() && s.take(p) == t.take(p) && #[trigger] s[p] && !t[p];
    let hs = seq![h] + s;
    let ht = seq![h] + t;
    assert(hs.take(p + 1) =~= seq![h] + s.take(p));
    assert(ht.take(p + 1) =~= seq![h] + t.take(p));
    assert(hs[p + 1] && !ht[p + 1]);
}

/// The next subset, written out: below the rightmost member that can move,
/// nothing changes; that member moves one place to the right, and the members
/// above it follow directly behind.
pub proof fn lemma_next_subset_at(s: Seq<bool>, i: int)
    requires
        0 <= i,
        i + 1 < s.len(),
        s[i] && !s[i + 1],
        is_last_subset(s.skip(i + 1)),
    ensures
        !is_last_subset(s),
        next_subset_of(s) == s.take(i) + seq![false] + first_subset(
            (s.len() - i - 1) as nat,
            count_true(s.skip(i + 1)) + 1,
        ),
    decreases i,
{
    let t = s.drop_first();
    if i == 0 {
        assert(t =~= s.skip(1));
        assert(s.take(0) + seq![false] =~= seq![false]);
    } else {
        assert(t[i - 1] == s[i]);
        assert(t[i] == s[i + 1]);
        assert(t.skip(i) =~= s.skip(i + 1));
        lemma_next_subset_at(t, i - 1);
        assert(s.take(i) =~= seq![s[0]] + t.take(i - 1));
        let tail = first_subset((s.len() - i - 1) as nat, count_true(s.skip(i + 1)) + 1);
        assert(seq![s[0]] + (t.take(i - 1) + seq![false] + tail) =~= s.take(i) + seq![false]
            + tail);
    }
}

/// Steps `which` to the next subset of the same size in lexicographic order.
/// Returns `true`, and leaves `which` as it is, when it is the last one.
pub fn next_subset(which: &mut Vec<bool>) -> (done: bool)
    ensures
        done == is_last_subset(old(which)@),
        done ==> final(which)@ == old(which)@,
        !done ==> final(which)@ == next_subset_of(old(which)@),
{
    let n = which.len();
    if n < 2 {
        return true;
    }
    let ghost before = which@;
    // The pair under the eye is (index - 1, index).
    let mut index: usize = n - 1;
    // The members above `index`.
    let mut ones: usize = 0;
    assert(before.skip(n as int) =~= Seq::<bool>::empty());
    while index > 0
        invariant
            which@ == before,
            before == old(which)@,
            n == before.len(),
            index < n,
            is_last_subset(before.skip(index as int)),
            ones == count_true(before.skip(index + 1)),
            ones <= n - 1 - index,
        decreases index,
    {
        let here = which[index];
        proof {
            assert(before.skip(index as int).drop_first() =~= before.skip(index + 1));
            assert(before.skip(index as int)[0] == before[index as int]);
        }
        if which[index - 1] && !here {
            let pivot: usize = index - 1;
            which.set(pivot, false);
            let mut p: usize = index;
            while p < n
                invariant
                    index <= p <= n,
                    pivot + 1 == index,
                    which@.len() == n,
                    n == before.len(),
                    ones <= n - 1 - index,
                    forall|q: int| 0 <= q < pivot ==> which@[q] == before[q],
                    !which@[pivot as int],
                    forall|q: int| index <= q < p ==> which@[q] == (q - index < ones + 1),
                decreases n - p,
            {
                which.set(p, p - index <= ones);
                p += 1;
            }
            proof {
                lemma_next_subset_at(before, pivot as int);
                assert(which@ =~= before.take(pivot as int) + seq![false] + first_subset(
                    (n - pivot - 1) as nat,
                    count_true(before.skip(pivot + 1)) + 1,
                ));
            }
            return false;
        }
        proof {
            let wide = before.skip(index - 1);
            let narrow = before.skip(index as int);
            assert forall|i: int| 0 <= i < wide.len() - 1 implies !(#[trigger] wide[i] && !wide[i
                + 1]) by {
                if i > 0 {
                    assert(wide[i] == narrow[i - 1]);
                    assert(wide[i + 1] == narrow[i]);
                    assert(!(narrow[i - 1] && !narrow[i - 1 + 1]));
                }
            }
        }
        if here {
            ones += 1;
        }
        index -= 1;
    }
    proof {
        assert(before.skip(0) =~= before);
    }
    true
}

} // verus!
