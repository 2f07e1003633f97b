//! Triangular numbers.
//!
//! The edges of a complete graph are laid out in triangular order: the slot of
//! the pair `a <= b` is `triangular(b) + a`. Everything that addresses an edge
//! goes through the functions of this module.

use vstd::prelude::*;

verus! {

/// The `k`-th triangular number, `k * (k + 1) / 2`.
pub open spec fn triangular(k: nat) -> nat {
    k * (k + 1) / 2
}

/// `k` is the triangular root of `x`: the largest `k` with `triangular(k) <= x`.
pub open spec fn is_triangle_root(x: nat, k: nat) -> bool {
    triangular(k) <= x < triangular(k + 1)
}

/// The triangular root of `x`. It exists for every `x` and is unique
/// (`lemma_triangle_root_exists`, `lemma_triangle_root_unique`).
pub open spec fn spec_triangle_root(x: nat) -> nat {
    choose|k: nat| is_triangle_root(x, k)
}

/// The slot of the edge between two vertices, whichever is named first: the
/// lower vertex is added to the triangular number of the higher one.
pub open spec fn spec_edge_index(a: nat, b: nat) -> nat {
    if a <= b {
        triangular(b) + a
    } else {
        triangular(a) + b
    }
}

/// The pair of vertices `(a, b)`, `a <= b`, whose slot is `i`.
pub open spec fn spec_edge_vertices(i: nat) -> (nat, nat) {
    ((i - triangular(spec_triangle_root(i))) as nat, spec_triangle_root(i))
}

/// Each triangular number is the one before it plus its own index.
pub proof fn lemma_triangular_step(k: nat)
    ensures
        triangular(k + 1) == triangular(k) + k + 1,
        triangular(0) == 0,
        k <= triangular(k),
{
    assert((k + 1) * (k + 2) == k * (k + 1) + 2 * (k + 1)) by (nonlinear_arith);
    assert(k * (k + 1) >= 2 * k || k == 0) by (nonlinear_arith);
}

/// Triangular numbers grow with their index.
pub proof fn lemma_triangular_monotonic(i: nat, j: nat)
    requires
        i <= j,
    ensures
        triangular(i) <= triangular(j),
        i < j ==> triangular(i + 1) <= triangular(j),
    decreases j - i,
{
    if i < j {
        lemma_triangular_step(i);
        lemma_triangular_monotonic(i + 1, j);
    }
}

/// At most one number is the triangular root of `x`.
pub proof fn lemma_triangle_root_unique(x: nat, k1: nat, k2: nat)
    requires
        is_triangle_root(x, k1),
        is_triangle_root(x, k2),
    ensures
        k1 == k2,
{
    if k1 < k2 {
        lemma_triangular_monotonic(k1, k2);
    } else if k2 < k1 {
        lemma_triangular_monotonic(k2, k1);
    }
}

/// Every number has a triangular root, and the root is at most the number.
pub proof fn lemma_triangle_root_exists(x: nat)
    ensures
        is_triangle_root(x, spec_triangle_root(x)),
        spec_triangle_root(x) <= x,
    decreases x,
{
    if x == 0 {
        lemma_triangular_step(0);
        assert(is_triangle_root(0, 0));
    } else {
        let p = (x - 1) as nat;
        lemma_triangle_root_exists(p);
        let k = spec_triangle_root(p);
        lemma_triangular_step(k);
        lemma_triangular_step(k + 1);
        if x < triangular(k + 1) {
            assert(is_triangle_root(x, k));
        } else {
            assert(is_triangle_root(x, k + 1));
        }
    }
    let r = spec_triangle_root(x);
    lemma_triangular_step(r);
}

/// A number with a known triangular root has that root.
pub proof fn lemma_triangle_root_is(x: nat, k: nat)
    requires
        is_triangle_root(x, k),
    ensures
        spec_triangle_root(x) == k,
{
    lemma_triangle_root_unique(x, k, spec_triangle_root(x));
}

/// The triangular root undoes the triangular number.
pub proof fn lemma_triangle_root_of_triangular(k: nat)
    ensures
        spec_triangle_root(triangular(k)) == k,
{
    lemma_triangular_step(k);
    lemma_triangle_root_is(triangular(k), k);
}

/// A number is triangular exactly when the triangular number of its root is the
/// number itself.
pub proof fn lemma_triangular_iff_root(x: nat)
    ensures
        (exists|k: nat| triangular(k) == x) <==> triangular(spec_triangle_root(x)) == x,
{
    if exists|k: nat| triangular(k) == x {
        let k = choose|k: nat| triangular(k) == x;
        lemma_triangle_root_of_triangular(k);
    }
}

/// Decoding the slot of a pair `a <= b` gives the pair back, so the slots of
/// different pairs differ.
pub proof fn lemma_edge_index_round_trip(a: nat, b: nat)
    requires
        a <= b,
    ensures
        spec_edge_vertices(spec_edge_index(a, b)) == (a, b),
        spec_triangle_root(spec_edge_index(a, b)) == b,
{
    lemma_triangular_step(b);
    lemma_triangle_root_is(spec_edge_index(a, b), b);
}

/// Encoding the pair decoded from a slot gives the slot back, and the decoded
/// pair is ordered.
pub proof fn lemma_edge_vertices_round_trip(i: nat)
    ensures
        spec_edge_vertices(i).0 <= spec_edge_vertices(i).1,
        spec_edge_index(spec_edge_vertices(i).0, spec_edge_vertices(i).1) == i,
{
    lemma_triangle_root_exists(i);
    lemma_triangular_step(spec_triangle_root(i));
}

/// Under `n` vertices every pair `a <= b < n` has its slot below `triangular(n)`.
pub proof fn lemma_edge_index_bound(a: nat, b: nat, n: nat)
    requires
        a <= b < n,
    ensures
        spec_edge_index(a, b) < triangular(n),
{
    lemma_triangular_step(b);
    lemma_triangular_monotonic(b, n);
}

/// A slot below `triangular(n)` decodes to a pair of vertices below `n`.
pub proof fn lemma_edge_vertices_bound(i: nat, n: nat)
    requires
        i < triangular(n),
    ensures
        spec_edge_vertices(i).0 <= spec_edge_vertices(i).1 < n,
{
    lemma_edge_vertices_round_trip(i);
    let b = spec_triangle_root(i);
    lemma_triangle_root_exists(i);
    if b >= n {
        lemma_triangular_monotonic(n, b);
    }
}

/// The `n`-th triangular number.
pub fn triangle_num(n: usize) -> (t: usize)
    requires
        triangular(n as nat) <= usize::MAX,
    ensures
        t == triangular(n as nat),
{
    proof {
        lemma_triangular_step(n as nat);
    }
    let wide: u128 = n as u128;
    assert(wide * (wide + 1) <= 0xffff_ffff_ffff_ffff * 0x1_0000_0000_0000_0000) by (nonlinear_arith)
        requires
            wide <= 0xffff_ffff_ffff_ffff,
    ;
    let t: u128 = wide * (wide + 1) / 2;
    t as usize
}

/// The triangular root of `x`: the largest `k` with `triangle_num(k) <= x`.
///
/// Found by bisection over exact integers, so there is no rounding to go wrong
/// next to a triangular number.
pub fn triangle_root(x: usize) -> (k: usize)
    ensures
        is_triangle_root(x as nat, k as nat),
        k == spec_triangle_root(x as nat),
{
    let mut lo: u64 = 0;
    let mut hi: u64 = 0x2_0000_0000;
    proof {
        lemma_triangular_step(0);
        assert(0x2_0000_0000 * 0x2_0000_0001 == 0x4_0000_0002_0000_0000) by (nonlinear_arith);
        assert(triangular(0x2_0000_0000) > 0xffff_ffff_ffff_ffff);
    }
    while hi - lo > 1
        invariant
            lo < hi <= 0x2_0000_0000,
            triangular(lo as nat) <= x < triangular(hi as nat),
        decreases hi - lo,
    {
        let mid: u64 = lo + (hi - lo) / 2;
        let wide: u128 = mid as u128;
        assert(wide * (wide + 1) <= 0x2_0000_0000 * 0x2_0000_0001) by (nonlinear_arith)
            requires
                wide <= 0x2_0000_0000,
        ;
        let t: u128 = wide * (wide + 1) / 2;
        if t <= x as u128 {
            lo = mid;
        } else {
            hi = mid;
        }
    }
    proof {
        lemma_triangular_step(lo as nat);
        lemma_triangle_root_is(x as nat, lo as nat);
    }
    lo as usize
}

/// Whether `x` is a triangular number.
pub fn is_triangular(x: usize) -> (b: bool)
    ensures
        b <==> exists|k: nat| triangular(k) == x,
        b <==> triangular(spec_triangle_root(x as nat)) == x,
{
    let y = triangle_root(x);
    let z = triangle_num(y);
    proof {
        lemma_triangular_iff_root(x as nat);
    }
    x == z
}

/// The slot of the edge between two vertices, in either order.
pub fn edge_index(first: usize, second: usize) -> (i: usize)
    requires
        spec_edge_index(first as nat, second as nat) <= usize::MAX,
    ensures
        i == spec_edge_index(first as nat, second as nat),
        i == spec_edge_index(second as nat, first as nat),
{
    if first <= second {
        triangle_num(second) + first
    } else {
        triangle_num(first) + second
    }
}

/// The pair of vertices `(a, b)`, `a <= b`, whose slot is `i`.
pub fn edge_vertices(i: usize) -> (pair: (usize, usize))
    ensures
        (pair.0 as nat, pair.1 as nat) == spec_edge_vertices(i as nat),
        pair.0 <= pair.1,
        spec_edge_index(pair.0 as nat, pair.1 as nat) == i,
{
    let b = triangle_root(i);
    let base = triangle_num(b);
    proof {
        lemma_edge_vertices_round_trip(i as nat);
    }
    (i - base, b)
}

} // verus!
