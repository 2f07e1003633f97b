//! The brute-force sweep: every coloring of a graph of a given size, and what
//! the clique finder says of each.

use vstd::prelude::*;
use vstd::arithmetic::power2::{lemma_pow2_pos, lemma_pow2_unfold, pow2};
use crate::counting::{lemma_rank_all_blue, lemma_rank_bound, rank};
use crate::graphe::{GraphE, MAX_GRAPHE_SIZE};
use crate::math::{lemma_triangular_monotonic, triangle_num, triangular};

verus! {

/// Find the 2 biggest cliques in a GraphE, the smaller one first. It goes by
/// the first edge alone, whose clique it counts as one vertex against none of
/// the other color.
pub fn cliques(n_vertices: usize, kgraphrbe: GraphE) -> (sizes: (usize, usize))
    requires
        kgraphrbe@.len() > 0,
        n_vertices <= 2 || n_vertices <= kgraphrbe@.len(),
    ensures
        sizes == (0usize, 1usize),
{
    // Look for first edge's (AB) color (treat this as RED).
    let edge = kgraphrbe.get(0);
    let r: usize = 1;
    let b: usize = 0;

    // Start at 2 (Vertex C)
    let mut i: usize = 2;
    while i < n_vertices
        invariant
            2 <= i,
            n_vertices <= 2 || n_vertices <= kgraphrbe@.len(),
        decreases n_vertices - i,
    {
        let color = kgraphrbe.get(i);

        if color == edge {
        }
        i += 1;
    }

    // Return smaller clique first, then the bigger clique.
    if r > b {
        (b, r)  // small, big
    } else {
        (r, b)  // small, big
    }
}

/// Generate differently colored graphs to find cliques in: every coloring of
/// `n_edges` edges after the all-blue one. Returns the least size found of the
/// smaller clique and of the bigger one, or `usize::MAX` twice where there is
/// no coloring but the all-blue one.
pub fn calculate(n_vertices: usize, n_edges: usize) -> (sizes: (usize, usize))
    requires
        n_edges <= MAX_GRAPHE_SIZE,
        n_vertices <= 2 || n_vertices <= n_edges,
    ensures
        sizes == if n_edges == 0 {
            (usize::MAX, usize::MAX)
        } else {
            (0usize, 1usize)
        },
{
    let mut kgraphrbe = GraphE::new(n_edges);
    let mut minb: usize = usize::MAX;  // Big Clique
    let mut minr: usize = usize::MAX;  // Small Clique
    proof {
        lemma_rank_all_blue(n_edges as nat);
        lemma_pow2_pos(n_edges as nat);
        if n_edges > 0 {
            lemma_pow2_unfold(n_edges as nat);
            lemma_pow2_pos((n_edges - 1) as nat);
        } else {
            assert(pow2(0) == 1) by {
                vstd::arithmetic::power2::lemma2_to64();
            }
        }
    }

    loop
        invariant_except_break
            kgraphrbe@.len() == n_edges,
            n_vertices <= 2 || n_vertices <= n_edges,
            rank(kgraphrbe@) < pow2(n_edges as nat),
            rank(kgraphrbe@) == 0 ==> minr == usize::MAX && minb == usize::MAX,
            rank(kgraphrbe@) > 0 ==> minr == 0 && minb == 1,
            n_edges > 0 ==> pow2(n_edges as nat) >= 2,
            n_edges == 0 ==> pow2(n_edges as nat) == 1,
        ensures
            n_edges == 0 ==> minr == usize::MAX && minb == usize::MAX,
            n_edges > 0 ==> minr == 0 && minb == 1,
        decreases pow2(n_edges as nat) - rank(kgraphrbe@),
    {
        if kgraphrbe.increment() {
            break ;
        }
        proof {
            lemma_rank_bound(kgraphrbe@);
        }
        let (r, b) = cliques(n_vertices, kgraphrbe);
        if r < minr {
            minr = r;
        }
        if b < minb {
            minb = b;
        }
    }

    (minr, minb)
}

/// The size rule of the sweep over graph sizes: the edge count of the
/// complete graph on `n_vertices` vertices, `n * (n - 1) / 2`, or `None` once
/// that is more than `MAX_GRAPHE_SIZE`, where the sweep ends.
pub fn brute_force_edges(n_vertices: usize) -> (edges: Option<usize>)
    requires
        n_vertices >= 1,
    ensures
        edges is Some <==> n_vertices * (n_vertices - 1) / 2 <= MAX_GRAPHE_SIZE,
        edges matches Some(e) ==> e == n_vertices * (n_vertices - 1) / 2,
{
    proof {
        let before = (n_vertices - 1) as nat;
        assert(n_vertices * (n_vertices - 1) == before * (before + 1)) by (nonlinear_arith)
            requires
                before == n_vertices - 1,
        ;
        assert(triangular(64) > MAX_GRAPHE_SIZE) by (nonlinear_arith);
        assert(triangular(63) <= MAX_GRAPHE_SIZE) by (nonlinear_arith);
        if n_vertices > 64 {
            lemma_triangular_monotonic(64, before);
        } else {
            lemma_triangular_monotonic(before, 63);
        }
    }
    if n_vertices > 64 {
        return None;
    }
    Some(triangle_num(n_vertices - 1))
}

} // verus!
