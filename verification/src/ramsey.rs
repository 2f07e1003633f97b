//! The search for a Ramsey number.
//!
//! `R(r, s)` is the least number of vertices on which every red/blue coloring
//! of the complete graph holds a red clique of `r` vertices or a blue clique
//! of `s` vertices. The search grows the vertex count from `min(r, s)`; at
//! each count it walks the colorings in counting order until one of them holds
//! neither clique, which sends it to the next count, or until all of them have
//! been seen, which ends it.

use vstd::prelude::*;
use vstd::arithmetic::power2::pow2;
use crate::bits::CAPACITY;
use crate::counting::{all_blue, lemma_rank_all_blue, lemma_rank_bound, lemma_rank_injective, rank};
use crate::graphe::{
    clique_mask, lemma_clique_mask_at, mask_is_blue, mask_is_red, padded, BitString, GraphE,
    MAX_GRAPHE_SIZE,
};
use crate::math::{
    lemma_edge_vertices_bound, lemma_edge_vertices_round_trip, lemma_triangle_root_of_triangular,
    lemma_triangular_monotonic, spec_edge_index, spec_edge_vertices, triangle_num, triangular,
};
use crate::subsets::{
    combinations, count_true, lemma_combinations_complete, lemma_combinations_member,
    lemma_count_bound,
};

verus! {

/// The most vertices whose slots fit in a graph.
pub const MAX_VERTICES: usize = 63;

/// Why a search gave no number.
#[derive(Clone, Copy, Debug, PartialEq, Eq)]
pub enum RamseyError {
    /// A clique size of zero was asked for.
    InvalidSize,
    /// Every vertex count that fits in a graph still has a coloring without
    /// either clique.
    CapacityExceeded,
}

/// The members are pairwise joined by edges of one color, red where `red`
/// holds and blue where not.
pub open spec fn is_clique(coloring: Seq<bool>, members: Seq<bool>, red: bool) -> bool {
    forall|a: nat, b: nat|
        a < b < members.len() && members[a as int] && members[b as int] ==> coloring[(
        #[trigger] spec_edge_index(a, b)) as int] == red
}

/// Among `n` vertices the coloring holds a clique of `k` vertices of the color.
pub open spec fn has_clique(coloring: Seq<bool>, n: nat, k: nat, red: bool) -> bool {
    exists|members: Seq<bool>|
        members.len() == n && count_true(members) == k && #[trigger] is_clique(
            coloring,
            members,
            red,
        )
}

/// The coloring holds a red clique of `r` vertices or a blue one of `s`.
pub open spec fn has_either_clique(coloring: Seq<bool>, n: nat, r: nat, s: nat) -> bool {
    has_clique(coloring, n, r, true) || has_clique(coloring, n, s, false)
}

/// On `n` vertices no coloring escapes: each holds a red clique of `r`
/// vertices or a blue one of `s`. A coloring has one boolean for each of the
/// `triangular(n)` slots.
pub open spec fn unavoidable(n: nat, r: nat, s: nat) -> bool {
    forall|coloring: Seq<bool>|
        coloring.len() == triangular(n) ==> #[trigger] has_either_clique(coloring, n, r, s)
}

/// `n` is the Ramsey number `R(r, s)`: the least vertex count on which no
/// coloring escapes.
pub open spec fn is_ramsey_number(n: nat, r: nat, s: nat) -> bool {
    &&& unavoidable(n, r, s)
    &&& forall|m: nat| m < n ==> !#[trigger] unavoidable(m, r, s)
}

/// The mask of a subset lies on red edges exactly when the subset is a red
/// clique, and on blue edges exactly when it is a blue one.
pub proof fn lemma_mask_is_clique(coloring: Seq<bool>, members: Seq<bool>)
    requires
        coloring.len() == triangular(members.len()),
        coloring.len() <= CAPACITY,
    ensures
        mask_is_red(padded(clique_mask(members), CAPACITY as nat), coloring) <==> is_clique(
            coloring,
            members,
            true,
        ),
        mask_is_blue(padded(clique_mask(members), CAPACITY as nat), coloring) <==> is_clique(
            coloring,
            members,
            false,
        ),
{
    let mask = padded(clique_mask(members), CAPACITY as nat);
    let n = members.len();
    assert forall|red: bool|
        (forall|i: int| 0 <= i < coloring.len() && mask[i] ==> coloring[i] == red) implies is_clique(
        coloring,
        members,
        red,
    ) by {
        assert forall|a: nat, b: nat|
            a < b < members.len() && members[a as int] && members[b as int] implies coloring[(
        #[trigger] spec_edge_index(a, b)) as int] == red by {
            lemma_clique_mask_at(members, a, b);
            assert(mask[spec_edge_index(a, b) as int]);
        }
    }
    assert forall|red: bool| is_clique(coloring, members, red) implies (forall|i: int|
        0 <= i < coloring.len() && mask[i] ==> coloring[i] == red) by {
        assert forall|i: int| 0 <= i < coloring.len() && mask[i] implies coloring[i] == red by {
            let pair = spec_edge_vertices(i as nat);
            lemma_edge_vertices_round_trip(i as nat);
            lemma_edge_vertices_bound(i as nat, n);
            assert(spec_edge_index(pair.0, pair.1) == i);
        }
    }
    assert((forall|i: int| 0 <= i < coloring.len() && mask[i] ==> coloring[i] == true)
        == mask_is_red(mask, coloring));
    assert((forall|i: int| 0 <= i < coloring.len() && mask[i] ==> coloring[i] == false)
        == mask_is_blue(mask, coloring));
}

/// Against the masks of all subsets of `k` of `n` vertices, a coloring has a
/// mask on red edges exactly when it holds a red clique of `k` vertices, and
/// one on blue edges exactly when it holds a blue one.
pub proof fn lemma_masks_find_cliques(masks: Seq<BitString>, coloring: Seq<bool>, n: nat, k: nat)
    requires
        coloring.len() == triangular(n),
        coloring.len() <= CAPACITY,
        masks.len() == combinations(n, k).len(),
        forall|j: int|
            0 <= j < masks.len() ==> (#[trigger] masks[j])@ == padded(
                clique_mask(combinations(n, k)[j]),
                CAPACITY as nat,
            ),
    ensures
        (exists|j: int| 0 <= j < masks.len() && mask_is_red(masks[j]@, coloring)) <==> has_clique(
            coloring,
            n,
            k,
            true,
        ),
        (exists|j: int| 0 <= j < masks.len() && mask_is_blue(masks[j]@, coloring)) <==> has_clique(
            coloring,
            n,
            k,
            false,
        ),
{
    let all = combinations(n, k);
    if exists|j: int| 0 <= j < masks.len() && mask_is_red(masks[j]@, coloring) {
        let j = choose|j: int| 0 <= j < masks.len() && mask_is_red(masks[j]@, coloring);
        lemma_combinations_member(n, k, j);
        lemma_mask_is_clique(coloring, all[j]);
        assert(masks[j]@ == padded(clique_mask(all[j]), CAPACITY as nat));
        assert(is_clique(coloring, all[j], true));
    }
    if exists|j: int| 0 <= j < masks.len() && mask_is_blue(masks[j]@, coloring) {
        let j = choose|j: int| 0 <= j < masks.len() && mask_is_blue(masks[j]@, coloring);
        lemma_combinations_member(n, k, j);
        lemma_mask_is_clique(coloring, all[j]);
        assert(masks[j]@ == padded(clique_mask(all[j]), CAPACITY as nat));
        assert(is_clique(coloring, all[j], false));
    }
    if has_clique(coloring, n, k, true) {
        let members = choose|members: Seq<bool>|
            members.len() == n && count_true(members) == k && #[trigger] is_clique(
                coloring,
                members,
                true,
            );
        let j = lemma_combinations_complete(n, k, members);
        lemma_mask_is_clique(coloring, members);
        assert(masks[j]@ == padded(clique_mask(all[j]), CAPACITY as nat));
        assert(mask_is_red(masks[j]@, coloring));
    }
    if has_clique(coloring, n, k, false) {
        let members = choose|members: Seq<bool>|
            members.len() == n && count_true(members) == k && #[trigger] is_clique(
                coloring,
                members,
                false,
            );
        let j = lemma_combinations_complete(n, k, members);
        lemma_mask_is_clique(coloring, members);
        assert(masks[j]@ == padded(clique_mask(all[j]), CAPACITY as nat));
        assert(mask_is_blue(masks[j]@, coloring));
    }
}

/// Fewer vertices than either clique size cannot hold either clique, so some
/// coloring escapes.
pub proof fn lemma_too_few_vertices(m: nat, r: nat, s: nat)
    requires
        m < r,
        m < s,
    ensures
        !unavoidable(m, r, s),
{
    let coloring = all_blue(triangular(m));
    assert forall|members: Seq<bool>| members.len() == m implies count_true(members) != r
        && count_true(members) != s by {
        lemma_count_bound(members);
    }
    assert(!has_either_clique(coloring, m, r, s));
}

/// A clique of one vertex is there as soon as there is a vertex, so the
/// Ramsey number of 1 and anything is 1.
pub proof fn lemma_ramsey_of_one(s: nat)
    requires
        s >= 1,
    ensures
        is_ramsey_number(1, 1, s),
        is_ramsey_number(1, s, 1),
{
    let members = seq![true];
    assert(members.drop_first() =~= Seq::<bool>::empty());
    assert(count_true(members.drop_first()) == 0);
    assert(count_true(members) == 1);
    assert forall|coloring: Seq<bool>| coloring.len() == triangular(1) implies #[trigger] has_either_clique(
        coloring,
        1,
        1,
        s,
    ) by {
        assert(is_clique(coloring, members, true));
    }
    assert forall|coloring: Seq<bool>| coloring.len() == triangular(1) implies #[trigger] has_either_clique(
        coloring,
        1,
        s,
        1,
    ) by {
        assert(is_clique(coloring, members, false));
    }
    assert forall|m: nat| m < 1 implies !#[trigger] unavoidable(m, 1, s) by {
        lemma_too_few_vertices(m, 1, s);
    }
    assert forall|m: nat| m < 1 implies !#[trigger] unavoidable(m, s, 1) by {
        lemma_too_few_vertices(m, s, 1);
    }
}

/// `MAX_VERTICES` vertices fit in a graph, and one more does not.
pub proof fn lemma_max_vertices()
    ensures
        triangular(MAX_VERTICES as nat) <= MAX_GRAPHE_SIZE < triangular((MAX_VERTICES + 1) as nat),
{
    assert(triangular(63) == 2016) by (nonlinear_arith);
    assert(triangular(64) == 2080) by (nonlinear_arith);
}

/// There is at most one Ramsey number for a pair of clique sizes.
pub proof fn lemma_ramsey_number_unique(n1: nat, n2: nat, r: nat, s: nat)
    requires
        is_ramsey_number(n1, r, s),
        is_ramsey_number(n2, r, s),
    ensures
        n1 == n2,
{
    if n1 < n2 {
        assert(!unavoidable(n1, r, s));
    } else if n2 < n1 {
        assert(!unavoidable(n2, r, s));
    }
}

/// Calculate a singular Ramsey Number: `R(r, s)`.
///
/// The answer is `Ok` with the number when it is at most `MAX_VERTICES`. A
/// size of zero is refused, and a number beyond `MAX_VERTICES` is out of reach
/// of the graph's capacity. At each vertex count `n` the search runs over the
/// `2^triangle_num(n)` colorings of the graph's slots, so it is the small
/// numbers that it finds in practice.
pub fn ramsey(r: usize, s: usize) -> (result: Result<usize, RamseyError>)
    ensures
        match result {
            Ok(n) => r >= 1 && s >= 1 && n <= MAX_VERTICES && is_ramsey_number(
                n as nat,
                r as nat,
                s as nat,
            ),
            Err(RamseyError::InvalidSize) => r == 0 || s == 0,
            Err(RamseyError::CapacityExceeded) => r >= 1 && s >= 1 && forall|n: nat|
                n <= MAX_VERTICES ==> !#[trigger] unavoidable(n, r as nat, s as nat),
        },
        result == Err::<usize, RamseyError>(RamseyError::InvalidSize) <==> r == 0 || s == 0,
        result is Ok <==> r >= 1 && s >= 1 && exists|n: nat|
            n <= MAX_VERTICES && #[trigger] unavoidable(n, r as nat, s as nat),
        (r == 1 && s >= 1) || (s == 1 && r >= 1) ==> result == Ok::<usize, RamseyError>(1),
{
    if r == 0 || s == 0 {
        return Err(RamseyError::InvalidSize);
    }
    proof {
        if r == 1 {
            lemma_ramsey_of_one(s as nat);
        }
        if s == 1 {
            lemma_ramsey_of_one(r as nat);
        }
    }
    let mut nvertices: usize = if r < s {
        r
    } else {
        s
    };
    proof {
        assert forall|m: nat| m < nvertices implies !#[trigger] unavoidable(m, r as nat, s as nat) by {
            lemma_too_few_vertices(m, r as nat, s as nat);
        }
    }
    loop
        invariant
            r >= 1,
            s >= 1,
            r == 1 || s == 1 ==> unavoidable(1, r as nat, s as nat),
            forall|m: nat| m < nvertices ==> !#[trigger] unavoidable(m, r as nat, s as nat),
        decreases MAX_VERTICES + 1 - nvertices,
    {
        if nvertices > MAX_VERTICES {
            return Err(RamseyError::CapacityExceeded);
        }
        proof {
            lemma_triangular_monotonic(nvertices as nat, MAX_VERTICES as nat);
            lemma_max_vertices();
            lemma_triangle_root_of_triangular(nvertices as nat);
            lemma_rank_all_blue(triangular(nvertices as nat));
        }
        let edges = triangle_num(nvertices);

        // Build a Graph and The possible rcliques and scliques.
        let mut graph = GraphE::new(edges);
        let rcliques = graph.find_possible_cliques(r);
        let scliques = graph.find_possible_cliques(s);

        loop
            invariant
                r >= 1,
                s >= 1,
                r == 1 || s == 1 ==> unavoidable(1, r as nat, s as nat),
                forall|m: nat| m < nvertices ==> !#[trigger] unavoidable(m, r as nat, s as nat),
                nvertices <= MAX_VERTICES,
                edges == triangular(nvertices as nat),
                edges <= MAX_GRAPHE_SIZE,
                graph@.len() == edges,
                rcliques@.len() == combinations(nvertices as nat, r as nat).len(),
                scliques@.len() == combinations(nvertices as nat, s as nat).len(),
                forall|j: int|
                    0 <= j < rcliques@.len() ==> (#[trigger] rcliques@[j])@ == padded(
                        clique_mask(combinations(nvertices as nat, r as nat)[j]),
                        CAPACITY as nat,
                    ),
                forall|j: int|
                    0 <= j < scliques@.len() ==> (#[trigger] scliques@[j])@ == padded(
                        clique_mask(combinations(nvertices as nat, s as nat)[j]),
                        CAPACITY as nat,
                    ),
                forall|c: Seq<bool>|
                    c.len() == edges && #[trigger] rank(c) < rank(graph@) ==> has_either_clique(
                        c,
                        nvertices as nat,
                        r as nat,
                        s as nat,
                    ),
            ensures
                !unavoidable(nvertices as nat, r as nat, s as nat),
            decreases pow2(edges as nat) - rank(graph@),
        {
            let ghost here = graph@;
            proof {
                lemma_masks_find_cliques(rcliques@, here, nvertices as nat, r as nat);
                lemma_masks_find_cliques(scliques@, here, nvertices as nat, s as nat);
                lemma_rank_bound(here);
            }
            let found = graph.find_cliques(&rcliques, &scliques);
            if !found.0 && !found.1 {
                // We have found a variant of the graph that has neither clique.
                // So now we have to increase the vertex count.
                assert(!has_either_clique(here, nvertices as nat, r as nat, s as nat));
                break ;
            }
            let exhausted = graph.increment();
            proof {
                assert forall|c: Seq<bool>|
                    c.len() == edges && #[trigger] rank(c) <= rank(here) implies has_either_clique(
                    c,
                    nvertices as nat,
                    r as nat,
                    s as nat,
                ) by {
                    if rank(c) == rank(here) {
                        lemma_rank_injective(c, here);
                    }
                }
            }
            if exhausted {
                // Every variant of the graph holds one of the cliques.
                // We have found the Ramsey number.
                proof {
                    assert forall|c: Seq<bool>|
                        c.len() == triangular(nvertices as nat) implies #[trigger] has_either_clique(
                        c,
                        nvertices as nat,
                        r as nat,
                        s as nat,
                    ) by {
                        lemma_rank_bound(c);
                        assert(rank(c) <= rank(here));
                    }
                    assert(unavoidable(nvertices as nat, r as nat, s as nat));
                }
                return Ok(nvertices);
            }
        }
        nvertices += 1;
    }
}

} // verus!
