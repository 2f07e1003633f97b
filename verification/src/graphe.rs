//! A complete graph whose edges are colored red or blue, one bit each.
//!
//! A graph over `n` vertices has `triangular(n)` slots: one for each pair
//! `a <= b < n`, at `triangular(b) + a`. The slot of a pair `a < b` holds the
//! color of the edge between `a` and `b`; the slot of a pair `(b, b)` belongs
//! to no edge and no clique mask ever covers it.

use vstd::prelude::*;
use crate::bits::{bit_at, bits_of, clear_bit, get_bit, lemma_zero_words, set_bit, CAPACITY};
use crate::counting::{
    all_blue, first_blue, increment_bits, lemma_first_blue_is, lemma_rank_bound,
    lemma_rank_successor, rank, successor,
};
use crate::math::{
    edge_index, lemma_edge_index_bound, lemma_edge_index_round_trip, lemma_edge_vertices_bound,
    lemma_triangular_monotonic, lemma_triangular_step, spec_edge_index, spec_edge_vertices,
    spec_triangle_root, triangle_num, triangle_root, triangular,
};
use crate::simd::{simd_and, simd_eq, simd_is_zero};
use crate::subsets::{
    binomial, combinations, count_true, first_subset, lemma_binomial_positive,
    lemma_combinations_first, lemma_combinations_len, lemma_combinations_member,
    lemma_combinations_next, lemma_count_concat, lemma_count_none, next_subset,
};
use vstd::arithmetic::power2::pow2;

verus! {

/// The maximum number of edges.
pub const MAX_GRAPHE_SIZE: usize = 64 * 32;

/// A bit string as wide as a graph can be. It has no length of its own.
pub struct BitString(pub [u64; 32]);

impl View for BitString {
    type V = Seq<bool>;

    /// All the bits of the string.
    open spec fn view(&self) -> Seq<bool> {
        bits_of(self.0@, CAPACITY as nat)
    }
}

/// The mask of a vertex subset: over the slots of a graph with as many
/// vertices, the slots of the edges between two members.
pub open spec fn clique_mask(members: Seq<bool>) -> Seq<bool> {
    Seq::new(
        triangular(members.len()),
        |i: int|
            spec_edge_vertices(i as nat).0 < spec_edge_vertices(i as nat).1
                && members[spec_edge_vertices(i as nat).0 as int]
                && members[spec_edge_vertices(i as nat).1 as int],
    )
}

/// `s` made `n` bits long, with clear bits behind it.
pub open spec fn padded(s: Seq<bool>, n: nat) -> Seq<bool> {
    Seq::new(n, |i: int| i < s.len() && s[i])
}

/// Every edge of the coloring that the mask covers is red.
pub open spec fn mask_is_red(mask: Seq<bool>, coloring: Seq<bool>) -> bool {
    forall|i: int| 0 <= i < coloring.len() && mask[i] ==> coloring[i]
}

/// Every edge of the coloring that the mask covers is blue.
pub open spec fn mask_is_blue(mask: Seq<bool>, coloring: Seq<bool>) -> bool {
    forall|i: int| 0 <= i < coloring.len() && mask[i] ==> !coloring[i]
}

/// The mask of a subset covers the slot of a pair `a < b` exactly when both
/// are members, and it covers no slot of a pair `(b, b)`.
pub proof fn lemma_clique_mask_at(members: Seq<bool>, a: nat, b: nat)
    requires
        a <= b < members.len(),
    ensures
        spec_edge_index(a, b) < clique_mask(members).len(),
        clique_mask(members)[spec_edge_index(a, b) as int] == (a < b && members[a as int]
            && members[b as int]),
{
    lemma_edge_index_bound(a, b, members.len());
    lemma_edge_index_round_trip(a, b);
}

/// The number of pairs among `k` vertices, `k * (k - 1) / 2`.
pub open spec fn pairs(k: nat) -> nat {
    (k * (k - 1) / 2) as nat
}

/// The mask of a subset covers as many slots as there are pairs of members.
pub proof fn lemma_clique_mask_count(members: Seq<bool>)
    ensures
        count_true(clique_mask(members)) == pairs(count_true(members)),
    decreases members.len(),
{
    let n = members.len();
    if n == 0 {
        lemma_triangular_step(0);
        assert(pairs(0) == 0);
    } else {
        let m = (n - 1) as nat;
        let front = members.drop_last();
        let x = members.last();
        let row = Seq::new(n, |a: int| a < m && front[a] && x);
        let c = count_true(front);
        lemma_triangular_step(m);
        lemma_clique_mask_count(front);
        assert(clique_mask(members) =~= clique_mask(front) + row) by {
            assert forall|i: int| 0 <= i < triangular(n) implies clique_mask(members)[i] == (
            clique_mask(front) + row)[i] by {
                if i < triangular(m) {
                    lemma_edge_vertices_bound(i as nat, m);
                } else {
                    let a = (i - triangular(m)) as nat;
                    lemma_edge_index_round_trip(a, m);
                }
            }
        }
        lemma_count_concat(clique_mask(front), row);
        assert(members =~= front + seq![x]);
        lemma_count_concat(front, seq![x]);
        assert(seq![x].drop_first() =~= Seq::<bool>::empty());
        assert(count_true(seq![x].drop_first()) == 0);
        if x {
            assert(row =~= front + seq![false]);
            lemma_count_concat(front, seq![false]);
            assert(seq![false].drop_first() =~= Seq::<bool>::empty());
            assert(count_true(seq![false].drop_first()) == 0);
            assert((c + 1) * ((c + 1) - 1) == c * (c - 1) + 2 * c) by (nonlinear_arith);
            assert(c * (c - 1) >= 0) by (nonlinear_arith);
            assert(pairs(c + 1) == pairs(c) + c);
        } else {
            lemma_count_none(row);
        }
    }
}

/// Clear bits behind a sequence add no members.
pub proof fn lemma_count_padded(s: Seq<bool>, n: nat)
    requires
        s.len() <= n,
    ensures
        count_true(padded(s, n)) == count_true(s),
{
    let tail = Seq::new((n - s.len()) as nat, |i: int| false);
    assert(padded(s, n) =~= s + tail);
    lemma_count_concat(s, tail);
    lemma_count_none(tail);
}

/// An edge that was just set reads back with its new color, whatever it was
/// before, and every other edge reads back as before. Red and then blue on
/// one edge leaves it blue.
pub proof fn lemma_set_then_get(coloring: Seq<bool>, index: int, color: bool, other: int)
    requires
        0 <= index < coloring.len(),
        0 <= other < coloring.len(),
    ensures
        coloring.update(index, color)[index] == color,
        other != index ==> coloring.update(index, color)[other] == coloring[other],
        !coloring.update(index, true).update(index, false)[index],
        !coloring[index] ==> coloring.update(index, true).update(index, false) == coloring,
{
    assert(!coloring[index] ==> coloring.update(index, true).update(index, false) =~= coloring);
}

/// A complete graph colored with red and blue edges.
#[derive(Clone, Copy)]
pub struct GraphE {
    // Number of edges in the graph.
    edges: usize,
    // Bitstring of relations between vertices.
    colors: [u64; 32],
}

impl View for GraphE {
    type V = Seq<bool>;

    /// The coloring: one boolean for each edge, `true` for red.
    closed spec fn view(&self) -> Seq<bool> {
        bits_of(self.colors@, self.edges as nat)
    }
}

/// Set the first vertex that is not a member yet: the first `false` of
/// `current` becomes `true`. Where every vertex is a member nothing changes.
pub fn add(current: &mut Vec<bool>)
    ensures
        first_blue(old(current)@) < old(current)@.len() ==> final(current)@ == old(
            current,
        )@.update(first_blue(old(current)@) as int, true),
        first_blue(old(current)@) >= old(current)@.len() ==> final(current)@ == old(current)@,
{
    let mut i: usize = 0;
    while i < current.len()
        invariant
            i <= current@.len(),
            current@ == old(current)@,
            forall|j: int| 0 <= j < i ==> current@[j],
        decreases current.len() - i,
    {
        if !current[i] {
            proof {
                lemma_first_blue_is(current@, i as nat);
            }
            current.set(i, true);
            return ;
        }
        i += 1;
    }
    proof {
        lemma_first_blue_is(current@, i as nat);
    }
}

impl GraphE {
    /// No more edges than there is room for, and no bit set behind the last
    /// edge.
    #[verifier::type_invariant]
    spec fn well_formed(self) -> bool {
        &&& self.edges <= MAX_GRAPHE_SIZE
        &&& forall|i: int| self.edges <= i < CAPACITY ==> !bit_at(self.colors@, i)
    }

    /// The number of vertices of a graph whose edge count is triangular.
    pub open spec fn vertices(&self) -> nat {
        spec_triangle_root(self@.len())
    }

    /// The edge count is a triangular number, so the graph has a vertex count.
    pub open spec fn is_complete(&self) -> bool {
        triangular(self.vertices()) == self@.len()
    }

    /// Create a new Red/Blue complete graph, with every edge blue.
    pub fn new(edges: usize) -> (g: Self)
        requires
            edges <= MAX_GRAPHE_SIZE,
        ensures
            g@ == all_blue(edges as nat),
    {
        let colors: [u64; 32] = [0; 32];
        proof {
            assert forall|i: int| 0 <= i < CAPACITY implies !bit_at(colors@, i) by {
                lemma_zero_words(colors@, i);
            }
            assert(bits_of(colors@, edges as nat) =~= all_blue(edges as nat));
        }
        GraphE { edges, colors }
    }

    /// Create the mask of a clique from a list of vertices: the edges between
    /// two listed vertices are red, every other slot is blue.
    pub fn from(vertices: &[bool]) -> (g: Self)
        requires
            triangular(vertices@.len()) <= MAX_GRAPHE_SIZE,
        ensures
            g@ == clique_mask(vertices@),
    {
        let n = vertices.len();
        let mut graph = GraphE::new(triangle_num(n));
        let ghost mask = clique_mask(vertices@);
        proof {
            lemma_triangular_step(0);
        }
        // Build all of the edges, row by row.
        let mut vertex_b: usize = 0;
        while vertex_b < n
            invariant
                vertex_b <= n,
                n == vertices@.len(),
                mask == clique_mask(vertices@),
                graph@.len() == triangular(n as nat),
                triangular(n as nat) <= MAX_GRAPHE_SIZE,
                forall|i: int|
                    0 <= i < graph@.len() ==> (#[trigger] graph@[i]) == (mask[i] && i
                        < triangular(vertex_b as nat)),
            decreases n - vertex_b,
        {
            proof {
                lemma_triangular_step(vertex_b as nat);
                lemma_triangular_monotonic(vertex_b as nat, n as nat);
            }
            let ghost row = triangular(vertex_b as nat);
            assert(forall|i: int|
                0 <= i < graph@.len() ==> graph@[i] == (mask[i] && i < triangular(
                    vertex_b as nat,
                )));
            assert(forall|i: int| 0 <= i < graph@.len() ==> graph@[i] == (mask[i] && i < row));
            assert(forall|i: int| 0 <= i < graph@.len() ==> graph@[i] == (mask[i] && i < row + 0));
            if vertices[vertex_b] {
                assert(forall|i: int| 0 <= i < graph@.len() ==> graph@[i] == (mask[i] && i < row + 0));
                let mut vertex_a: usize = 0;
                while vertex_a < vertex_b
                    invariant
                        vertex_a <= vertex_b < n,
                        n == vertices@.len(),
                        vertices@[vertex_b as int],
                        mask == clique_mask(vertices@),
                        row == triangular(vertex_b as nat),
                        row + vertex_b < triangular(n as nat),
                        graph@.len() == triangular(n as nat),
                        triangular(n as nat) <= MAX_GRAPHE_SIZE,
                        forall|i: int|
                            0 <= i < graph@.len() ==> (#[trigger] graph@[i]) == (mask[i] && i < row
                                + vertex_a),
                    decreases vertex_b - vertex_a,
                {
                    proof {
                        lemma_clique_mask_at(vertices@, vertex_a as nat, vertex_b as nat);
                    }
                    if vertices[vertex_a] {
                        graph.add(vertex_a, vertex_b);
                    }
                    vertex_a += 1;
                }
            }
            proof {
                assert forall|i: int| 0 <= i < graph@.len() implies (#[trigger] graph@[i]) == (
                mask[i] && i < row + vertex_b + 1) by {
                    if i >= row {
                        let a = (i - row) as nat;
                        if a <= vertex_b {
                            lemma_clique_mask_at(vertices@, a, vertex_b as nat);
                        }
                    }
                }
            }
            vertex_b += 1;
        }
        proof {
            assert(graph@ =~= mask);
        }
        graph
    }

    /// Set the color for an edge to blue (0).
    pub fn set_zero(&mut self, index: usize)
        requires
            index < old(self)@.len(),
        ensures
            final(self)@ == old(self)@.update(index as int, false),
    {
        proof {
            use_type_invariant(&*self);
        }
        clear_bit(&mut self.colors, index);
        proof {
            assert(self@ =~= old(self)@.update(index as int, false));
        }
    }

    /// Set the color for an edge to red (1).
    pub fn set_one(&mut self, index: usize)
        requires
            index < old(self)@.len(),
        ensures
            final(self)@ == old(self)@.update(index as int, true),
    {
        proof {
            use_type_invariant(&*self);
        }
        set_bit(&mut self.colors, index);
        proof {
            assert(self@ =~= old(self)@.update(index as int, true));
        }
    }

    /// Get the color for an edge.  1 for red, 0 for blue.
    pub fn get(&self, index: usize) -> (color: bool)
        requires
            index < self@.len(),
        ensures
            color == self@[index as int],
    {
        proof {
            use_type_invariant(self);
        }
        get_bit(&self.colors, index)
    }

    /// Get the number of edges.
    pub fn n_edges(&self) -> (n: usize)
        ensures
            n == self@.len(),
            n <= MAX_GRAPHE_SIZE,
    {
        proof {
            use_type_invariant(self);
        }
        self.edges
    }

    /// Get the number of vertices.
    pub fn n_vertices(&self) -> (n: usize)
        requires
            self.is_complete(),
        ensures
            n == self.vertices(),
            triangular(n as nat) == self@.len(),
    {
        triangle_root(self.edges)
    }

    /// Get the relation between two vertices: the color of the edge between
    /// them, whichever is named first.
    pub fn relation(&self, first: usize, second: usize) -> (color: bool)
        requires
            spec_edge_index(first as nat, second as nat) < self@.len(),
        ensures
            color == self@[spec_edge_index(first as nat, second as nat) as int],
    {
        proof {
            use_type_invariant(self);
        }
        let index = edge_index(first, second);
        self.get(index)
    }

    /// Add an edge between two vertices: color it red.
    pub fn add(&mut self, first: usize, second: usize)
        requires
            spec_edge_index(first as nat, second as nat) < old(self)@.len(),
        ensures
            final(self)@ == old(self)@.update(
                spec_edge_index(first as nat, second as nat) as int,
                true,
            ),
    {
        proof {
            use_type_invariant(&*self);
        }
        let index = edge_index(first, second);
        self.set_one(index);
    }

    /// Find the next variation of the graph: its successor in counting order,
    /// edge 0 least significant. Returns `true` when the graph was the last
    /// variation, the all-red one; the graph is then all blue again.
    pub fn increment(&mut self) -> (exhausted: bool)
        ensures
            final(self)@ == successor(old(self)@),
            exhausted == (first_blue(old(self)@) == old(self)@.len()),
            exhausted == (rank(old(self)@) + 1 == pow2(old(self)@.len())),
            !exhausted ==> rank(final(self)@) == rank(old(self)@) + 1,
            exhausted ==> final(self)@ == all_blue(old(self)@.len()),
    {
        proof {
            use_type_invariant(&*self);
            lemma_rank_successor(self@);
            lemma_rank_bound(successor(self@));
        }
        increment_bits(&mut self.colors, self.edges)
    }

    /// Get all of the possible cliques with `n` vertices on a complete graph of
    /// this size: the mask of each subset of `n` vertices, in lexicographic
    /// order of the subsets.
    pub fn find_possible_cliques(&self, n: usize) -> (masks: Vec<BitString>)
        requires
            self.is_complete(),
        ensures
            masks@.len() == binomial(self.vertices(), n as nat),
            masks@.len() == combinations(self.vertices(), n as nat).len(),
            forall|j: int|
                0 <= j < masks@.len() ==> (#[trigger] masks@[j])@ == padded(
                    clique_mask(combinations(self.vertices(), n as nat)[j]),
                    CAPACITY as nat,
                ),
            forall|j: int|
                0 <= j < masks@.len() ==> count_true((#[trigger] masks@[j])@) == pairs(n as nat),
            n > self.vertices() ==> masks@.len() == 0,
    {
        let m = self.n_vertices();
        let mut returnv: Vec<BitString> = Vec::new();
        proof {
            use_type_invariant(self);
            lemma_binomial_positive(m as nat, n as nat);
            lemma_combinations_len(m as nat, n as nat);
        }
        // There are not enough vertices in the graph to have a clique of this size.
        if n > m {
            return returnv;
        }
        let mut current: Vec<bool> = vec![false; m];
        assert(current@ =~= first_subset(m as nat, 0));
        let mut i: usize = 0;
        while i < n
            invariant
                i <= n <= m,
                current@ == first_subset(m as nat, i as nat),
            decreases n - i,
        {
            proof {
                lemma_first_blue_is(current@, i as nat);
            }
            self::add(&mut current);
            assert(current@ =~= first_subset(m as nat, (i + 1) as nat));
            i += 1;
        }
        // At this point `current` holds the `n` lowest vertices.
        let ghost all = combinations(m as nat, n as nat);
        let ghost mut j: int = 0;
        proof {
            lemma_combinations_first(m as nat, n as nat);
        }
        loop
            invariant_except_break
                0 <= j < all.len(),
                current@ == all[j],
                returnv@.len() == j,
            invariant
                all == combinations(m as nat, n as nat),
                m == self.vertices(),
                triangular(m as nat) <= MAX_GRAPHE_SIZE,
                forall|q: int|
                    0 <= q < returnv@.len() ==> (#[trigger] returnv@[q])@ == padded(
                        clique_mask(all[q]),
                        CAPACITY as nat,
                    ),
            ensures
                returnv@.len() == all.len(),
            decreases all.len() - j,
        {
            proof {
                lemma_combinations_member(m as nat, n as nat, j);
                lemma_combinations_next(m as nat, n as nat, j);
            }
            let graph = Self::from(current.as_slice());
            proof {
                use_type_invariant(graph);
                assert(bits_of(graph.colors@, CAPACITY as nat) =~= padded(
                    graph@,
                    CAPACITY as nat,
                ));
            }
            returnv.push(BitString(graph.colors));
            if next_subset(&mut current) {
                break ;
            }
            proof {
                j = j + 1;
            }
        }
        proof {
            assert forall|q: int| 0 <= q < returnv@.len() implies count_true(
                (#[trigger] returnv@[q])@,
            ) == pairs(n as nat) by {
                lemma_combinations_member(m as nat, n as nat, q);
                lemma_clique_mask_count(all[q]);
                lemma_count_padded(clique_mask(all[q]), CAPACITY as nat);
            }
        }
        returnv
    }

    /// Check for cliques of both colors. The first answer says whether some
    /// mask of `prcs` covers red edges only, the second whether some mask of
    /// `pbcs` covers blue edges only.
    pub fn find_cliques(&self, prcs: &Vec<BitString>, pbcs: &Vec<BitString>) -> (found: (
        bool,
        bool,
    ))
        ensures
            found.0 == exists|j: int| 0 <= j < prcs@.len() && mask_is_red(prcs@[j]@, self@),
            found.1 == exists|j: int| 0 <= j < pbcs@.len() && mask_is_blue(pbcs@[j]@, self@),
    {
        proof {
            use_type_invariant(self);
        }
        let gc = self.colors;

        let mut has_red = false;
        let mut has_blue = false;

        // Check for RED Cliques of size r.
        let mut i: usize = 0;
        while i < prcs.len()
            invariant_except_break
                !has_red,
            invariant
                i <= prcs@.len(),
                gc == self.colors,
                self.edges <= MAX_GRAPHE_SIZE,
                forall|j: int| 0 <= j < i ==> !mask_is_red(prcs@[j]@, self@),
            ensures
                has_red == exists|j: int| 0 <= j < prcs@.len() && mask_is_red(prcs@[j]@, self@),
            decreases prcs.len() - i,
        {
            let pc = &prcs[i];
            let c = simd_and(pc.0, gc, self.edges);
            let all_red = simd_eq(c, pc.0, self.edges);
            proof {
                let mask = prcs@[i as int]@;
                if all_red {
                    assert forall|p: int| 0 <= p < self@.len() && mask[p] implies self@[p] by {
                        assert(bit_at(c@, p) == bit_at(pc.0@, p));
                    }
                }
                if mask_is_red(mask, self@) {
                    assert forall|p: int| 0 <= p < self.edges implies bit_at(c@, p) == bit_at(
                        pc.0@,
                        p,
                    ) by {
                        assert(mask[p] ==> self@[p]);
                    }
                }
            }
            if all_red {
                // We have a RED Clique.
                has_red = true;
                break ;
            }
            i += 1;
        }

        let mut i: usize = 0;
        while i < pbcs.len()
            invariant_except_break
                !has_blue,
            invariant
                i <= pbcs@.len(),
                gc == self.colors,
                self.edges <= MAX_GRAPHE_SIZE,
                forall|j: int| 0 <= j < i ==> !mask_is_blue(pbcs@[j]@, self@),
            ensures
                has_blue == exists|j: int| 0 <= j < pbcs@.len() && mask_is_blue(pbcs@[j]@, self@),
            decreases pbcs.len() - i,
        {
            let pc = &pbcs[i];
            let c = simd_and(pc.0, gc, self.edges);
            let all_blue = simd_is_zero(c, self.edges);
            proof {
                let mask = pbcs@[i as int]@;
                if all_blue {
                    assert forall|p: int| 0 <= p < self@.len() && mask[p] implies !self@[p] by {
                        assert(!bit_at(c@, p));
                    }
                }
                if mask_is_blue(mask, self@) {
                    assert forall|p: int| 0 <= p < self.edges implies !bit_at(c@, p) by {
                        assert(mask[p] ==> !self@[p]);
                    }
                }
            }
            if all_blue {
                // We have a BLUE Clique.
                has_blue = true;
                break ;
            }
            i += 1;
        }

        (has_red, has_blue)
    }
}

} // verus!
