//! The red/blue complete graph by its edges alone: a coloring of a given
//! number of edges with no vertices read into it.

use vstd::prelude::*;
use vstd::arithmetic::power2::pow2;
use crate::bits::{bit_at, bits_of, clear_bit, get_bit, lemma_zero_words, set_bit, CAPACITY};
use crate::counting::{
    all_blue, first_blue, increment_bits, lemma_rank_bound, lemma_rank_successor, rank, successor,
};

verus! {

/// The maximum number of edges.
pub const MAX_KGRAPHRBE_SIZE: usize = 64 * 32;

/// A complete graph colored with red and blue edges.
#[derive(Clone, Copy)]
pub struct KGraphRBE {
    // Number of edges in the graph.
    edges: usize,
    // Bitstring of edge colors.
    colors: [u64; 32],
}

impl View for KGraphRBE {
    type V = Seq<bool>;

    /// The coloring: one boolean for each edge, `true` for red.
    closed spec fn view(&self) -> Seq<bool> {
        bits_of(self.colors@, self.edges as nat)
    }
}

impl KGraphRBE {
    /// No more edges than there is room for, and no bit set behind the last
    /// edge.
    #[verifier::type_invariant]
    spec fn well_formed(self) -> bool {
        &&& self.edges <= MAX_KGRAPHRBE_SIZE
        &&& forall|i: int| self.edges <= i < CAPACITY ==> !bit_at(self.colors@, i)
    }

    /// Create a new Red/Blue complete graph, with every edge blue.
    pub fn new(edges: usize) -> (g: Self)
        requires
            edges <= MAX_KGRAPHRBE_SIZE,
        ensures
            g@ == all_blue(edges as nat),
    {
        let colors: [u64; 32] = [0; 32];
        proof {
            assert forall|i: int| 0 <= i < CAPACITY implies !bit_at(colors@, i) by {
                lemma_zero_words(colors@, i);
            }
            assert(bits_of(colors@, edges as nat) =~= all_blue(edges as nat));
        }
        KGraphRBE { edges, colors }
    }

    /// Set the color for an edge to blue (0).
    pub fn setb(&mut self, index: usize)
        requires
            index < old(self)@.len(),
        ensures
            final(self)@ == old(self)@.update(index as int, false),
    {
        proof {
            use_type_invariant(&*self);
        }
        clear_bit(&mut self.colors, index);
        proof {
            assert(self@ =~= old(self)@.update(index as int, false));
        }
    }

    /// Set the color for an edge to red (1).
    pub fn setr(&mut self, index: usize)
        requires
            index < old(self)@.len(),
        ensures
            final(self)@ == old(self)@.update(index as int, true),
    {
        proof {
            use_type_invariant(&*self);
        }
        set_bit(&mut self.colors, index);
        proof {
            assert(self@ =~= old(self)@.update(index as int, true));
        }
    }

    /// Get the color for an edge.  1 for red, 0 for blue.
    pub fn get(&self, index: usize) -> (color: bool)
        requires
            index < self@.len(),
        ensures
            color == self@[index as int],
    {
        proof {
            use_type_invariant(self);
        }
        get_bit(&self.colors, index)
    }

    /// Get the number of edges.
    pub fn n_edges(&self) -> (n: usize)
        ensures
            n == self@.len(),
            n <= MAX_KGRAPHRBE_SIZE,
    {
        proof {
            use_type_invariant(self);
        }
        self.edges
    }

    /// Step to the next coloring in counting order, edge 0 least significant.
    /// Returns `true` when the coloring was the last one, the all-red one; the
    /// graph is then all blue again.
    pub fn increment(&mut self) -> (exhausted: bool)
        ensures
            final(self)@ == successor(old(self)@),
            exhausted == (first_blue(old(self)@) == old(self)@.len()),
            exhausted == (rank(old(self)@) + 1 == pow2(old(self)@.len())),
            !exhausted ==> rank(final(self)@) == rank(old(self)@) + 1,
            exhausted ==> final(self)@ == all_blue(old(self)@.len()),
    {
        proof {
            use_type_invariant(&*self);
            lemma_rank_successor(self@);
            lemma_rank_bound(successor(self@));
        }
        increment_bits(&mut self.colors, self.edges)
    }
}

} // verus!
