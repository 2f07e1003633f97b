//! Monochromatic cliques grown vertex by vertex.

use vstd::prelude::*;
use crate::graphe::GraphE;
use crate::math::{lemma_triangular_monotonic, lemma_triangular_step, spec_edge_index, triangular};

verus! {

/// A monochromatic clique.
pub struct Clique {
    color: bool,
    vertices: Vec<usize>,
}

impl Clique {
    /// The color of the clique's edges, `true` for red.
    pub closed spec fn spec_color(&self) -> bool {
        self.color
    }

    /// The vertices of the clique, in the order in which they joined.
    pub closed spec fn spec_vertices(&self) -> Seq<usize> {
        self.vertices@
    }

    /// The clique of one edge, between `first` and `second`.
    pub fn new(color: bool, first: usize, second: usize) -> (clique: Clique)
        ensures
            clique.spec_color() == color,
            clique.spec_vertices() == seq![first, second],
    {
        let mut vertices: Vec<usize> = Vec::new();
        vertices.push(first);
        vertices.push(second);
        assert(vertices@ =~= seq![first, second]);
        Clique { color, vertices }
    }
}

/// The size of the largest clique of one color, 0 where there is none.
pub open spec fn largest_clique(cliques: Seq<Clique>, color: bool) -> nat
    decreases cliques.len(),
{
    if cliques.len() == 0 {
        0
    } else {
        let rest = largest_clique(cliques.drop_last(), color);
        let last = cliques.last();
        if last.spec_color() == color && last.spec_vertices().len() > rest {
            last.spec_vertices().len()
        } else {
            rest
        }
    }
}

/// A representation of all of the monochromatic cliques in a graph.
pub struct RamseyCliques {
    cliques: Vec<Clique>,
}

impl View for RamseyCliques {
    type V = Seq<Clique>;

    closed spec fn view(&self) -> Seq<Clique> {
        self.cliques@
    }
}

impl RamseyCliques {
    /// The edge from `vertex` to every vertex of every clique has a slot in
    /// `graphe`.
    pub open spec fn reaches(&self, graphe: &GraphE, vertex: usize) -> bool {
        forall|i: int, j: int|
            0 <= i < self@.len() && 0 <= j < self@[i].spec_vertices().len() ==> spec_edge_index(
                vertex as nat,
                (#[trigger] self@[i].spec_vertices()[j]) as nat,
            ) < graphe@.len()
    }

    /// Create a new instance of a RamseyCliques collection.
    pub fn new(orig_clique: Clique) -> (rc: RamseyCliques)
        ensures
            rc@ == seq![orig_clique],
    {
        let mut cliques: Vec<Clique> = Vec::new();
        cliques.push(orig_clique);
        assert(cliques@ =~= seq![orig_clique]);
        RamseyCliques { cliques }
    }

    /// Look for the clique that a new vertex belongs to: the first one whose
    /// vertices are all joined to it by edges of the clique's color. The
    /// collection itself stays as it is.
    pub fn push(&mut self, graphe: &GraphE, new_vertex: usize)
        requires
            old(self).reaches(graphe, new_vertex),
        ensures
            final(self)@ == old(self)@,
    {
        // Cycle through the cliques.
        let mut i: usize = 0;
        while i < self.cliques.len()
            invariant
                self@ == old(self)@,
                self.reaches(graphe, new_vertex),
            decreases self.cliques.len() - i,
        {
            let clique = &self.cliques[i];
            // Cycle through the vertices in the clique.  All vertices must be connected with the
            // same color to the new vertex.
            let mut belongs = true;
            let mut j: usize = 0;
            while j < clique.vertices.len()
                invariant
                    0 <= i < self@.len(),
                    *clique == self@[i as int],
                    self.reaches(graphe, new_vertex),
                decreases clique.vertices.len() - j,
            {
                assert(clique.vertices@[j as int] == self@[i as int].spec_vertices()[j as int]);
                if graphe.relation(new_vertex, clique.vertices[j]) != clique.color {
                    belongs = false;
                    break ;
                }
                j += 1;
            }
            if belongs {
                break ;
            }
            i += 1;
        }
    }

    /// Find the number of vertices of the two largest monochromatic cliques in the `RamseyCliques`
    /// struct: the largest blue one first, then the largest red one.
    pub fn ramsey_max_cliques(&mut self) -> (sizes: (usize, usize))
        ensures
            sizes.0 == largest_clique(old(self)@, false),
            sizes.1 == largest_clique(old(self)@, true),
            final(self)@ == old(self)@,
    {
        let mut max_one: usize = 0;
        let mut max_zero: usize = 0;

        let mut i: usize = 0;
        while i < self.cliques.len()
            invariant
                i <= self@.len(),
                self@ == old(self)@,
                max_zero == largest_clique(self@.take(i as int), false),
                max_one == largest_clique(self@.take(i as int), true),
            decreases self.cliques.len() - i,
        {
            let clique = &self.cliques[i];
            let color = clique.color;
            let n_vertices = clique.vertices.len();
            proof {
                assert(self@.take(i + 1).drop_last() =~= self@.take(i as int));
            }
            if color {
                if n_vertices > max_one {
                    max_one = n_vertices;
                }
            } else {
                if n_vertices > max_zero {
                    max_zero = n_vertices;
                }
            }
            i += 1;
        }
        proof {
            assert(self@.take(i as int) =~= self@);
        }
        (max_zero, max_one)
    }
}

/// Find the 2 largest monochromatic cliques in a GraphE that are different colors: the size of
/// the blue one, then the size of the red one. The search starts from the clique of the edge
/// between vertices 0 and 1 and offers it every further vertex.
pub fn ramsey_cliques_graphe(graphe: &GraphE) -> (sizes: (usize, usize))
    requires
        graphe.is_complete(),
        graphe.vertices() >= 2,
    ensures
        sizes == if graphe@[spec_edge_index(0, 1) as int] {
            (0usize, 2usize)
        } else {
            (2usize, 0usize)
        },
{
    let n = graphe.n_vertices();
    proof {
        lemma_triangular_step(0);
        lemma_triangular_step(1);
        lemma_triangular_monotonic(2, n as nat);
    }

    // Loop through all of the vertices, starting with first edge already added to the clique.
    let orig_color = graphe.relation(0, 1);
    let mut rc = RamseyCliques::new(Clique::new(orig_color, 0, 1));
    let ghost start = rc@;
    proof {
        reveal_with_fuel(largest_clique, 2);
        assert(start.drop_last() =~= Seq::<Clique>::empty());
        assert(largest_clique(start, orig_color) == 2);
        assert(largest_clique(start, !orig_color) == 0);
    }

    // Cycle through each vertex in the graph adding it to it's respective clique.
    let mut i: usize = 1;
    while i < n
        invariant
            1 <= i,
            n >= 2,
            n == graphe.vertices(),
            triangular(n as nat) == graphe@.len(),
            rc@ == start,
            start.len() == 1,
            start[0].spec_vertices() == seq![0usize, 1usize],
        decreases n - i,
    {
        proof {
            lemma_triangular_step(i as nat);
            lemma_triangular_monotonic((i + 1) as nat, n as nat);
        }
        rc.push(graphe, i);
        i += 1;
    }

    rc.ramsey_max_cliques()
}

} // verus!
