//! Exhaustive search for Ramsey numbers `R(r, s)` over bit-packed two-colorings
//! of complete graphs.
//!
//! The crate is organised leaves first:
//! * [`math`]: triangular numbers and the edge index built on them,
//! * [`bits`]: the fixed-capacity bit set that holds a coloring or a mask,
//! * [`simd`]: whole-bitset AND, equality and zero tests,
//! * [`counting`]: colorings in counting order,
//! * [`subsets`]: vertex subsets of a fixed size in lexicographic order,
//! * [`graphe`]: the colored complete graph, its enumeration and its clique masks,
//! * [`ramsey`]: the search driver,
//! * [`kgraphrbe`], [`cliques`], [`brute_force`]: the edge-only graph, cliques
//!   grown vertex by vertex, and the sweep over all colorings of one size.

pub mod bits;
pub mod brute_force;
pub mod cliques;
pub mod counting;
pub mod graphe;
pub mod kgraphrbe;
pub mod math;
pub mod ramsey;
pub mod simd;
pub mod subsets;

pub use brute_force::{brute_force_edges, calculate};
pub use cliques::ramsey_cliques_graphe;
pub use graphe::{BitString, GraphE, MAX_GRAPHE_SIZE};
pub use kgraphrbe::{KGraphRBE, MAX_KGRAPHRBE_SIZE};
pub use math::{edge_index, edge_vertices, is_triangular, triangle_num, triangle_root};
pub use ramsey::{ramsey, RamseyError, MAX_VERTICES};
pub use simd::{simd_and, simd_and_fallback, simd_eq, simd_eq_fallback, simd_is_zero};
