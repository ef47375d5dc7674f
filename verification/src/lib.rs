//! All-pairs shortest paths on undirected, non-negatively weighted graphs,
//! computed with the Floyd-Warshall algorithm.
//!
//! The distance and path state for every unordered node pair is kept in a
//! triangular-packed symmetric matrix ([`PathMatrix`]), which stores one slot
//! per pair `(i, j)` with `i <= j`. The engine ([`floyd_warshall`]) seeds the
//! matrix with the direct edges and then relaxes every pair through every
//! intermediate node, rebuilding the recorded path whenever a shorter route
//! is found; its contract ties every slot of the result to the mathematical
//! recurrence in [`engine`], and [`laws`] proves the properties of that
//! recurrence: symmetry, the triangle inequality, path-length consistency
//! and monotonicity under edge insertion.

pub mod engine;
pub mod graph;
pub mod laws;
pub mod matrices;

pub use engine::floyd_warshall;
pub use graph::Edge;
pub use matrices::Path;
pub use matrices::PathMatrix;
