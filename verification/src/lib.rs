//! An in-memory directed-graph engine: a graph store with weighted,
//! possibly-parallel edges, a depth-first traversal that classifies every
//! edge relative to its discovery forest, and a single-source shortest-path
//! solver (Bellman-Ford relaxation) over an extended-real distance domain.

pub mod bellman;
pub mod dfs;
pub mod edge;
pub mod graph;
pub mod infinity;
pub mod vertice;

pub use edge::Edge;
pub use graph::DiGraph;
pub use infinity::Infinity;
pub use vertice::Vertice;
