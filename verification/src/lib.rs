//! Site percolation on a square lattice, tracked incrementally with a
//! disjoint-set forest.
//!
//! [`PercolationEngine`] opens sites and answers whether the lattice
//! percolates; [`Grid`] and [`UnionFind`] are the two structures it is built
//! from; `lattice` holds the mathematical model that all three are specified
//! against.

pub mod engine;
pub mod error;
pub mod grid;
pub mod lattice;
pub mod union_find;
pub mod universe;

pub use engine::PercolationEngine;
pub use error::PercolationError;
pub use grid::Grid;
pub use union_find::UnionFind;
pub use universe::{GridPoint, Universe};
