//! Perfect-maze generation by randomised Kruskal over a disjoint-set forest.
//!
//! The `grid` module holds the lattice and its candidate walls, the `maze`
//! module the union-find engine and the single-step operation, and `laws`
//! the properties that whole runs of the engine satisfy.

pub mod forest;
pub mod grid;
pub mod laws;
pub mod maze;

pub use forest::Node;
pub use grid::{Direction, Edge};
pub use maze::{ExhaustedError, Maze};
