//! Max-plus (tropical) algebra for graph operations: tropical matrix powers
//! and Kleene stars, all-pairs and single-source path weights, the maximum
//! cycle mean (tropical eigenvalue) by Karp's method, and tropical polyhedra.
//!
//! Weights are exact integers; the additive identity of the semiring is -∞.

pub mod semiring;
pub mod matrix;
pub mod paths;
pub mod eigen;
pub mod polyhedron;
pub mod walks;
pub mod karp;
pub mod bounds;

pub use semiring::TropicalSemiring;
pub use matrix::{tropical_matrix_add, TropicalMatrix};
pub use paths::TropicalShortestPath;
pub use eigen::{CycleMean, TropicalEigenvalue};
pub use polyhedron::{TropicalHalfspace, TropicalPolyhedron};
