//! A two-dimensional k-d tree over points of the integer lattice.
//!
//! The tree is a flat array of node records built by alternating-axis median
//! splits. Nearest-neighbour search, search inside an axis-aligned square and
//! the extraction of the splitting segments walk that array.

pub mod aabb2;
pub mod kdtree2;
pub mod model;
pub mod sort;
pub mod tree_laws;
pub mod vec2;
pub mod walk_laws;
