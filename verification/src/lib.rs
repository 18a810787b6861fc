//! Sparse undirected multigraphs, path searches on them, and the assembly of
//! a tree through a sequence of marked vertices.

pub mod sampling;
pub mod graph;
pub mod walk;
pub mod chain;
pub mod path;
pub mod backtrack;
pub mod fixed;
pub mod yen;
pub mod tree;
