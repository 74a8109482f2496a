//! Vertex orderings.

pub mod topological_sort;
