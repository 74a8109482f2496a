//! Feedback arc sets of directed graphs.
//!
//! A feedback arc set is a set of edges whose removal leaves a directed graph
//! without cycles. The crate offers an adjacency-list graph store, an exact
//! cycle detector, an ordering of the vertices by indegree, a reader for
//! graph descriptions, and heuristics that select a small feedback arc set:
//! the divide-and-conquer ordering of Eades, Smyth and Lin, the greedy
//! ordering by degree difference, and the greedy selection that `petgraph`
//! computes. Every function carries a contract over the mathematical model
//! in [`graph::model`].

pub mod algo;
pub mod fas;
pub mod graph;
pub mod ordering;
pub mod tools;
