//! The greedy heuristics.

pub mod degree_difference;
pub mod greedy_heuristic;
