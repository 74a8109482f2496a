//! Heuristics for the feedback arc set problem.

pub mod divide_and_conquer_by_order_heuristic;
pub mod ordering_model;
pub mod tournament;
