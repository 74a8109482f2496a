//! The directed-graph store and its mathematical model.

pub mod hash_table;
pub mod model;
pub mod properties;
pub mod sequences;
