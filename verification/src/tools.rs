//! Cycle detection and the exchange format.

pub mod cycle;
pub mod metis;
pub mod metis_format;
