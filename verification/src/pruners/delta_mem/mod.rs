//! Associative memory per domain, and when observations are written to it.

pub mod multi;
pub mod pruner;
pub mod state;
