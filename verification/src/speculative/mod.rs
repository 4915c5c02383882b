//! Speculative decoding: pruning, tree drafting and verification of drafted tokens.

pub mod context;
pub mod dd_tree;
pub mod pruner;
pub mod sampling;
pub mod verify;
