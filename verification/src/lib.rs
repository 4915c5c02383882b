//! Decision logic of a small speculative-decoding and game-AI toolkit.

pub mod double_bits;
pub mod float_bits;
pub mod gpu;
pub mod percepta;
pub mod pruners;
pub mod random;
pub mod rest;
pub mod router;
pub mod speculative;
pub mod text;
pub mod transformer;
pub mod types;
pub mod wasm;
