//! Validator modules.

pub mod state;
