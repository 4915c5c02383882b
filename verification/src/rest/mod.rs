//! Retrieval over REST: requests, responses, and what is read out of them.

pub mod client;
pub mod types;
