//! Routing prompts to domains, and embeddings to the model's dimension.

pub mod projector;
pub mod prompt_router;
pub mod types;
