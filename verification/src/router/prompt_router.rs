//! Prompt router trait — classify a prompt into a domain.

use vstd::prelude::*;

use crate::router::types::RouteDecision;

verus! {

/// Classifies a prompt into a domain, returning a routing decision.
///
/// It is called once per request.
pub trait PromptRouter {
    /// Route a prompt to the best-matching domain.
    fn route(&self, prompt: &str) -> (d: RouteDecision);
}

} // verus!
