//! Router types for config-driven domain routing.

use vstd::prelude::*;

verus! {

/// Result of routing a prompt to a domain.
#[derive(Clone, Debug)]
pub struct RouteDecision {
    /// The matched domain name (e.g., `"sudoku"`, `"rust_code"`, `"general"`).
    pub domain: String,
    /// Bit pattern of the heuristic confidence in `[0.0, 1.0]`. Higher is better.
    pub confidence: u32,
    /// Optional LoRA adapter path associated with the domain.
    pub lora_path: Option<String>,
    /// Optional WASM pruner path associated with the domain.
    pub pruner_path: Option<String>,
}

/// A loadable expert bundle: a pruner and an optional LoRA adapter path.
#[derive(Debug)]
pub struct ExpertBundle<P> {
    /// Domain name this bundle belongs to.
    pub domain: String,
    /// The pruner used to score token relevance.
    pub pruner: P,
    /// Path to a LoRA adapter file.
    pub lora_path: Option<String>,
}

/// A single domain definition.
#[derive(Clone, Debug)]
pub struct DomainConfig {
    /// Unique domain name (used as registry key).
    pub name: String,
    /// Keywords used for scoring.
    pub keywords: Vec<String>,
    /// Path to a WASM pruner file (relative to pruner directory).
    pub pruner: Option<String>,
    /// Path to a LoRA adapter file (relative to pruner directory).
    pub lora: Option<String>,
    /// Name of a built-in native pruner: `"sudoku"`, `"tactical"`, `"no_pruner"`.
    pub native_pruner: Option<String>,
}

/// Top-level router configuration.
#[derive(Clone, Debug)]
pub struct RouterConfig {
    /// All domain definitions.
    pub domain: Vec<DomainConfig>,
}

} // verus!
