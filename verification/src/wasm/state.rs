//! Metadata of a loaded validator.

use vstd::prelude::*;

verus! {

/// What a validator module says of itself by its exports `name` and `version`.
#[derive(Debug)]
pub struct ValidatorState {
    /// Human-readable validator name (e.g., "sudoku", "json", "python").
    pub name: String,
    /// Semantic version triple (major, minor, patch).
    pub version: (u8, u8, u8),
}

impl ValidatorState {
    /// Create a default state with placeholder values.
    ///
    /// Used temporarily during module instantiation before exports are queried.
    pub fn placeholder() -> (s: ValidatorState)
        ensures
            s.name@ == "unknown"@,
            s.version == (0u8, 0u8, 0u8),
    {
        ValidatorState { name: "unknown".to_string(), version: (0, 0, 0) }
    }

    /// Create a new state with the given name and version.
    pub fn new(name: String, version: (u8, u8, u8)) -> (s: ValidatorState)
        ensures
            s.name == name,
            s.version == version,
    {
        ValidatorState { name, version }
    }
}

impl Clone for ValidatorState {
    fn clone(&self) -> (s: ValidatorState)
        ensures
            s.name@ == self.name@,
            s.version == self.version,
    {
        ValidatorState { name: self.name.as_str().to_owned(), version: self.version }
    }
}

impl Default for ValidatorState {
    fn default() -> (s: ValidatorState)
        ensures
            s.name@ == "unknown"@,
            s.version == (0u8, 0u8, 0u8),
    {
        ValidatorState::placeholder()
    }
}

} // verus!
