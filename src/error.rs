use vstd::prelude::*;

verus! {

/// Errors reported by the distribution engine.
#[derive(Clone, Copy, Debug, PartialEq, Eq, Structural)]
pub enum LlDoiceError {
    /// A probability lies outside `[0, 1]`, or a distribution's total mass is
    /// not within tolerance of one.
    InvalidProbability,
    /// The number of outcomes and the number of masses differ.
    InvalidLength,
    /// The outcomes are not in strictly ascending order.
    UnorderedOutcomes,
}

impl LlDoiceError {
    /// A human-readable description of the error.
    pub fn message(&self) -> (r: &'static str) {
        match self {
            LlDoiceError::InvalidProbability => "Probability must be between 0 and 1.0.",
            LlDoiceError::InvalidLength => "Number of outcomes and probabilities must be equal.",
            LlDoiceError::UnorderedOutcomes => "Outcomes must always be in ascending order.",
        }
    }
}

} // verus!
