use vstd::prelude::*;

verus! {

/// The two failure kinds of the service core.
///
/// `MalformedInput` reports a payload that lacks a required integer field;
/// `InvalidParameter` reports fuzzy-pipeline parameters on which the
/// computation is undefined (zero or negative half-width).
#[derive(Debug, Clone, Copy, PartialEq, Eq, Structural)]
pub enum FuzzyError {
    MalformedInput,
    InvalidParameter,
}

impl FuzzyError {
    /// A short human-readable description of the error.
    pub fn message(&self) -> (r: &'static str)
        ensures
            self is MalformedInput ==> r@ == "Invalid node format"@,
            self is InvalidParameter ==> r@ == "Invalid fuzzy parameters"@,
    {
        match self {
            FuzzyError::MalformedInput => "Invalid node format",
            FuzzyError::InvalidParameter => "Invalid fuzzy parameters",
        }
    }
}

} // verus!
