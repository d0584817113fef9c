//! The error kinds a proof session can end with.

use vstd::prelude::*;

verus! {

/// Every failure the bridge, the witness evaluator, the artifact codec or
/// the proof driver can surface. Nothing is retried: each of these ends
/// the session it arose in.
#[derive(Debug)]
pub enum BridgeError {
    /// An artifact's codec version is not the one this crate writes.
    IncompatibleArtifact,
    /// An artifact's field modulus is not the scheme's modulus.
    FieldMismatch,
    /// A stage declared an input name that an earlier stage already owns.
    DuplicateInput,
    /// A stage evaluation lacked a declared input.
    MissingInput,
    /// A stage input carried a value of the wrong sort.
    SortMismatch,
    /// An operation was applied outside its domain.
    EvalDomainError,
    /// The witness computation left a constraint variable without a value.
    MissingWitnessValue,
    /// The assignment does not satisfy the constraint system.
    UnsatisfiableInstance,
    /// The constraint system has no constraints.
    EmptyConstraintSystem,
    /// The proof does not verify against the instance and inputs.
    InvalidProof,
}

impl BridgeError {
    /// A short, stable name for the error kind.
    pub fn kind(&self) -> (r: &'static str)
    {
        match self {
            BridgeError::IncompatibleArtifact => "incompatible artifact",
            BridgeError::FieldMismatch => "field mismatch",
            BridgeError::DuplicateInput => "duplicate input",
            BridgeError::MissingInput => "missing input",
            BridgeError::SortMismatch => "sort mismatch",
            BridgeError::EvalDomainError => "evaluation domain error",
            BridgeError::MissingWitnessValue => "missing witness value",
            BridgeError::UnsatisfiableInstance => "unsatisfiable instance",
            BridgeError::EmptyConstraintSystem => "empty constraint system",
            BridgeError::InvalidProof => "invalid proof",
        }
    }
}

} // verus!
