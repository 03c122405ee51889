//! The ways in which an operation of this library can fail.

use vstd::prelude::*;

verus! {

/// Why an operation failed. Every failure ends the operation in which it
/// occurs; nothing is retried and nothing is replaced by a default value.
#[derive(Debug, Clone, Copy, PartialEq, Eq, Structural)]
pub enum ZkError {
    /// A proof was asked of a circuit to which no input was given.
    EmptyCircuit,
    /// An inverse was asked of an element that shares a factor with the
    /// modulus: zero, or a repeated abscissa in an interpolation.
    NonInvertibleElement,
    /// Two field elements of different moduli met in one operation.
    ModulusMismatch,
    /// A constraint tagged with the reserved hash operation was evaluated.
    UnsupportedOperation,
    /// An artifact could not be created or read. This comes from what stores
    /// artifacts; nothing in this library touches a file.
    IoFailure,
    /// An artifact was malformed or truncated. This too comes from what
    /// stores artifacts.
    DeserializationFailure,
    /// A constraint does not hold, or a commitment does not match. The
    /// checks themselves answer with a boolean; this is for callers that
    /// want a failed check as an error.
    ConstraintUnsatisfied,
}

} // verus!
