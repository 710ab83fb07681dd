//! Error kinds reported by the protocol core.

use vstd::prelude::*;

verus! {

/// Why an operation of the protocol core failed.
#[derive(Clone, Copy, Debug, PartialEq, Eq, Structural)]
pub enum Error {
    /// The underlying channel failed while reading or writing.
    Transport,
    /// A byte string does not decode to field elements.
    Serialization,
    /// The expanded correlation is shorter than the requested length.
    VoleInsufficient,
    /// The cuckoo graph yields more constraints than the right part has cells.
    SolverTooManyConstraints,
    /// The constraint system could not be solved.
    SolverNoSolution,
    /// Two lengths that must agree do not.
    InvariantViolation,
    /// The caller used a role in a way the protocol forbids.
    ProtocolMisuse,
}

impl Error {
    /// Short fixed description of the error kind.
    pub fn message(&self) -> (s: &'static str)
        ensures
            s@ == error_text(*self),
    {
        match self {
            Error::Transport => "transport failure",
            Error::Serialization => "bytes do not decode to field elements",
            Error::VoleInsufficient => "correlation shorter than requested",
            Error::SolverTooManyConstraints => "too many constraints",
            Error::SolverNoSolution => "failed to solve linear equations",
            Error::InvariantViolation => "length mismatch",
            Error::ProtocolMisuse => "protocol misuse",
        }
    }
}

/// The text that [`Error::message`] returns for each kind.
pub open spec fn error_text(e: Error) -> Seq<char> {
    match e {
        Error::Transport => "transport failure"@,
        Error::Serialization => "bytes do not decode to field elements"@,
        Error::VoleInsufficient => "correlation shorter than requested"@,
        Error::SolverTooManyConstraints => "too many constraints"@,
        Error::SolverNoSolution => "failed to solve linear equations"@,
        Error::InvariantViolation => "length mismatch"@,
        Error::ProtocolMisuse => "protocol misuse"@,
    }
}

} // verus!
