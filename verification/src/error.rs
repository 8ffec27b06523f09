//! What can go wrong while working with a database.

use vstd::prelude::*;

use crate::protocol::IdNotFoundError;

verus! {

/// Why a text is not a process ID.
#[derive(Copy, Clone, Eq, PartialEq, Debug, Structural)]
pub enum ParsePidError {
    Empty,
    InvalidDigit,
    PosOverflow,
    NegOverflow,
    Zero,
}

/// An error of the database layer.
#[derive(Debug)]
#[allow(inconsistent_fields)]
pub enum Error {
    /// A system call failed, or a file does not hold what it should.
    Io { error: String, context: String },
    /// A lock file does not hold a process ID.
    InvalidPidError { error: ParsePidError, context: String },
    IdNotFound(IdNotFoundError),
}

impl Error {
    /// What to tell the user.
    pub open spec fn spec_message(self) -> Seq<char> {
        match self {
            Error::Io { .. } => "An I/O error occurred."@,
            Error::InvalidPidError { .. } => "Invalid PID."@,
            Error::IdNotFound(_) => "Id not found."@,
        }
    }

    /// What to tell the user.
    pub fn message(&self) -> (message: &'static str)
        ensures
            message@ == self.spec_message(),
    {
        match self {
            Error::Io { .. } => "An I/O error occurred.",
            Error::InvalidPidError { .. } => "Invalid PID.",
            Error::IdNotFound(_) => "Id not found.",
        }
    }
}

} // verus!
