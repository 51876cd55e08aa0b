//! Failure taxonomy shared by every component.

use vstd::prelude::*;

verus! {

/// The ways an operation of this library can fail.
#[derive(Clone, Copy, Debug, PartialEq, Eq, Structural)]
pub enum ScanError {
    /// A directory could not be opened or read, or an entry could not be stat'ed.
    IoFailure,
    /// A path handed to the aggregator names no file inside a directory.
    InvalidPath,
    /// A path component is a file where a directory is needed, or the reverse.
    StructuralConflict,
    /// Sending or receiving on an RPC stream failed.
    TransportFailure,
    /// Writing to the persistent store failed.
    PersistenceFailure,
    /// The control request has no handler.
    NotImplemented,
}

impl ScanError {
    /// A short stable label for operator-facing logs.
    pub fn label(&self) -> (s: &'static str)
        ensures
            s@ == Self::label_of(*self),
    {
        match self {
            ScanError::IoFailure => "io failure",
            ScanError::InvalidPath => "invalid path",
            ScanError::StructuralConflict => "structural conflict",
            ScanError::TransportFailure => "transport failure",
            ScanError::PersistenceFailure => "persistence failure",
            ScanError::NotImplemented => "not implemented",
        }
    }

    /// The text of [`ScanError::label`].
    pub open spec fn label_of(e: ScanError) -> Seq<char> {
        match e {
            ScanError::IoFailure => "io failure"@,
            ScanError::InvalidPath => "invalid path"@,
            ScanError::StructuralConflict => "structural conflict"@,
            ScanError::TransportFailure => "transport failure"@,
            ScanError::PersistenceFailure => "persistence failure"@,
            ScanError::NotImplemented => "not implemented"@,
        }
    }
}

} // verus!
