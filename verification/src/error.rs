//! The failures a store operation can report.

use vstd::prelude::*;

verus! {

/// Why an operation on the store failed.
#[derive(Clone, Copy, Debug, PartialEq, Eq, Structural)]
pub enum Error {
    /// The key has no live entry.
    NotFound,
    /// A segment could not be created or extended.
    Io,
    /// A record that is fully present fails its integrity check: the id of
    /// its segment, and the offset at which it starts.
    Corruption { segment: usize, offset: usize },
    /// The directory is already open for writing.
    AlreadyLocked,
    /// The handle is closed, or is read-only and the operation writes.
    InvalidState,
}

impl Error {
    /// A short description of the failure.
    pub fn message(&self) -> (text: &'static str)
        ensures
            text@ == (match *self {
                Error::NotFound => "Key-Value not found"@,
                Error::Io => "segment file could not be created or written"@,
                Error::Corruption { .. } => "record checksum mismatch"@,
                Error::AlreadyLocked => "directory is already open for writing"@,
                Error::InvalidState => "operation not available on this handle"@,
            }),
    {
        match self {
            Error::NotFound => "Key-Value not found",
            Error::Io => "segment file could not be created or written",
            Error::Corruption { .. } => "record checksum mismatch",
            Error::AlreadyLocked => "directory is already open for writing",
            Error::InvalidState => "operation not available on this handle",
        }
    }
}

} // verus!
