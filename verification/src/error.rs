//! The one error type that every storage operation returns.

use vstd::prelude::*;

verus! {

/// Failure kinds of the storage layer. Every fallible operation of the
/// crate reports exactly one of these.
#[derive(Clone, Copy, Debug, PartialEq, Eq, Structural)]
pub enum VelesError {
    /// An operation was attempted before the store was set up.
    NotInitialized,
    /// An underlying input/output operation failed.
    IOError,
    /// Malformed binary data or a text-encoding failure.
    SerializationError,
    /// A stored record failed its checksum check.
    CorruptedData,
    /// The changeset ledger rejected an operation.
    DBError,
    /// A key, object, task or changeset was looked up and is not there.
    NotFound,
}

impl VelesError {
    /// A human-readable line for this error kind.
    pub fn message(&self) -> &'static str {
        match self {
            VelesError::NotInitialized => "Repository not initialized",
            VelesError::IOError => "IO error",
            VelesError::SerializationError => "Serialization error",
            VelesError::CorruptedData => "CRC check failed",
            VelesError::DBError => "DB Error",
            VelesError::NotFound => "Data not found",
        }
    }
}

} // verus!
