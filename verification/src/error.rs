//! What can go wrong in the storage engine.

use vstd::prelude::*;

verus! {

/// An operating-system error, carried through unchanged.
#[verifier::external_type_specification]
#[verifier::external_body]
pub struct ExIoError(std::io::Error);

#[derive(Debug)]
pub enum StorageError {
    /// The operating system refused a read or a write.
    Io(std::io::Error),
    /// A record does not have the layout that its operation calls for.
    Corrupt(String),
    /// A stored checksum differs from the one computed over the stored bytes.
    ChecksumMismatch { expected: u32, actual: u32 },
    /// A value could not be turned into bytes or back.
    Serde(String),
}

impl From<std::io::Error> for StorageError {
    fn from(error: std::io::Error) -> (r: StorageError) {
        StorageError::Io(error)
    }
}

impl vstd::std_specs::convert::FromSpecImpl<std::io::Error> for StorageError {
    open spec fn obeys_from_spec() -> bool {
        true
    }

    open spec fn from_spec(error: std::io::Error) -> StorageError {
        StorageError::Io(error)
    }
}

} // verus!
