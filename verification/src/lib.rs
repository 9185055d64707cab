//! The storage engine underneath Chronicle: a checksummed write-ahead log, a
//! sorted in-memory table and a Bloom filter for negative lookups.
//!
//! Every function here works on plain values. Files, locks and floating-point
//! sizing live in the application layer, which calls into this library.

pub mod bloom;
pub mod checksum;
pub mod codec;
pub mod error;
pub mod memtable;
pub mod read;
pub mod record;
pub mod replay;
pub mod wal;

pub use crate::error::StorageError;
pub use crate::memtable::MemValue;
pub use crate::wal::{WalRecord, WriteAheadLog};
