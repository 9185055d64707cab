//! The checksum that guards each log record.

use vstd::prelude::*;

verus! {

/// The CRC-32 (IEEE) checksum of a byte string.
pub uninterp spec fn crc32_of(data: Seq<u8>) -> u32;

/// `crc32fast::hash` computes the CRC-32 checksum of the whole slice. The
/// contract claims only that the result is a function of the bytes: the crate
/// picks an implementation by processor, and all of them compute the same value.
pub assume_specification[ crc32fast::hash ](buf: &[u8]) -> (crc: u32)
    ensures
        crc == crc32_of(buf@),
;

} // verus!
