//! Checksum of journal batches.

use vstd::prelude::*;

verus! {

/// The IEEE CRC-32 checksum of a byte string, as the journal stores it.
/// Its value on given bytes is fixed by the checksum routine alone.
pub uninterp spec fn crc32_of(bytes: Seq<u8>) -> u32;

/// Relies on crc32fast::hash: the IEEE CRC-32 of the buffer, a function of
/// the bytes alone.
#[verifier::external_body]
pub fn crc32(bytes: &Vec<u8>) -> (r: u32)
    ensures
        r == crc32_of(bytes@),
{
    crc32fast::hash(bytes)
}

} // verus!
