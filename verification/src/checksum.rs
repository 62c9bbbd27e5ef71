//! The CRC-32 checksum that guards every on-disk unit.

use vstd::prelude::*;

verus! {

/// The CRC-32 (IEEE) checksum of `data`.
pub uninterp spec fn crc32(data: Seq<u8>) -> u32;

/// Calls `crc32fast::hash`. The checksum it returns is a function of the bytes
/// alone, named [`crc32`]; nothing else is claimed of it, in particular not
/// that two different byte strings have different checksums.
#[verifier::external_body]
pub(crate) fn crc32_of(data: &[u8]) -> (c: u32)
    ensures
        c == crc32(data@),
{
    crc32fast::hash(data)
}

} // verus!
