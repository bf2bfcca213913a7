//! Checksums.

use vstd::prelude::*;

verus! {

/// The CRC-32 checksum that `crc32fast::hash` computes of some bytes.
pub uninterp spec fn crc32_of(bytes: Seq<u8>) -> u32;

/// `crc32fast::hash`: the CRC-32 checksum of `bytes`, a function of the bytes
/// alone.
#[verifier::external_body]
pub(crate) fn crc32(bytes: &[u8]) -> (crc: u32)
    ensures
        crc == crc32_of(bytes@),
{
    crc32fast::hash(bytes)
}

} // verus!
