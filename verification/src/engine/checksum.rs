use vstd::prelude::*;

verus! {

/// The CRC-32 (IEEE polynomial) checksum of a byte string, as the `crc32fast`
/// crate computes it.
pub uninterp spec fn crc32_of(data: Seq<u8>) -> u32;

/// Calls `crc32fast::hash`, which runs a fresh `crc32fast::Hasher` over `data`
/// and returns its final state. Claimed: the result is `crc32_of(data@)`, a
/// function of the bytes alone (the crate's table-driven and SIMD paths compute
/// the same checksum).
#[verifier::external_body]
pub(crate) fn crc32(data: &[u8]) -> (r: u32)
    ensures
        r == crc32_of(data@),
{
    crc32fast::hash(data)
}

} // verus!
