//! CRC-32 checksums of frames and blocks.
use vstd::prelude::*;

verus! {

/// The CRC-32 (IEEE polynomial) of a byte string.
pub uninterp spec fn crc32_ieee(data: Seq<u8>) -> u32;

/// Relies on `crc::crc32::checksum_ieee`: the IEEE CRC-32 of the bytes, which
/// depends on the bytes alone.
#[verifier::external_body]
pub(crate) fn checksum_ieee(data: &[u8]) -> (r: u32)
    ensures
        r == crc32_ieee(data@),
{
    crc::crc32::checksum_ieee(data)
}

} // verus!
