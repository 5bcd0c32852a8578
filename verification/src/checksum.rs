//! The record checksum: CRC-32 (IEEE 802.3 polynomial) over a record's
//! key and value bytes, computed by the `crc` crate.

use vstd::prelude::*;

verus! {

/// The CRC-32/IEEE digest of a byte sequence. The digest is a pure
/// function of the bytes; its value is otherwise left unspecified here,
/// so nothing in the library's proofs depends on the polynomial itself.
pub uninterp spec fn crc32_of(data: Seq<u8>) -> u32;

/// Relies on crc's `crc32::checksum_ieee`: the CRC-32/IEEE digest of the
/// given bytes, a function of the bytes alone.
#[verifier::external_body]
pub(crate) fn crc32_ieee(data: &[u8]) -> (r: u32)
    ensures
        r == crc32_of(data@),
{
    crc::crc32::checksum_ieee(data)
}

} // verus!
