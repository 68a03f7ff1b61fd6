//! The two outside digests: BLAKE3 identities and CRC-32 checksums.

use vstd::prelude::*;

verus! {

/// The BLAKE3 digest of a byte string, as `blake3::hash` computes it.
pub uninterp spec fn blake3_digest(bytes: Seq<u8>) -> Seq<u8>;

/// The CRC-32 (IEEE) checksum of a byte string, as `crc32fast::hash` computes it.
pub uninterp spec fn crc32_of(bytes: Seq<u8>) -> u32;

/// `blake3::hash`: the default 32-byte digest, a function of the input alone.
#[verifier::external_body]
pub(crate) fn blake3_hash(bytes: &[u8]) -> (r: [u8; 32])
    ensures
        r@ == blake3_digest(bytes@),
{
    blake3::hash(bytes).into()
}

/// `crc32fast::hash`: the checksum of the whole slice, a function of the input alone.
#[verifier::external_body]
pub(crate) fn crc32(bytes: &[u8]) -> (r: u32)
    ensures
        r == crc32_of(bytes@),
{
    crc32fast::hash(bytes)
}

} // verus!
