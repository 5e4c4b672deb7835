//! SHA-256, the hash that keys and blocks are addressed by.

use vstd::prelude::*;

verus! {

/// The multihash code of SHA-256.
pub const SHA2_256_CODE: u64 = 0x12;

/// The length of a SHA-256 digest in bytes.
pub const DIGEST_LEN: usize = 32;

/// The SHA-256 digest of a byte string.
pub uninterp spec fn spec_sha2_256(data: Seq<u8>) -> Seq<u8>;

/// Hashes `data` with `multihash::Code::Sha2_256` and returns the bare digest.
///
/// Trusted: the digest is a function of the input alone, named `spec_sha2_256`, and the code
/// table fixes its length at 32 bytes.
#[verifier::external_body]
pub(crate) fn sha2_256_digest(data: &[u8]) -> (digest: Vec<u8>)
    ensures
        digest@ == spec_sha2_256(data@),
        digest@.len() == DIGEST_LEN,
{
    multihash::MultihashDigest::digest(&multihash::Code::Sha2_256, data).digest().to_vec()
}

/// The SHA-256 digest of `data`.
pub fn sha2_256(data: &[u8]) -> (digest: Vec<u8>)
    ensures
        digest@ == spec_sha2_256(data@),
        digest@.len() == DIGEST_LEN,
{
    sha2_256_digest(data)
}

} // verus!
