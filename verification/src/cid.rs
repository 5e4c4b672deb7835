//! Content identifiers: version 1, codec dag-cbor, multihash SHA-256.

use vstd::prelude::*;
use crate::hash::{sha2_256, spec_sha2_256, DIGEST_LEN, SHA2_256_CODE};

verus! {

/// The multicodec code of dag-cbor.
pub const DAG_CBOR_CODE: u64 = 0x71;

/// The length of a content identifier in its binary form.
pub const CID_LEN: usize = 36;

/// The binary form of the identifier with the given digest: version, codec, hash code and
/// digest length, each one byte, then the digest.
pub open spec fn spec_cid_bytes(digest: Seq<u8>) -> Seq<u8> {
    seq![1u8, 0x71u8, 0x12u8, 0x20u8] + digest
}

/// The identifier of a block: the SHA-256 digest of its bytes.
pub open spec fn spec_block_cid(block: Seq<u8>) -> Seq<u8> {
    spec_sha2_256(block)
}

/// The text form of the version 1 identifier with the given codec, hash code and digest: its
/// binary form in multibase, base 32 with lower-case letters.
pub uninterp spec fn spec_cid_text(codec: u64, hash: u64, digest: Seq<u8>) -> Seq<char>;

/// The binary form of the version 1 identifier with the given codec, hash code and digest,
/// from `cid::Cid::new_v1` and `cid::Cid::to_bytes`.
///
/// Trusted: the crate writes version, codec, hash code and digest length as varints, each of
/// which is the number itself in one byte where the number is below 128, and then the
/// digest.
#[verifier::external_body]
fn cid_v1_bytes(codec: u64, hash: u64, digest: &[u8]) -> (bytes: Vec<u8>)
    requires
        codec < 128,
        hash < 128,
        digest@.len() <= 64,
    ensures
        bytes@ == seq![1u8, codec as u8, hash as u8, digest@.len() as u8] + digest@,
{
    match multihash::Multihash::wrap(hash, digest) {
        Ok(hash) => cid::Cid::new_v1(codec, hash).to_bytes(),
        Err(_) => Vec::new(),
    }
}

/// The text form of the version 1 identifier with the given codec, hash code and digest,
/// from the `Display` of `cid::Cid`.
///
/// Trusted: the text is a function of codec, hash code and digest alone, named
/// `spec_cid_text`.
#[verifier::external_body]
fn cid_v1_text(codec: u64, hash: u64, digest: &[u8]) -> (text: String)
    requires
        digest@.len() <= 64,
    ensures
        text@ == spec_cid_text(codec, hash, digest@),
{
    match multihash::Multihash::wrap(hash, digest) {
        Ok(hash) => cid::Cid::new_v1(codec, hash).to_string(),
        Err(_) => String::new(),
    }
}

/// A content identifier. Version, codec and hash are fixed, so it is known by its digest.
#[derive(Debug, Ord, Hash)]
pub struct Cid {
    digest: Vec<u8>,
}

impl View for Cid {
    type V = Seq<u8>;

    /// The 32 bytes of the digest.
    closed spec fn view(&self) -> Seq<u8> {
        self.digest@
    }
}

impl Cid {
    /// Every identifier carries a digest of 32 bytes.
    #[verifier::type_invariant]
    pub open spec fn inv(self) -> bool {
        self@.len() == DIGEST_LEN
    }

    /// The identifier with the given digest, if it has the length of a SHA-256 digest.
    pub fn from_digest(digest: Vec<u8>) -> (cid: Option<Cid>)
        ensures
            cid is Some <==> digest@.len() == DIGEST_LEN,
            cid matches Some(c) ==> c@ == digest@,
    {
        if digest.len() == DIGEST_LEN {
            Some(Cid { digest })
        } else {
            None
        }
    }

    /// The identifier of a block.
    pub fn of_block(block: &[u8]) -> (cid: Cid)
        ensures
            cid@ == spec_block_cid(block@),
    {
        Cid { digest: sha2_256(block) }
    }

    /// The identifier that `bytes` is the binary form of, if it is one of version 1 with
    /// codec dag-cbor and a SHA-256 multihash.
    pub fn from_bytes(bytes: &[u8]) -> (cid: Option<Cid>)
        ensures
            cid is Some <==> exists|digest: Seq<u8>|
                digest.len() == DIGEST_LEN && bytes@ == spec_cid_bytes(digest),
            cid matches Some(c) ==> bytes@ == spec_cid_bytes(c@),
    {
        if bytes.len() == CID_LEN && bytes[0] == 1 && bytes[1] == 0x71 && bytes[2] == 0x12
            && bytes[3] == 0x20 {
            let mut digest: Vec<u8> = Vec::new();
            let mut i: usize = 4;
            while i < CID_LEN
                invariant
                    4 <= i <= CID_LEN,
                    bytes@.len() == CID_LEN,
                    digest@ == bytes@.subrange(4, i as int),
                decreases CID_LEN - i,
            {
                digest.push(bytes[i]);
                proof {
                    assert(digest@ =~= bytes@.subrange(4, i + 1));
                }
                i = i + 1;
            }
            proof {
                assert(bytes@ =~= spec_cid_bytes(digest@));
            }
            Some(Cid { digest })
        } else {
            proof {
                assert forall|digest: Seq<u8>| digest.len() == DIGEST_LEN implies bytes@
                    != spec_cid_bytes(digest) by {
                    let b = spec_cid_bytes(digest);
                    assert(b.len() == CID_LEN);
                    assert(b[0] == 1 && b[1] == 0x71 && b[2] == 0x12 && b[3] == 0x20);
                }
            }
            None
        }
    }

    /// The binary form: version, codec, hash code, digest length and digest.
    pub fn to_bytes(&self) -> (bytes: Vec<u8>)
        ensures
            bytes@ == spec_cid_bytes(self@),
            bytes@.len() == CID_LEN,
    {
        proof {
            use_type_invariant(self);
        }
        let bytes = cid_v1_bytes(DAG_CBOR_CODE, SHA2_256_CODE, self.digest.as_slice());
        assert(bytes@ =~= spec_cid_bytes(self@));
        bytes
    }

    /// The text form: the binary form in multibase, base 32 with lower-case letters.
    pub fn to_string(&self) -> (text: String)
        ensures
            text@ == spec_cid_text(DAG_CBOR_CODE, SHA2_256_CODE, self@),
    {
        proof {
            use_type_invariant(self);
        }
        cid_v1_text(DAG_CBOR_CODE, SHA2_256_CODE, self.digest.as_slice())
    }

    /// The digest.
    pub fn digest(&self) -> (digest: &Vec<u8>)
        ensures
            digest@ == self@,
            digest@.len() == DIGEST_LEN,
    {
        proof {
            use_type_invariant(self);
        }
        &self.digest
    }
}

impl Clone for Cid {
    fn clone(&self) -> (copy: Self)
        ensures
            copy@ == self@,
    {
        proof {
            use_type_invariant(self);
        }
        let digest = self.digest.clone();
        assert(digest@ =~= self.digest@);
        Cid { digest }
    }
}

} // verus!
