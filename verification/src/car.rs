//! Content-addressed archives: a header, then blocks, each behind its length.

use vstd::prelude::*;
use vstd::string::StringSliceAdditionalSpecFns;
use crate::block::{encode_link, spec_encode_link, spec_encode_text};
use crate::cbor::{
    put_array, put_map, put_str, put_u64, spec_head, KIND_ARRAY, KIND_MAP, KIND_UNSIGNED,
};
use crate::cid::{spec_block_cid, spec_cid_bytes, Cid};

verus! {

/// The length of the header of an archive.
pub const HEADER_LEN: usize = 59;

/// The unsigned varint of a number: seven bits a byte, the low bits first, the high bit of
/// every byte but the last set.
pub open spec fn spec_uvarint(n: nat) -> Seq<u8>
    decreases n,
{
    if n < 128 {
        seq![n as u8]
    } else {
        seq![(n % 128 + 128) as u8] + spec_uvarint(n / 128)
    }
}

/// The name of the entry of the header that holds the roots: `roots`.
pub open spec fn spec_name_roots() -> Seq<u8> {
    seq![0x72u8, 0x6fu8, 0x6fu8, 0x74u8, 0x73u8]
}

/// The name of the entry of the header that holds the version: `version`.
pub open spec fn spec_name_version() -> Seq<u8> {
    seq![0x76u8, 0x65u8, 0x72u8, 0x73u8, 0x69u8, 0x6fu8, 0x6eu8]
}

/// The body of the header: a map of the roots, which are one placeholder, and the version.
pub open spec fn spec_header_body() -> Seq<u8> {
    spec_head(KIND_MAP, 2) + spec_encode_text(spec_name_roots()) + spec_head(KIND_ARRAY, 1)
        + spec_encode_link(spec_block_cid(Seq::empty())) + spec_encode_text(spec_name_version())
        + spec_head(KIND_UNSIGNED, 1)
}

/// The header of an archive: its body behind the body's length.
pub open spec fn spec_header() -> Seq<u8> {
    spec_uvarint(spec_header_body().len()) + spec_header_body()
}

/// One block of an archive: the identifier and the bytes behind their joint length.
pub open spec fn spec_frame(cid: Seq<u8>, block: Seq<u8>) -> Seq<u8> {
    spec_uvarint(cid.len() + block.len()) + cid + block
}

/// The unsigned varint of `n`, from `unsigned_varint::encode::usize`.
///
/// Trusted: the crate writes seven bits a byte from the low end and sets the high bit of
/// every byte but the last.
#[verifier::external_body]
fn uvarint(n: usize) -> (bytes: Vec<u8>)
    ensures
        bytes@ == spec_uvarint(n as nat),
{
    let mut buffer = unsigned_varint::encode::usize_buffer();
    unsigned_varint::encode::usize(n, &mut buffer).to_vec()
}

/// An archive in the making: the bytes that were written to it and not yet taken out.
pub struct Car {
    pending: Vec<u8>,
}

impl View for Car {
    type V = Seq<u8>;

    /// The bytes written and not yet taken out.
    closed spec fn view(&self) -> Seq<u8> {
        self.pending@
    }
}

impl Car {
    /// An archive to which nothing was written.
    pub fn new() -> (car: Car)
        ensures
            car@ == Seq::<u8>::empty(),
    {
        Car { pending: Vec::new() }
    }

    /// Writes the header.
    pub fn encode_header(&mut self)
        ensures
            final(self)@ == old(self)@ + spec_header(),
            spec_header().len() == HEADER_LEN,
    {
        let mut body: Vec<u8> = Vec::new();
        proof {
            reveal_strlit("roots");
            reveal_strlit("version");
            vstd::string::is_ascii_spec_bytes("roots");
            vstd::string::is_ascii_spec_bytes("version");
            assert("roots".spec_bytes() =~= spec_name_roots());
            assert("version".spec_bytes() =~= spec_name_version());
        }
        let empty: Vec<u8> = Vec::new();
        let placeholder = Cid::of_block(empty.as_slice());
        assert(empty@ =~= Seq::<u8>::empty());
        put_map(&mut body, 2);
        put_str(&mut body, "roots");
        put_array(&mut body, 1);
        encode_link(&mut body, &placeholder);
        proof {
            use_type_invariant(&placeholder);
        }
        put_str(&mut body, "version");
        put_u64(&mut body, 1);
        proof {
            reveal_with_fuel(crate::cbor::spec_be_bytes, 2);
            assert(spec_head(crate::cbor::KIND_TAG, 42).len() == 2);
            assert(spec_head(crate::cbor::KIND_BYTES, 37).len() == 2);
            assert(spec_encode_link(placeholder@).len() == 41);
            assert(spec_encode_text(spec_name_roots()).len() == 6);
            assert(spec_encode_text(spec_name_version()).len() == 8);
            assert(body@ =~= spec_header_body());
            assert(body@.len() == 58);
        }
        let mut length = uvarint(body.len());
        self.pending.append(&mut length);
        self.pending.append(&mut body);
        assert(self@ =~= old(self)@ + spec_header());
    }

    /// Writes a block under its identifier.
    pub fn write_block_cid(&mut self, cid: &Cid, block: &[u8])
        requires
            36 + block@.len() <= usize::MAX,
        ensures
            final(self)@ == old(self)@ + spec_frame(spec_cid_bytes(cid@), block@),
    {
        let bytes = cid.to_bytes();
        self.write_block(bytes.as_slice(), block)
    }

    /// Writes a block under the binary form of its identifier.
    pub fn write_block(&mut self, cid: &[u8], block: &[u8])
        requires
            cid@.len() + block@.len() <= usize::MAX,
        ensures
            final(self)@ == old(self)@ + spec_frame(cid@, block@),
    {
        let mut length = uvarint(cid.len() + block.len());
        self.pending.append(&mut length);
        self.pending.extend_from_slice(cid);
        self.pending.extend_from_slice(block);
        assert(self@ =~= old(self)@ + spec_frame(cid@, block@));
    }

    /// Takes out the bytes written so far, for the caller to put them where the archive
    /// goes.
    pub fn take(&mut self) -> (bytes: Vec<u8>)
        ensures
            bytes@ == old(self)@,
            final(self)@ == Seq::<u8>::empty(),
    {
        let mut bytes: Vec<u8> = Vec::new();
        bytes.append(&mut self.pending);
        assert(bytes@ =~= old(self)@);
        bytes
    }
}

} // verus!
