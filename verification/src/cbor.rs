//! The CBOR item heads that blocks are made of.

use vstd::prelude::*;
use vstd::string::StringSliceAdditionalSpecFns;

verus! {

/// The initial byte of an unsigned integer, without its argument.
pub const KIND_UNSIGNED: u8 = 0x00;

/// The initial byte of a byte string, without its argument.
pub const KIND_BYTES: u8 = 0x40;

/// The initial byte of a text string, without its argument.
pub const KIND_TEXT: u8 = 0x60;

/// The initial byte of an array, without its argument.
pub const KIND_ARRAY: u8 = 0x80;

/// The initial byte of a map, without its argument.
pub const KIND_MAP: u8 = 0xa0;

/// The initial byte of a tag, without its argument.
pub const KIND_TAG: u8 = 0xc0;

/// The tag that marks a byte string as a content identifier.
pub const TAG_CID: u64 = 42;

/// The big-endian bytes of the low `count` bytes of `n`.
pub open spec fn spec_be_bytes(n: nat, count: nat) -> Seq<u8>
    decreases count,
{
    if count == 0 {
        Seq::empty()
    } else {
        spec_be_bytes(n / 256, (count - 1) as nat).push((n % 256) as u8)
    }
}

/// The head of an item of the given kind with argument `n`, in the shortest form: the
/// argument in the initial byte below 24, else in one, two, four or eight bytes after it.
pub open spec fn spec_head(kind: u8, n: u64) -> Seq<u8> {
    if n < 24 {
        seq![(kind + n) as u8]
    } else if n <= 0xff {
        seq![(kind + 24) as u8] + spec_be_bytes(n as nat, 1)
    } else if n <= 0xffff {
        seq![(kind + 25) as u8] + spec_be_bytes(n as nat, 2)
    } else if n <= 0xffff_ffff {
        seq![(kind + 26) as u8] + spec_be_bytes(n as nat, 4)
    } else {
        seq![(kind + 27) as u8] + spec_be_bytes(n as nat, 8)
    }
}

/// 256 to the power `count`.
pub open spec fn spec_pow256(count: nat) -> nat
    decreases count,
{
    if count == 0 {
        1
    } else {
        256 * spec_pow256((count - 1) as nat)
    }
}

/// The number that the given bytes are the big-endian form of.
pub open spec fn spec_be_value(bytes: Seq<u8>) -> nat
    decreases bytes.len(),
{
    if bytes.len() == 0 {
        0
    } else {
        spec_be_value(bytes.drop_last()) * 256 + bytes.last() as nat
    }
}

/// An item head as it is read: the kind, the argument, and where the head ends.
pub struct HeadModel {
    pub kind: u8,
    pub arg: u64,
    pub next: int,
}

/// The head that stands at `pos`, if one stands there in the shortest form.
pub open spec fn spec_read_head(bytes: Seq<u8>, pos: int) -> Option<HeadModel> {
    if pos < 0 || pos >= bytes.len() {
        None
    } else {
        let first = bytes[pos];
        let kind = (first / 32 * 32) as u8;
        let info = first % 32;
        let count: int = if info == 24 {
            1
        } else if info == 25 {
            2
        } else if info == 26 {
            4
        } else {
            8
        };
        let least: nat = if info == 24 {
            24
        } else if info == 25 {
            0x100
        } else if info == 26 {
            0x1_0000
        } else {
            0x1_0000_0000
        };
        if info < 24 {
            Some(HeadModel { kind, arg: info as u64, next: pos + 1 })
        } else if info > 27 || pos + 1 + count > bytes.len() {
            None
        } else {
            let value = spec_be_value(bytes.subrange(pos + 1, pos + 1 + count));
            if value < least {
                None
            } else {
                Some(HeadModel { kind, arg: value as u64, next: pos + 1 + count })
            }
        }
    }
}

/// A number below 256 to the `count` is the number that its big-endian bytes stand for.
pub proof fn lemma_be_value_of_bytes(n: nat, count: nat)
    requires
        n < spec_pow256(count),
    ensures
        spec_be_bytes(n, count).len() == count,
        spec_be_value(spec_be_bytes(n, count)) == n,
    decreases count,
{
    if count == 0 {
    } else {
        assert(n / 256 < spec_pow256((count - 1) as nat)) by (nonlinear_arith)
            requires
                n < 256 * spec_pow256((count - 1) as nat),
        ;
        lemma_be_value_of_bytes(n / 256, (count - 1) as nat);
        let bytes = spec_be_bytes(n, count);
        assert(bytes.drop_last() =~= spec_be_bytes(n / 256, (count - 1) as nat));
    }
}

/// Bytes are the big-endian form of the number they stand for, which is below 256 to their
/// length.
pub proof fn lemma_be_bytes_of_value(bytes: Seq<u8>)
    ensures
        spec_be_bytes(spec_be_value(bytes), bytes.len()) == bytes,
        spec_be_value(bytes) < spec_pow256(bytes.len()),
    decreases bytes.len(),
{
    if bytes.len() == 0 {
        assert(spec_be_bytes(0, 0) =~= bytes);
    } else {
        lemma_be_bytes_of_value(bytes.drop_last());
        let value = spec_be_value(bytes);
        let shorter = spec_be_value(bytes.drop_last());
        assert(value / 256 == shorter && value % 256 == bytes.last()) by (nonlinear_arith)
            requires
                value == shorter * 256 + bytes.last() as nat,
                bytes.last() < 256,
        ;
        assert(spec_be_bytes(value, bytes.len()) =~= bytes);
        assert(value < 256 * spec_pow256((bytes.len() - 1) as nat))
            by (nonlinear_arith)
            requires
                value == shorter * 256 + bytes.last() as nat,
                bytes.last() < 256,
                shorter < spec_pow256((bytes.len() - 1) as nat),
        ;
    }
}

/// The powers of 256 that the lengths of a head's argument reach.
pub proof fn lemma_pow256()
    ensures
        spec_pow256(0) == 1,
        spec_pow256(1) == 0x100,
        spec_pow256(2) == 0x1_0000,
        spec_pow256(3) == 0x100_0000,
        spec_pow256(4) == 0x1_0000_0000,
        spec_pow256(5) == 0x100_0000_0000,
        spec_pow256(6) == 0x1_0000_0000_0000,
        spec_pow256(7) == 0x100_0000_0000_0000,
        spec_pow256(8) == 0x1_0000_0000_0000_0000,
{
    reveal_with_fuel(spec_pow256, 10);
}

/// A head that is read is the head of its kind and argument: reading accepts the shortest
/// form and no other.
pub proof fn lemma_read_head_sound(bytes: Seq<u8>, pos: int)
    requires
        spec_read_head(bytes, pos) is Some,
    ensures
        ({
            let head = spec_read_head(bytes, pos)->0;
            &&& pos < head.next <= bytes.len()
            &&& head.kind % 32 == 0
            &&& bytes.subrange(pos, head.next) == spec_head(head.kind, head.arg)
        }),
{
    let head = spec_read_head(bytes, pos)->0;
    let first = bytes[pos];
    let info = first % 32;
    lemma_pow256();
    if info < 24 {
        assert(bytes.subrange(pos, head.next) =~= spec_head(head.kind, head.arg));
    } else {
        let argument = bytes.subrange(pos + 1, head.next);
        lemma_be_bytes_of_value(argument);
        assert(bytes.subrange(pos, head.next) =~= seq![first] + argument);
        assert(bytes.subrange(pos, head.next) =~= spec_head(head.kind, head.arg));
    }
}

/// The head of a kind and an argument is read back as such, whatever follows it.
pub proof fn lemma_read_head_complete(kind: u8, arg: u64, before: Seq<u8>, after: Seq<u8>)
    requires
        kind % 32 == 0,
    ensures
        spec_read_head(before + spec_head(kind, arg) + after, before.len() as int) == Some(
            HeadModel { kind, arg, next: (before.len() + spec_head(kind, arg).len()) as int },
        ),
{
    let head = spec_head(kind, arg);
    let bytes = before + head + after;
    let pos = before.len() as int;
    lemma_pow256();
    assert(bytes[pos] == head[0]);
    if arg >= 24 {
        let count: nat = if arg <= 0xff {
            1
        } else if arg <= 0xffff {
            2
        } else if arg <= 0xffff_ffff {
            4
        } else {
            8
        };
        lemma_be_value_of_bytes(arg as nat, count);
        assert(bytes.subrange(pos + 1, pos + 1 + count) =~= spec_be_bytes(arg as nat, count));
    }
}

/// Appends the head of an array of `len` items, with `minicbor::Encoder::array`.
///
/// Trusted: the encoder writes the kind and the length in the shortest form.
#[verifier::external_body]
pub(crate) fn put_array(out: &mut Vec<u8>, len: u64)
    ensures
        final(out)@ == old(out)@ + spec_head(KIND_ARRAY, len),
{
    let _ = minicbor::Encoder::new(out).array(len);
}

/// Appends the head of a map of `len` entries, with `minicbor::Encoder::map`.
///
/// Trusted: the encoder writes the kind and the length in the shortest form.
#[verifier::external_body]
pub(crate) fn put_map(out: &mut Vec<u8>, len: u64)
    ensures
        final(out)@ == old(out)@ + spec_head(KIND_MAP, len),
{
    let _ = minicbor::Encoder::new(out).map(len);
}

/// Appends an unsigned integer, with `minicbor::Encoder::u64`.
///
/// Trusted: the encoder writes the value in the shortest form.
#[verifier::external_body]
pub(crate) fn put_u64(out: &mut Vec<u8>, value: u64)
    ensures
        final(out)@ == old(out)@ + spec_head(KIND_UNSIGNED, value),
{
    let _ = minicbor::Encoder::new(out).u64(value);
}

/// Appends the head of a tag, with `minicbor::Encoder::tag`.
///
/// Trusted: the encoder writes the kind and the tag's number in the shortest form.
#[verifier::external_body]
pub(crate) fn put_tag(out: &mut Vec<u8>, tag: u64)
    ensures
        final(out)@ == old(out)@ + spec_head(KIND_TAG, tag),
{
    let _ = minicbor::Encoder::new(out).tag(minicbor::data::Tag::Unassigned(tag));
}

/// Appends a byte string, with `minicbor::Encoder::bytes`.
///
/// Trusted: the encoder writes the kind and the length in the shortest form, then the bytes.
#[verifier::external_body]
pub(crate) fn put_bytes(out: &mut Vec<u8>, bytes: &[u8])
    ensures
        final(out)@ == old(out)@ + spec_head(KIND_BYTES, bytes@.len() as u64) + bytes@,
{
    let _ = minicbor::Encoder::new(out).bytes(bytes);
}

/// Appends a text string, with `minicbor::Encoder::str`.
///
/// Trusted: the encoder writes the kind and the length in bytes in the shortest form, then
/// the bytes of the text.
#[verifier::external_body]
pub(crate) fn put_str(out: &mut Vec<u8>, text: &str)
    ensures
        final(out)@ == old(out)@ + spec_head(KIND_TEXT, text.spec_bytes().len() as u64)
            + text.spec_bytes(),
{
    let _ = minicbor::Encoder::new(out).str(text);
}

/// Where the head of a kind and an argument stands at `pos`, it is read there.
pub proof fn lemma_read_head_at(bytes: Seq<u8>, pos: int, kind: u8, arg: u64)
    requires
        kind % 32 == 0,
        0 <= pos,
        pos + spec_head(kind, arg).len() <= bytes.len(),
        bytes.subrange(pos, pos + spec_head(kind, arg).len()) == spec_head(kind, arg),
    ensures
        spec_read_head(bytes, pos) == Some(
            HeadModel { kind, arg, next: pos + spec_head(kind, arg).len() },
        ),
{
    let head = spec_head(kind, arg);
    let before = bytes.take(pos);
    let after = bytes.skip(pos + head.len());
    assert(bytes =~= before + bytes.subrange(pos, pos + head.len()) + after);
    lemma_read_head_complete(kind, arg, before, after);
}

/// A head has one to nine bytes.
pub proof fn lemma_head_len(kind: u8, arg: u64)
    ensures
        1 <= spec_head(kind, arg).len() <= 9,
{
    reveal_with_fuel(spec_be_bytes, 9);
}

/// An item head: the kind, the argument, and where the head ends.
pub struct Head {
    pub kind: u8,
    pub arg: u64,
    pub next: usize,
}

impl View for Head {
    type V = HeadModel;

    open spec fn view(&self) -> HeadModel {
        HeadModel { kind: self.kind, arg: self.arg, next: self.next as int }
    }
}

/// Reads the head that stands at `pos`. A head that is not in the shortest form, or of
/// indefinite length, is not read.
pub fn read_head(bytes: &[u8], pos: usize) -> (head: Option<Head>)
    ensures
        head is Some <==> spec_read_head(bytes@, pos as int) is Some,
        head matches Some(h) ==> spec_read_head(bytes@, pos as int) == Some(h@),
{
    if pos >= bytes.len() {
        return None;
    }
    let first = bytes[pos];
    let kind: u8 = first / 32 * 32;
    let info: u8 = first % 32;
    if info < 24 {
        return Some(Head { kind, arg: info as u64, next: pos + 1 });
    }
    if info > 27 {
        return None;
    }
    let count: usize = if info == 24 {
        1
    } else if info == 25 {
        2
    } else if info == 26 {
        4
    } else {
        8
    };
    let least: u64 = if info == 24 {
        24
    } else if info == 25 {
        0x100
    } else if info == 26 {
        0x1_0000
    } else {
        0x1_0000_0000
    };
    if count > bytes.len() - pos - 1 {
        return None;
    }
    let ghost argument = bytes@.subrange(pos + 1, pos + 1 + count);
    let mut value: u64 = 0;
    let mut i: usize = 0;
    proof {
        lemma_pow256();
    }
    while i < count
        invariant
            i <= count <= 8,
            pos + 1 + count <= bytes@.len() <= usize::MAX,
            argument == bytes@.subrange(pos + 1, pos + 1 + count),
            value == spec_be_value(argument.take(i as int)),
            value < spec_pow256(i as nat),
        decreases count - i,
    {
        proof {
            assert(argument.take(i + 1).drop_last() =~= argument.take(i as int));
            assert(argument.take(i + 1).last() == bytes@[pos + 1 + i]);
            lemma_be_bytes_of_value(argument.take(i + 1));
            lemma_pow256();
            assert(i == 0 || i == 1 || i == 2 || i == 3 || i == 4 || i == 5 || i == 6 || i == 7);
            assert(spec_pow256(i as nat) <= 0x100_0000_0000_0000);
        }
        value = value * 256 + bytes[pos + 1 + i] as u64;
        i = i + 1;
    }
    proof {
        assert(argument.take(count as int) =~= argument);
    }
    if value < least {
        None
    } else {
        Some(Head { kind, arg: value, next: pos + 1 + count })
    }
}

} // verus!
