//! Looking a key up in a tree that is known by its blocks, one block at a time.

use vstd::prelude::*;
use vstd::string::StringSliceAdditionalSpecFns;
use crate::bits::{slot_index, spec_slot};
use crate::block::{
    spec_encode_block, spec_encode_root, spec_encode_text, spec_name_bucket_size, spec_name_hamt,
    spec_name_hash_alg, spec_pairs_view, BlockElement, BlockSlot, MapBlock, PairModel,
};
use crate::cbor::{
    lemma_read_head_at, lemma_read_head_sound, read_head, spec_head, spec_read_head, KIND_MAP,
    KIND_TEXT, KIND_UNSIGNED,
};
use crate::cid::Cid;
use crate::cidstore::{spec_held, CidStore};
use crate::decode::{
    lemma_parse_block_complete, parse_block, spec_block_wf, spec_decode_block, spec_padded,
    spec_parse_block,
};
use crate::error::HashMapError;
use crate::hash::{sha2_256, spec_sha2_256, DIGEST_LEN, SHA2_256_CODE};
use crate::key::{key_order, KeyOrder};

verus! {

/// What one block tells about a key.
#[derive(Debug)]
pub enum Lookup {
    /// The key is stored with this value.
    Found(Cid),
    /// The key is not in the tree.
    Missing,
    /// The key is to be looked up in the child with this identifier, one level down.
    Descend(Cid),
}

/// What one block tells about a key, as a plain value.
pub enum LookupModel {
    Found(Seq<u8>),
    Missing,
    Descend(Seq<u8>),
}

impl View for Lookup {
    type V = LookupModel;

    open spec fn view(&self) -> LookupModel {
        match self {
            Lookup::Found(cid) => LookupModel::Found(cid@),
            Lookup::Missing => LookupModel::Missing,
            Lookup::Descend(cid) => LookupModel::Descend(cid@),
        }
    }
}

/// The value of the first pair of a bucket that has the key.
pub open spec fn spec_pairs_get(pairs: Seq<PairModel>, key: Seq<u8>) -> Option<Seq<u8>>
    decreases pairs.len(),
{
    if pairs.len() == 0 {
        None
    } else if pairs.first().key == key {
        Some(pairs.first().value)
    } else {
        spec_pairs_get(pairs.drop_first(), key)
    }
}

/// What the node `slots`, which stands at `depth`, tells about a key with the given digest:
/// an error where the digest is not one of 32 bytes or has no bits left for this depth, or
/// where it selects a slot that the node does not have; else what the selected slot holds
/// for the key.
pub open spec fn spec_lookup_step(
    slots: Seq<BlockSlot>,
    key: Seq<u8>,
    digest: Seq<u8>,
    depth: nat,
    width: nat,
) -> Result<LookupModel, HashMapError> {
    if digest.len() != 32 || (depth + 1) * width > 256 {
        Err(HashMapError::BadDigest)
    } else if spec_slot(digest, depth, width) >= slots.len() {
        Err(HashMapError::OutOfBounds)
    } else {
        match slots[spec_slot(digest, depth, width) as int] {
            BlockSlot::Empty => Ok(LookupModel::Missing),
            BlockSlot::Link(child) => Ok(LookupModel::Descend(child)),
            BlockSlot::Bucket(pairs) => match spec_pairs_get(pairs, key) {
                Some(value) => Ok(LookupModel::Found(value)),
                None => Ok(LookupModel::Missing),
            },
        }
    }
}

/// The outcome of a step as a plain value.
pub open spec fn spec_step_view(step: Result<Lookup, HashMapError>) -> Result<
    LookupModel,
    HashMapError,
> {
    match step {
        Ok(lookup) => Ok(lookup@),
        Err(error) => Err(error),
    }
}

impl MapBlock {
    /// What this node, which stands at `depth`, tells about `key`, whose digest is `digest`.
    #[verifier::loop_isolation(false)]
    pub fn get_key(&self, key: &[u8], digest: &[u8], depth: usize, width: usize) -> (step: Result<
        Lookup,
        HashMapError,
    >)
        requires
            1 <= width <= 8,
        ensures
            spec_step_view(step) == spec_lookup_step(
                self@,
                key@,
                digest@,
                depth as nat,
                width as nat,
            ),
    {
        if digest.len() != DIGEST_LEN || depth >= 256 / width {
            proof {
                lemma_bits_run_out(depth as nat, width as nat);
            }
            return Err(HashMapError::BadDigest);
        }
        proof {
            lemma_bits_run_out(depth as nat, width as nat);
        }
        let index = slot_index(digest, depth, width);
        if index >= self.elements.len() {
            return Err(HashMapError::OutOfBounds);
        }
        match &self.elements[index] {
            None => Ok(Lookup::Missing),
            Some(BlockElement::Node(cid)) => Ok(Lookup::Descend(cid.clone())),
            Some(BlockElement::Bucket(pairs)) => {
                let ghost model = spec_pairs_view(pairs@);
                let mut j: usize = 0;
                proof {
                    assert(model.skip(0) =~= model);
                }
                while j < pairs.len()
                    invariant
                        j <= pairs@.len(),
                        model == spec_pairs_view(pairs@),
                        spec_pairs_get(model, key@) == spec_pairs_get(model.skip(j as int), key@),
                    decreases pairs@.len() - j,
                {
                    proof {
                        assert(model.skip(j as int).drop_first() =~= model.skip(j + 1));
                        assert(model.skip(j as int).first() == pairs@[j as int]@);
                    }
                    match key_order(pairs[j].key.as_slice(), key) {
                        KeyOrder::Same => {
                            return Ok(Lookup::Found(pairs[j].value.clone()));
                        },
                        _ => {},
                    }
                    j = j + 1;
                }
                Ok(Lookup::Missing)
            },
        }
    }
}

/// A digest has bits for a node at `depth` as long as `depth` is below the number of whole
/// groups of `width` bits in it.
pub proof fn lemma_bits_run_out(depth: nat, width: nat)
    requires
        1 <= width <= 8,
    ensures
        (depth + 1) * width <= 256 <==> depth < 256nat / width,
{
    if width == 1 {
    } else if width == 2 {
    } else if width == 3 {
    } else if width == 4 {
    } else if width == 5 {
    } else if width == 6 {
    } else if width == 7 {
    } else {
    }
}

/// The entries of a root block that were read so far.
pub struct RootFields {
    pub node: Option<Seq<BlockSlot>>,
    pub hash_alg: Option<u64>,
    pub fanout: Option<u64>,
}

/// A root block as a plain value: the root node, the code of the hash, and the number of
/// digest bits that a level consumes.
pub struct RootModel {
    pub slots: Seq<BlockSlot>,
    pub hash_alg: u64,
    pub width: nat,
}

/// The text that stands at `pos`: its bytes, and where it ends.
pub open spec fn spec_parse_text(bytes: Seq<u8>, pos: int) -> Option<(Seq<u8>, int)> {
    match spec_read_head(bytes, pos) {
        Some(head) => if head.kind == KIND_TEXT && head.next + head.arg <= bytes.len() {
            Some((bytes.subrange(head.next, head.next + head.arg), head.next + head.arg))
        } else {
            None
        },
        None => None,
    }
}

/// The unsigned integer that stands at `pos`, and where it ends.
pub open spec fn spec_parse_uint(bytes: Seq<u8>, pos: int) -> Option<(u64, int)> {
    match spec_read_head(bytes, pos) {
        Some(head) => if head.kind == KIND_UNSIGNED {
            Some((head.arg, head.next))
        } else {
            None
        },
        None => None,
    }
}

/// The entry of a root block that stands at `pos`, added to the entries read so far. An
/// entry with a name that a root block does not have, or has already, is none.
pub open spec fn spec_parse_entry(bytes: Seq<u8>, pos: int, fields: RootFields) -> Option<
    (RootFields, int),
> {
    match spec_parse_text(bytes, pos) {
        Some((name, at)) => if name == spec_name_hamt() && fields.node is None {
            match spec_parse_block(bytes, at) {
                Some((slots, next)) => Some((RootFields { node: Some(slots), ..fields }, next)),
                None => None,
            }
        } else if name == spec_name_hash_alg() && fields.hash_alg is None {
            match spec_parse_uint(bytes, at) {
                Some((code, next)) => Some(
                    (RootFields { hash_alg: Some(code), ..fields }, next),
                ),
                None => None,
            }
        } else if name == spec_name_bucket_size() && fields.fanout is None {
            match spec_parse_uint(bytes, at) {
                Some((slots, next)) => Some((RootFields { fanout: Some(slots), ..fields }, next)),
                None => None,
            }
        } else {
            None
        },
        None => None,
    }
}

/// The `count` entries of a root block that stand at `pos`, added to the entries read so
/// far.
pub open spec fn spec_parse_entries(
    bytes: Seq<u8>,
    pos: int,
    count: nat,
    fields: RootFields,
) -> Option<(RootFields, int)>
    decreases count,
{
    if count == 0 {
        Some((fields, pos))
    } else {
        match spec_parse_entry(bytes, pos, fields) {
            Some((more, next)) => spec_parse_entries(bytes, next, (count - 1) as nat, more),
            None => None,
        }
    }
}

/// The number of digest bits that a level consumes in a tree whose nodes have `slots`
/// slots, for the numbers of slots that a bitmap of whole bytes can stand for.
pub open spec fn spec_width_of(slots: nat) -> Option<nat> {
    if slots == 8 {
        Some(3)
    } else if slots == 16 {
        Some(4)
    } else if slots == 32 {
        Some(5)
    } else if slots == 64 {
        Some(6)
    } else if slots == 128 {
        Some(7)
    } else if slots == 256 {
        Some(8)
    } else {
        None
    }
}

/// The root that the bytes are the block of, if they are one: a map of the three entries of
/// a root block in any order, with SHA-256 as the hash, and with a root node whose number
/// of slots is a power of two.
pub open spec fn spec_decode_root(bytes: Seq<u8>) -> Option<RootModel> {
    match spec_read_head(bytes, 0) {
        Some(head) => if head.kind == KIND_MAP && head.arg == 3 {
            match spec_parse_entries(
                bytes,
                head.next,
                3,
                RootFields { node: None, hash_alg: None, fanout: None },
            ) {
                Some((fields, next)) => if next == bytes.len() && fields.node is Some
                    && fields.hash_alg == Some(SHA2_256_CODE) && spec_width_of(
                    fields.node->0.len(),
                ) is Some {
                    Some(
                        RootModel {
                            slots: fields.node->0,
                            hash_alg: SHA2_256_CODE,
                            width: spec_width_of(fields.node->0.len())->0,
                        },
                    )
                } else {
                    None
                },
                None => None,
            }
        } else {
            None
        },
        None => None,
    }
}

/// Where the encoding of a short text stands at `pos`, the text is read there.
pub proof fn lemma_parse_text_at(bytes: Seq<u8>, pos: int, text: Seq<u8>)
    requires
        text.len() < 24,
        0 <= pos,
        pos + 1 + text.len() <= bytes.len(),
        bytes.subrange(pos, pos + 1 + text.len()) == spec_encode_text(text),
    ensures
        spec_parse_text(bytes, pos) == Some((text, pos + 1 + text.len())),
{
    let whole = spec_encode_text(text);
    let head = spec_head(KIND_TEXT, text.len() as u64);
    assert(head.len() == 1);
    assert forall|k: int| 0 <= k < whole.len() implies bytes[pos + k] == whole[k] by {
        assert(bytes.subrange(pos, pos + whole.len())[k] == bytes[pos + k]);
    }
    assert(bytes.subrange(pos, pos + 1) =~= head) by {
        assert(whole[0] == head[0]);
    }
    lemma_read_head_at(bytes, pos, KIND_TEXT, text.len() as u64);
    assert(bytes.subrange(pos + 1, pos + 1 + text.len()) =~= text) by {
        assert forall|k: int| 0 <= k < text.len() implies bytes.subrange(
            pos + 1,
            pos + 1 + text.len(),
        )[k] == text[k] by {
            assert(whole[1 + k] == text[k]);
        }
    }
}

/// Where the encoding of an unsigned integer stands at `pos`, the integer is read there.
pub proof fn lemma_parse_uint_at(bytes: Seq<u8>, pos: int, value: u64)
    requires
        0 <= pos,
        pos + spec_head(KIND_UNSIGNED, value).len() <= bytes.len(),
        bytes.subrange(pos, pos + spec_head(KIND_UNSIGNED, value).len()) == spec_head(
            KIND_UNSIGNED,
            value,
        ),
    ensures
        spec_parse_uint(bytes, pos) == Some(
            (value, pos + spec_head(KIND_UNSIGNED, value).len()),
        ),
{
    lemma_read_head_at(bytes, pos, KIND_UNSIGNED, value);
}

/// A part of a byte string stands where the parts before it end.
proof fn lemma_part(before: Seq<u8>, part: Seq<u8>, after: Seq<u8>)
    ensures
        (before + part + after).subrange(
            before.len() as int,
            (before.len() + part.len()) as int,
        ) == part,
        (before + part + after).len() == before.len() + part.len() + after.len(),
{
    assert((before + part + after).subrange(
        before.len() as int,
        (before.len() + part.len()) as int,
    ) =~= part);
}

/// The parts of a root block stand one behind the other.
proof fn lemma_root_layout(slots: Seq<BlockSlot>, fanout: u64)
    ensures
        ({
            let bytes = spec_encode_root(slots, SHA2_256_CODE, fanout);
            let block = spec_encode_block(slots);
            let last = spec_head(KIND_UNSIGNED, fanout);
            let at_alg = (6 + block.len()) as int;
            &&& bytes.len() == at_alg + 20 + last.len()
            &&& bytes.subrange(0, 1) == spec_head(KIND_MAP, 3)
            &&& bytes.subrange(1, 6) == spec_encode_text(spec_name_hamt())
            &&& bytes.subrange(6, at_alg) == block
            &&& bytes.subrange(at_alg, at_alg + 8) == spec_encode_text(spec_name_hash_alg())
            &&& bytes.subrange(at_alg + 8, at_alg + 9) == spec_head(KIND_UNSIGNED, SHA2_256_CODE)
            &&& bytes.subrange(at_alg + 9, at_alg + 20) == spec_encode_text(spec_name_bucket_size())
            &&& bytes.subrange(at_alg + 20, at_alg + 20 + last.len()) == last
        }),
{
    let bytes = spec_encode_root(slots, SHA2_256_CODE, fanout);
    let map = spec_head(KIND_MAP, 3);
    let hamt = spec_encode_text(spec_name_hamt());
    let block = spec_encode_block(slots);
    let alg = spec_encode_text(spec_name_hash_alg());
    let code = spec_head(KIND_UNSIGNED, SHA2_256_CODE);
    let size = spec_encode_text(spec_name_bucket_size());
    let last = spec_head(KIND_UNSIGNED, fanout);
    let none = Seq::<u8>::empty();
    assert(map.len() == 1 && hamt.len() == 5 && alg.len() == 8 && code.len() == 1 && size.len()
        == 11);
    assert(bytes.subrange(0, 1) == map) by {
        lemma_part(none, map, hamt + block + alg + code + size + last);
        assert(bytes =~= none + map + (hamt + block + alg + code + size + last));
    }
    assert(bytes.subrange(1, 6) == hamt) by {
        lemma_part(map, hamt, block + alg + code + size + last);
        assert(bytes =~= map + hamt + (block + alg + code + size + last));
    }
    assert(bytes.subrange(6, (6 + block.len()) as int) == block) by {
        lemma_part(map + hamt, block, alg + code + size + last);
        assert(bytes =~= (map + hamt) + block + (alg + code + size + last));
    }
    let at_alg = (6 + block.len()) as int;
    assert(bytes.subrange(at_alg, at_alg + 8) == alg) by {
        lemma_part(map + hamt + block, alg, code + size + last);
        assert(bytes =~= (map + hamt + block) + alg + (code + size + last));
    }
    assert(bytes.subrange(at_alg + 8, at_alg + 9) == code) by {
        lemma_part(map + hamt + block + alg, code, size + last);
        assert(bytes =~= (map + hamt + block + alg) + code + (size + last));
    }
    assert(bytes.subrange(at_alg + 9, at_alg + 20) == size) by {
        lemma_part(map + hamt + block + alg + code, size, last);
        assert(bytes =~= (map + hamt + block + alg + code) + size + last);
    }
    assert(bytes.subrange(at_alg + 20, at_alg + 20 + last.len()) == last) by {
        lemma_part(map + hamt + block + alg + code + size, last, none);
        assert(bytes =~= (map + hamt + block + alg + code + size) + last + none);
    }
}

/// Every root block that is written is read back: the bytes of a root decode to its node,
/// with empty slots added until their number is a multiple of eight, and to the width that
/// this number of slots stands for.
pub proof fn lemma_decode_root_complete(slots: Seq<BlockSlot>, fanout: u64)
    requires
        spec_block_wf(slots),
        spec_width_of(spec_padded(slots).len()) is Some,
    ensures
        spec_decode_root(spec_encode_root(slots, SHA2_256_CODE, fanout)) == Some(
            RootModel {
                slots: spec_padded(slots),
                hash_alg: SHA2_256_CODE,
                width: spec_width_of(spec_padded(slots).len())->0,
            },
        ),
{
    let bytes = spec_encode_root(slots, SHA2_256_CODE, fanout);
    let block = spec_encode_block(slots);
    let last = spec_head(KIND_UNSIGNED, fanout);
    lemma_root_layout(slots, fanout);
    let at_alg = (6 + block.len()) as int;
    let at_size = at_alg + 9;
    let at_end = at_alg + 20 + last.len();
    let fields0 = RootFields { node: None, hash_alg: None, fanout: None };
    let fields1 = RootFields { node: Some(spec_padded(slots)), ..fields0 };
    let fields2 = RootFields { hash_alg: Some(SHA2_256_CODE), ..fields1 };
    let fields3 = RootFields { fanout: Some(fanout), ..fields2 };
    assert(spec_read_head(bytes, 0) == Some(
        crate::cbor::HeadModel { kind: KIND_MAP, arg: 3, next: 1 },
    )) by {
        lemma_read_head_at(bytes, 0, KIND_MAP, 3);
    }
    assert(spec_parse_entry(bytes, 1, fields0) == Some((fields1, at_alg))) by {
        lemma_parse_text_at(bytes, 1, spec_name_hamt());
        lemma_parse_block_complete(bytes, 6, slots);
    }
    assert(spec_parse_entry(bytes, at_alg, fields1) == Some((fields2, at_size))) by {
        lemma_parse_text_at(bytes, at_alg, spec_name_hash_alg());
        lemma_parse_uint_at(bytes, at_alg + 8, SHA2_256_CODE);
        assert(spec_name_hamt().len() != spec_name_hash_alg().len());
    }
    assert(spec_parse_entry(bytes, at_size, fields2) == Some((fields3, at_end))) by {
        lemma_parse_text_at(bytes, at_size, spec_name_bucket_size());
        lemma_parse_uint_at(bytes, at_alg + 20, fanout);
        assert(spec_name_hamt().len() != spec_name_bucket_size().len());
        assert(spec_name_hash_alg().len() != spec_name_bucket_size().len());
    }
    assert(spec_parse_entries(bytes, at_end, 0, fields3) == Some((fields3, at_end)));
    assert(spec_parse_entries(bytes, at_size, 1, fields2) == Some((fields3, at_end)));
    assert(spec_parse_entries(bytes, at_alg, 2, fields1) == Some((fields3, at_end)));
    assert(spec_parse_entries(bytes, 1, 3, fields0) == Some((fields3, at_end)));
}

/// The root of a tree as it stands in its block.
#[derive(Debug)]
pub struct RootMapBlock {
    root: MapBlock,
    hash_alg: u64,
    width: usize,
}

impl View for RootMapBlock {
    type V = RootModel;

    closed spec fn view(&self) -> RootModel {
        RootModel { slots: self.root@, hash_alg: self.hash_alg, width: self.width as nat }
    }
}

/// Whether the bytes from `start` to `end` are the bytes of `name`.
fn name_is(bytes: &[u8], start: usize, end: usize, name: &[u8]) -> (same: bool)
    requires
        start <= end <= bytes@.len(),
    ensures
        same == (bytes@.subrange(start as int, end as int) == name@),
{
    if end - start != name.len() || end > bytes.len() {
        return false;
    }
    let mut i: usize = 0;
    proof {
        assert(bytes@.subrange(start as int, start as int) =~= name@.take(0));
    }
    while i < name.len()
        invariant
            i <= name@.len(),
            start + name@.len() == end <= bytes@.len() <= usize::MAX,
            bytes@.subrange(start as int, start + i) == name@.take(i as int),
        decreases name@.len() - i,
    {
        if bytes[start + i] != name[i] {
            proof {
                assert(bytes@.subrange(start as int, end as int)[i as int] != name@[i as int]);
            }
            return false;
        }
        proof {
            assert(bytes@.subrange(start as int, start + i + 1) =~= bytes@.subrange(
                start as int,
                start + i,
            ).push(bytes@[start + i]));
            assert(name@.take(i + 1) =~= name@.take(i as int).push(name@[i as int]));
        }
        i = i + 1;
    }
    proof {
        assert(name@.take(i as int) =~= name@);
    }
    true
}

/// Reads the unsigned integer that stands at `pos`.
fn parse_uint(bytes: &[u8], pos: usize) -> (number: Option<(u64, usize)>)
    ensures
        number is Some <==> spec_parse_uint(bytes@, pos as int) is Some,
        number matches Some((n, next)) ==> spec_parse_uint(bytes@, pos as int) == Some(
            (n, next as int),
        ),
{
    match read_head(bytes, pos) {
        Some(head) => if head.kind == KIND_UNSIGNED {
            Some((head.arg, head.next))
        } else {
            None
        },
        None => None,
    }
}

/// One entry of a root block.
pub enum RootEntry {
    Node(MapBlock),
    HashAlg(u64),
    Fanout(u64),
}

/// The entries read so far with one more.
pub open spec fn spec_with_entry(fields: RootFields, entry: RootEntry) -> RootFields {
    match entry {
        RootEntry::Node(block) => RootFields { node: Some(block@), ..fields },
        RootEntry::HashAlg(code) => RootFields { hash_alg: Some(code), ..fields },
        RootEntry::Fanout(slots) => RootFields { fanout: Some(slots), ..fields },
    }
}

/// Reads the entry of a root block that stands at `pos`, where `fields` are the entries
/// read so far, of which the flags say which are there.
fn parse_entry(
    bytes: &[u8],
    pos: usize,
    has_node: bool,
    has_hash_alg: bool,
    has_fanout: bool,
    Ghost(fields): Ghost<RootFields>,
) -> (entry: Option<(RootEntry, usize)>)
    requires
        has_node == fields.node is Some,
        has_hash_alg == fields.hash_alg is Some,
        has_fanout == fields.fanout is Some,
    ensures
        entry is Some <==> spec_parse_entry(bytes@, pos as int, fields) is Some,
        entry matches Some((e, next)) ==> spec_parse_entry(bytes@, pos as int, fields) == Some(
            (spec_with_entry(fields, e), next as int),
        ),
        entry matches Some((e, next)) ==> match e {
            RootEntry::Node(_) => !has_node,
            RootEntry::HashAlg(_) => !has_hash_alg,
            RootEntry::Fanout(_) => !has_fanout,
        },
{
    let name = match read_head(bytes, pos) {
        Some(name) => name,
        None => {
            return None;
        },
    };
    proof {
        lemma_read_head_sound(bytes@, pos as int);
    }
    if name.kind != KIND_TEXT || name.arg > (bytes.len() - name.next) as u64 {
        return None;
    }
    let from = name.next;
    let to = from + name.arg as usize;
    proof {
        reveal_strlit("hamt");
        reveal_strlit("hashAlg");
        reveal_strlit("bucketSize");
        vstd::string::is_ascii_spec_bytes("hamt");
        vstd::string::is_ascii_spec_bytes("hashAlg");
        vstd::string::is_ascii_spec_bytes("bucketSize");
        assert("hamt".spec_bytes() =~= spec_name_hamt());
        assert("hashAlg".spec_bytes() =~= spec_name_hash_alg());
        assert("bucketSize".spec_bytes() =~= spec_name_bucket_size());
    }
    let is_node = name_is(bytes, from, to, "hamt".as_bytes());
    let is_hash_alg = name_is(bytes, from, to, "hashAlg".as_bytes());
    let is_fanout = name_is(bytes, from, to, "bucketSize".as_bytes());
    if is_node && !has_node {
        match parse_block(bytes, to) {
            Some((block, next)) => Some((RootEntry::Node(block), next)),
            None => None,
        }
    } else if is_hash_alg && !has_hash_alg {
        match parse_uint(bytes, to) {
            Some((code, next)) => Some((RootEntry::HashAlg(code), next)),
            None => None,
        }
    } else if is_fanout && !has_fanout {
        match parse_uint(bytes, to) {
            Some((slots, next)) => Some((RootEntry::Fanout(slots), next)),
            None => None,
        }
    } else {
        None
    }
}

impl RootMapBlock {
    /// A root read from a block has SHA-256 as its hash and consumes three to eight bits at
    /// a level.
    #[verifier::type_invariant]
    pub open spec fn inv(self) -> bool {
        &&& 3 <= self@.width <= 8
        &&& self@.hash_alg == SHA2_256_CODE
        &&& spec_width_of(self@.slots.len()) == Some(self@.width)
    }

    /// The root node.
    pub fn root(&self) -> (root: &MapBlock)
        ensures
            root@ == self@.slots,
    {
        &self.root
    }

    /// The multihash code of the hash that keys are digested with.
    pub fn hash_alg(&self) -> (code: u64)
        ensures
            code == self@.hash_alg,
            code == SHA2_256_CODE,
    {
        proof {
            use_type_invariant(self);
        }
        self.hash_alg
    }

    /// The number of digest bits consumed at each level.
    pub fn width(&self) -> (width: usize)
        ensures
            width == self@.width,
            3 <= width <= 8,
    {
        proof {
            use_type_invariant(self);
        }
        self.width
    }

    /// Reads a root back from the bytes of its block. Bytes that are not the block of a
    /// root, or that name a hash other than SHA-256, are refused.
    pub fn decode(bytes: &[u8]) -> (decoded: Result<RootMapBlock, HashMapError>)
        ensures
            decoded is Ok <==> spec_decode_root(bytes@) is Some,
            decoded matches Ok(root) ==> spec_decode_root(bytes@) == Some(root@),
            decoded matches Err(error) ==> error == HashMapError::BadBlock,
    {
        let head = match read_head(bytes, 0) {
            Some(head) => head,
            None => {
                return Err(HashMapError::BadBlock);
            },
        };
        if head.kind != KIND_MAP || head.arg != 3 {
            return Err(HashMapError::BadBlock);
        }
        let mut node: Option<MapBlock> = None;
        let mut hash_alg: Option<u64> = None;
        let mut fanout: Option<u64> = None;
        let ghost start = RootFields { node: None, hash_alg: None, fanout: None };
        let ghost mut fields = start;
        let mut at: usize = head.next;
        let mut left: usize = 3;
        while left > 0
            invariant
                left <= 3,
                spec_read_head(bytes@, 0) == Some(head@),
                head.kind == KIND_MAP && head.arg == 3,
                start == (RootFields { node: None, hash_alg: None, fanout: None }),
                fields.node == match node {
                    Some(block) => Some(block@),
                    None => None::<Seq<BlockSlot>>,
                },
                fields.hash_alg == hash_alg,
                fields.fanout == fanout,
                spec_parse_entries(bytes@, head.next as int, 3, start) == spec_parse_entries(
                    bytes@,
                    at as int,
                    left as nat,
                    fields,
                ),
            decreases left,
        {
            match parse_entry(
                bytes,
                at,
                node.is_some(),
                hash_alg.is_some(),
                fanout.is_some(),
                Ghost(fields),
            ) {
                Some((entry, next)) => {
                    proof {
                        fields = spec_with_entry(fields, entry);
                    }
                    match entry {
                        RootEntry::Node(block) => {
                            node = Some(block);
                        },
                        RootEntry::HashAlg(code) => {
                            hash_alg = Some(code);
                        },
                        RootEntry::Fanout(slots) => {
                            fanout = Some(slots);
                        },
                    }
                    at = next;
                },
                None => {
                    proof {
                        assert(spec_parse_entries(bytes@, at as int, left as nat, fields) is None);
                    }
                    return Err(HashMapError::BadBlock);
                },
            }
            left = left - 1;
        }
        if at != bytes.len() {
            return Err(HashMapError::BadBlock);
        }
        let root = match node {
            Some(block) => block,
            None => {
                return Err(HashMapError::BadBlock);
            },
        };
        match hash_alg {
            Some(code) => {
                if code != SHA2_256_CODE {
                    return Err(HashMapError::BadBlock);
                }
            },
            None => {
                return Err(HashMapError::BadBlock);
            },
        }
        let slots = root.elements.len();
        let width: usize = if slots == 8 {
            3
        } else if slots == 16 {
            4
        } else if slots == 32 {
            5
        } else if slots == 64 {
            6
        } else if slots == 128 {
            7
        } else if slots == 256 {
            8
        } else {
            return Err(HashMapError::BadBlock);
        };
        Ok(RootMapBlock { root, hash_alg: SHA2_256_CODE, width })
    }

    /// What the root node tells about `key`: the first step of looking it up. Where the
    /// answer is to descend, the lookup goes on in the block of the child, at depth one, with
    /// the same digest.
    pub fn get_key(&self, key: &[u8]) -> (step: Result<Lookup, HashMapError>)
        ensures
            spec_step_view(step) == spec_lookup_step(
                self@.slots,
                key@,
                spec_sha2_256(key@),
                0,
                self@.width,
            ),
    {
        proof {
            use_type_invariant(self);
        }
        let digest = sha2_256(key);
        self.root.get_key(key, digest.as_slice(), 0, self.width)
    }
}

/// What a walk through the given blocks tells about a key, from the node `slots` at `depth`
/// down: what the node tells, and where that is to descend, what the walk tells from the
/// child on, whose block must be among the blocks and be the block of a node.
pub open spec fn spec_walk(
    blocks: Map<Seq<u8>, Seq<u8>>,
    slots: Seq<BlockSlot>,
    key: Seq<u8>,
    digest: Seq<u8>,
    depth: nat,
    width: nat,
) -> Result<Option<Seq<u8>>, HashMapError>
    decreases 256 - depth,
{
    if width == 0 || depth >= 256 {
        Err(HashMapError::BadDigest)
    } else {
        match spec_lookup_step(slots, key, digest, depth, width) {
            Err(error) => Err(error),
            Ok(LookupModel::Found(value)) => Ok(Some(value)),
            Ok(LookupModel::Missing) => Ok(None),
            Ok(LookupModel::Descend(child)) => if blocks.contains_key(child) {
                match spec_decode_block(blocks[child]) {
                    Some(next) => spec_walk(blocks, next, key, digest, depth + 1, width),
                    None => Err(HashMapError::BadBlock),
                }
            } else {
                Err(HashMapError::BadBlock)
            },
        }
    }
}

/// What the tree with the given root block, among the given blocks, holds for a key.
pub open spec fn spec_lookup(blocks: Map<Seq<u8>, Seq<u8>>, root: Seq<u8>, key: Seq<u8>) -> Result<
    Option<Seq<u8>>,
    HashMapError,
> {
    if blocks.contains_key(root) {
        match spec_decode_root(blocks[root]) {
            Some(top) => spec_walk(blocks, top.slots, key, spec_sha2_256(key), 0, top.width),
            None => Err(HashMapError::BadBlock),
        }
    } else {
        Err(HashMapError::BadBlock)
    }
}

/// The outcome of a lookup as a plain value.
pub open spec fn spec_found_view(found: Result<Option<Cid>, HashMapError>) -> Result<
    Option<Seq<u8>>,
    HashMapError,
> {
    match found {
        Ok(Some(cid)) => Ok(Some(cid@)),
        Ok(None) => Ok(None),
        Err(error) => Err(error),
    }
}

/// Looks `key` up in the tree whose root block `store` keeps under `root`, by walking from
/// block to block. A block that the store does not keep, or that is not the block of a
/// node, ends the walk with an error.
pub fn lookup<S: CidStore>(store: &S, root: &Cid, key: &[u8]) -> (found: Result<
    Option<Cid>,
    HashMapError,
>)
    ensures
        spec_found_view(found) == spec_lookup(spec_held(store.written()), root@, key@),
{
    let bytes = match store.get(root) {
        Some(bytes) => bytes,
        None => {
            return Err(HashMapError::BadBlock);
        },
    };
    let top = match RootMapBlock::decode(bytes.as_slice()) {
        Ok(top) => top,
        Err(error) => {
            return Err(error);
        },
    };
    let width = top.width();
    let digest = sha2_256(key);
    let ghost blocks = spec_held(store.written());
    let ghost start = top@.slots;
    let mut block = top.root;
    let mut depth: usize = 0;
    loop
        invariant
            3 <= width <= 8,
            depth <= 256,
            blocks == spec_held(store.written()),
            spec_lookup(blocks, root@, key@) == spec_walk(
                blocks,
                block@,
                key@,
                digest@,
                depth as nat,
                width as nat,
            ),
        decreases 256 - depth,
    {
        if depth >= 256 {
            return Err(HashMapError::BadDigest);
        }
        match block.get_key(key, digest.as_slice(), depth, width) {
            Err(error) => {
                return Err(error);
            },
            Ok(Lookup::Found(cid)) => {
                return Ok(Some(cid));
            },
            Ok(Lookup::Missing) => {
                return Ok(None);
            },
            Ok(Lookup::Descend(child)) => {
                let bytes = match store.get(&child) {
                    Some(bytes) => bytes,
                    None => {
                        return Err(HashMapError::BadBlock);
                    },
                };
                match MapBlock::decode(bytes.as_slice()) {
                    Ok(next) => {
                        block = next;
                        depth = depth + 1;
                    },
                    Err(error) => {
                        return Err(error);
                    },
                }
            },
        }
    }
}

} // verus!
