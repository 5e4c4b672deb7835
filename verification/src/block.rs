//! Node blocks: a node whose children are known by their identifiers, and its bytes.

use vstd::prelude::*;
use vstd::string::StringSliceAdditionalSpecFns;
use crate::bits::{lemma_fanout_monotonic, spec_fanout, spec_to_int};
use crate::cbor::{
    put_array, put_bytes, put_map, put_str, put_tag, put_u64, spec_head, KIND_ARRAY, KIND_BYTES,
    KIND_MAP, KIND_TAG, KIND_TEXT, KIND_UNSIGNED, TAG_CID,
};
use crate::cid::{spec_cid_bytes, Cid};

verus! {

/// One pair of a bucket in a block: the key and the digest of the value's identifier.
pub struct PairModel {
    pub key: Seq<u8>,
    pub value: Seq<u8>,
}

/// What a slot of a block holds: nothing, the digest of a child's identifier, or a bucket.
pub enum BlockSlot {
    Empty,
    Link(Seq<u8>),
    Bucket(Seq<PairModel>),
}

/// The encoding of a link to the block whose identifier has the given digest: the tag for
/// identifiers, then a byte string of a zero byte and the identifier's binary form.
pub open spec fn spec_encode_link(digest: Seq<u8>) -> Seq<u8> {
    spec_head(KIND_TAG, TAG_CID) + spec_head(KIND_BYTES, 37) + seq![0u8] + spec_cid_bytes(digest)
}

/// The encoding of a pair: an array of the key and the link to the value.
pub open spec fn spec_encode_pair(pair: PairModel) -> Seq<u8> {
    spec_head(KIND_ARRAY, 2) + spec_head(KIND_BYTES, pair.key.len() as u64) + pair.key
        + spec_encode_link(pair.value)
}

/// The encodings of the pairs of a bucket, one after the other.
pub open spec fn spec_encode_pairs(pairs: Seq<PairModel>) -> Seq<u8>
    decreases pairs.len(),
{
    if pairs.len() == 0 {
        Seq::empty()
    } else {
        spec_encode_pairs(pairs.drop_last()) + spec_encode_pair(pairs.last())
    }
}

/// The encoding of what a slot holds; an empty slot has none.
pub open spec fn spec_encode_slot(slot: BlockSlot) -> Seq<u8> {
    match slot {
        BlockSlot::Empty => Seq::empty(),
        BlockSlot::Link(digest) => spec_encode_link(digest),
        BlockSlot::Bucket(pairs) => spec_head(KIND_ARRAY, pairs.len() as u64) + spec_encode_pairs(
            pairs,
        ),
    }
}

/// The encodings of the occupied slots, in slot order.
pub open spec fn spec_encode_slots(slots: Seq<BlockSlot>) -> Seq<u8>
    decreases slots.len(),
{
    if slots.len() == 0 {
        Seq::empty()
    } else {
        spec_encode_slots(slots.drop_last()) + spec_encode_slot(slots.last())
    }
}

/// The number of occupied slots.
pub open spec fn spec_occupied(slots: Seq<BlockSlot>) -> nat
    decreases slots.len(),
{
    if slots.len() == 0 {
        0
    } else {
        spec_occupied(slots.drop_last()) + if slots.last() is Empty {
            0nat
        } else {
            1nat
        }
    }
}

/// Whether slot `i` exists and is occupied.
pub open spec fn spec_occupied_at(slots: Seq<BlockSlot>, i: int) -> bool {
    0 <= i < slots.len() && !(slots[i] is Empty)
}

/// The number of bytes of the bitmap of `slots` slots.
pub open spec fn spec_bitmap_len(slots: nat) -> nat {
    ((slots + 7) / 8) as nat
}

/// Byte `j` of the bitmap: one bit for each of eight slots, the first in the most
/// significant bit, set where the slot is occupied.
pub open spec fn spec_bitmap_byte(slots: Seq<BlockSlot>, j: int) -> u8 {
    spec_to_int(Seq::new(8, |t: int| spec_occupied_at(slots, 8 * j + t))) as u8
}

/// The bitmap of a block.
pub open spec fn spec_bitmap(slots: Seq<BlockSlot>) -> Seq<u8> {
    Seq::new(spec_bitmap_len(slots.len()), |j: int| spec_bitmap_byte(slots, j))
}

/// The bytes of a node block: an array of the bitmap and of the array of what the occupied
/// slots hold.
pub open spec fn spec_encode_block(slots: Seq<BlockSlot>) -> Seq<u8> {
    spec_head(KIND_ARRAY, 2) + spec_head(KIND_BYTES, spec_bitmap_len(slots.len()) as u64)
        + spec_bitmap(slots) + spec_head(KIND_ARRAY, spec_occupied(slots) as u64)
        + spec_encode_slots(slots)
}

/// The encoding of a text with the given bytes.
pub open spec fn spec_encode_text(text: Seq<u8>) -> Seq<u8> {
    spec_head(KIND_TEXT, text.len() as u64) + text
}

/// The name of the entry of a root block that holds the root node: `hamt`.
pub open spec fn spec_name_hamt() -> Seq<u8> {
    seq![0x68u8, 0x61u8, 0x6du8, 0x74u8]
}

/// The name of the entry of a root block that holds the code of the hash: `hashAlg`.
pub open spec fn spec_name_hash_alg() -> Seq<u8> {
    seq![0x68u8, 0x61u8, 0x73u8, 0x68u8, 0x41u8, 0x6cu8, 0x67u8]
}

/// The name of the entry of a root block that holds the number of slots of a node:
/// `bucketSize`.
pub open spec fn spec_name_bucket_size() -> Seq<u8> {
    seq![0x62u8, 0x75u8, 0x63u8, 0x6bu8, 0x65u8, 0x74u8, 0x53u8, 0x69u8, 0x7au8, 0x65u8]
}

/// The bytes of a root block: a map of three entries, the root node under `hamt`, the code
/// of the hash under `hashAlg`, and the number of slots of a node under `bucketSize`.
pub open spec fn spec_encode_root(slots: Seq<BlockSlot>, hash_alg: u64, fanout: u64) -> Seq<u8> {
    spec_head(KIND_MAP, 3) + spec_encode_text(spec_name_hamt()) + spec_encode_block(slots)
        + spec_encode_text(spec_name_hash_alg()) + spec_head(KIND_UNSIGNED, hash_alg)
        + spec_encode_text(spec_name_bucket_size()) + spec_head(KIND_UNSIGNED, fanout)
}

/// No more slots are occupied than there are.
pub proof fn lemma_occupied_bound(slots: Seq<BlockSlot>)
    ensures
        spec_occupied(slots) <= slots.len(),
    decreases slots.len(),
{
    if slots.len() > 0 {
        lemma_occupied_bound(slots.drop_last());
    }
}

/// One pair of a bucket in a block.
#[derive(Debug)]
pub struct Pair {
    pub key: Vec<u8>,
    pub value: Cid,
}

/// What an occupied slot of a block holds: the identifier of a child, or a bucket.
#[derive(Debug)]
pub enum BlockElement {
    Node(Cid),
    Bucket(Vec<Pair>),
}

/// A node as it stands in a block: its children are known by their identifiers.
#[derive(Debug)]
pub struct MapBlock {
    pub elements: Vec<Option<BlockElement>>,
}

impl View for Pair {
    type V = PairModel;

    open spec fn view(&self) -> PairModel {
        PairModel { key: self.key@, value: self.value@ }
    }
}

/// The model of a bucket of a block.
pub open spec fn spec_pairs_view(pairs: Seq<Pair>) -> Seq<PairModel> {
    Seq::new(pairs.len(), |j: int| pairs[j]@)
}

/// The model of a slot of a block.
pub open spec fn spec_slot_view(element: Option<BlockElement>) -> BlockSlot {
    match element {
        None => BlockSlot::Empty,
        Some(BlockElement::Node(cid)) => BlockSlot::Link(cid@),
        Some(BlockElement::Bucket(pairs)) => BlockSlot::Bucket(spec_pairs_view(pairs@)),
    }
}

impl View for MapBlock {
    type V = Seq<BlockSlot>;

    open spec fn view(&self) -> Seq<BlockSlot> {
        Seq::new(self.elements@.len(), |i: int| spec_slot_view(self.elements@[i]))
    }
}

/// Appends the link to the block that `cid` identifies.
pub fn encode_link(out: &mut Vec<u8>, cid: &Cid)
    ensures
        final(out)@ == old(out)@ + spec_encode_link(cid@),
{
    put_tag(out, TAG_CID);
    let mut bytes: Vec<u8> = Vec::new();
    bytes.push(0);
    let mut binary = cid.to_bytes();
    bytes.append(&mut binary);
    assert(bytes@ =~= seq![0u8] + spec_cid_bytes(cid@));
    put_bytes(out, bytes.as_slice());
    assert(out@ =~= old(out)@ + spec_encode_link(cid@));
}

/// Appends a bucket: an array of its pairs.
pub fn encode_bucket(out: &mut Vec<u8>, pairs: &Vec<Pair>)
    ensures
        final(out)@ == old(out)@ + spec_encode_slot(
            BlockSlot::Bucket(spec_pairs_view(pairs@)),
        ),
{
    let ghost model = spec_pairs_view(pairs@);
    put_array(out, pairs.len() as u64);
    let ghost start = out@;
    let mut j: usize = 0;
    while j < pairs.len()
        invariant
            j <= pairs@.len(),
            model == spec_pairs_view(pairs@),
            out@ == start + spec_encode_pairs(model.take(j as int)),
        decreases pairs@.len() - j,
    {
        let ghost so_far = out@;
        put_array(out, 2);
        put_bytes(out, pairs[j].key.as_slice());
        encode_link(out, &pairs[j].value);
        proof {
            assert(model.take(j + 1).drop_last() =~= model.take(j as int));
            assert(model.take(j + 1).last() == pairs@[j as int]@);
            assert(out@ =~= so_far + spec_encode_pair(pairs@[j as int]@));
        }
        j = j + 1;
    }
    proof {
        assert(model.take(j as int) =~= model);
        assert(out@ =~= old(out)@ + spec_encode_slot(BlockSlot::Bucket(model)));
    }
}

impl MapBlock {
    /// The number of bytes of the bitmap.
    pub fn bitmap_len(&self) -> (len: usize)
        ensures
            len == spec_bitmap_len(self@.len()),
    {
        let n = self.elements.len();
        if n % 8 == 0 {
            n / 8
        } else {
            n / 8 + 1
        }
    }

    /// The bitmap: one bit for each slot, the first slot in the most significant bit of the
    /// first byte, set where the slot is occupied.
    pub fn bitmap(&self) -> (map: Vec<u8>)
        ensures
            map@ == spec_bitmap(self@),
    {
        let n = self.elements.len();
        let count = self.bitmap_len();
        let mut map: Vec<u8> = Vec::new();
        let mut j: usize = 0;
        while j < count
            invariant
                j <= count,
                n == self.elements@.len(),
                count == spec_bitmap_len(self@.len()),
                map@.len() == j,
                forall|k: int| 0 <= k < j ==> map@[k] == spec_bitmap_byte(self@, k),
            decreases count - j,
        {
            let ghost bits = Seq::new(8, |t: int| spec_occupied_at(self@, 8 * j + t));
            let mut acc: usize = 0;
            let mut t: usize = 0;
            while t < 8
                invariant
                    t <= 8,
                    j < count,
                    n == self.elements@.len(),
                    count == spec_bitmap_len(self@.len()),
                    bits == Seq::new(8, |t: int| spec_occupied_at(self@, 8 * j + t)),
                    acc == spec_to_int(bits.take(t as int)),
                    acc < spec_fanout(t as nat),
                decreases 8 - t,
            {
                let i: usize = 8 * j + t;
                let bit: bool = i < n && self.elements[i].is_some();
                proof {
                    assert(bits.take(t + 1).drop_last() =~= bits.take(t as int));
                    assert(bits.take(t + 1).last() == bit);
                    lemma_fanout_monotonic(t as nat, 8);
                    reveal_with_fuel(spec_fanout, 9);
                }
                if bit {
                    acc = 2 * acc + 1;
                } else {
                    acc = 2 * acc;
                }
                t = t + 1;
            }
            proof {
                assert(bits.take(8) =~= bits);
                reveal_with_fuel(spec_fanout, 9);
            }
            map.push(acc as u8);
            j = j + 1;
        }
        proof {
            assert(map@ =~= spec_bitmap(self@));
        }
        map
    }

    /// The number of occupied slots.
    pub fn occupied(&self) -> (count: usize)
        ensures
            count == spec_occupied(self@),
    {
        let mut count: usize = 0;
        let mut i: usize = 0;
        while i < self.elements.len()
            invariant
                i <= self.elements@.len(),
                count == spec_occupied(self@.take(i as int)),
                count <= i,
            decreases self.elements@.len() - i,
        {
            proof {
                assert(self@.take(i + 1).drop_last() =~= self@.take(i as int));
            }
            if self.elements[i].is_some() {
                count = count + 1;
            }
            i = i + 1;
        }
        proof {
            assert(self@.take(i as int) =~= self@);
        }
        count
    }

    /// Appends the bytes of the block.
    pub fn encode_into(&self, out: &mut Vec<u8>)
        ensures
            final(out)@ == old(out)@ + spec_encode_block(self@),
    {
        put_array(out, 2);
        let map = self.bitmap();
        put_bytes(out, map.as_slice());
        put_array(out, self.occupied() as u64);
        let ghost start = out@;
        let mut i: usize = 0;
        while i < self.elements.len()
            invariant
                i <= self.elements@.len(),
                out@ == start + spec_encode_slots(self@.take(i as int)),
            decreases self.elements@.len() - i,
        {
            let ghost so_far = out@;
            match &self.elements[i] {
                None => {},
                Some(BlockElement::Node(cid)) => {
                    encode_link(out, cid);
                },
                Some(BlockElement::Bucket(pairs)) => {
                    encode_bucket(out, pairs);
                },
            }
            proof {
                assert(self@.take(i + 1).drop_last() =~= self@.take(i as int));
                assert(self@.take(i + 1).last() == spec_slot_view(self.elements@[i as int]));
                assert(out@ =~= so_far + spec_encode_slot(self@[i as int]));
            }
            i = i + 1;
        }
        proof {
            assert(self@.take(i as int) =~= self@);
            assert(out@ =~= old(out)@ + spec_encode_block(self@));
        }
    }

    /// The bytes of the root block that holds this node as the root of a tree.
    pub fn encode_root(&self, hash_alg: u64, fanout: u64) -> (bytes: Vec<u8>)
        ensures
            bytes@ == spec_encode_root(self@, hash_alg, fanout),
    {
        let mut bytes: Vec<u8> = Vec::new();
        proof {
            reveal_strlit("hamt");
            reveal_strlit("hashAlg");
            reveal_strlit("bucketSize");
            vstd::string::is_ascii_spec_bytes("hamt");
            vstd::string::is_ascii_spec_bytes("hashAlg");
            vstd::string::is_ascii_spec_bytes("bucketSize");
            assert("hamt".spec_bytes() =~= spec_name_hamt());
            assert("hashAlg".spec_bytes() =~= spec_name_hash_alg());
            assert("bucketSize".spec_bytes() =~= spec_name_bucket_size());
        }
        put_map(&mut bytes, 3);
        put_str(&mut bytes, "hamt");
        self.encode_into(&mut bytes);
        put_str(&mut bytes, "hashAlg");
        put_u64(&mut bytes, hash_alg);
        put_str(&mut bytes, "bucketSize");
        put_u64(&mut bytes, fanout);
        assert(bytes@ =~= spec_encode_root(self@, hash_alg, fanout));
        bytes
    }

    /// The bytes of the block.
    pub fn encode(&self) -> (bytes: Vec<u8>)
        ensures
            bytes@ == spec_encode_block(self@),
    {
        let mut bytes: Vec<u8> = Vec::new();
        self.encode_into(&mut bytes);
        assert(bytes@ =~= spec_encode_block(self@));
        bytes
    }
}

} // verus!
