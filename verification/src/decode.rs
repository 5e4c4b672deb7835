//! Reading node blocks and root blocks back from their bytes.

use vstd::prelude::*;
use crate::bits::{spec_bit, spec_to_int};
use crate::block::{
    spec_bitmap, spec_bitmap_byte, spec_bitmap_len, spec_encode_block, spec_encode_link,
    spec_encode_pair, spec_encode_pairs, spec_encode_slot, spec_encode_slots, spec_occupied,
    spec_occupied_at, spec_pairs_view, spec_slot_view, BlockElement, BlockSlot, MapBlock, Pair,
    PairModel,
};
use crate::cbor::{
    lemma_head_len, lemma_read_head_at, lemma_read_head_sound, read_head, spec_head,
    spec_read_head, KIND_ARRAY, KIND_BYTES, KIND_TAG, TAG_CID,
};
use crate::cid::{spec_cid_bytes, Cid};
use crate::error::HashMapError;

verus! {

/// The link that stands at `pos`: the digest of the identifier it holds, and where it ends.
pub open spec fn spec_parse_link(bytes: Seq<u8>, pos: int) -> Option<(Seq<u8>, int)> {
    match spec_read_head(bytes, pos) {
        Some(tag) => if tag.kind == KIND_TAG && tag.arg == TAG_CID {
            match spec_read_head(bytes, tag.next) {
                Some(len) => if len.kind == KIND_BYTES && len.arg == 37 && len.next + 37
                    <= bytes.len() && bytes[len.next] == 0 && bytes[len.next + 1] == 1
                    && bytes[len.next + 2] == 0x71 && bytes[len.next + 3] == 0x12 && bytes[len.next
                    + 4] == 0x20 {
                    Some((bytes.subrange(len.next + 5, len.next + 37), len.next + 37))
                } else {
                    None
                },
                None => None,
            }
        } else {
            None
        },
        None => None,
    }
}

/// The pair that stands at `pos`, and where it ends.
pub open spec fn spec_parse_pair(bytes: Seq<u8>, pos: int) -> Option<(PairModel, int)> {
    match spec_read_head(bytes, pos) {
        Some(array) => if array.kind == KIND_ARRAY && array.arg == 2 {
            match spec_read_head(bytes, array.next) {
                Some(len) => if len.kind == KIND_BYTES && len.next + len.arg <= bytes.len() {
                    match spec_parse_link(bytes, len.next + len.arg) {
                        Some((value, next)) => Some(
                            (
                                PairModel {
                                    key: bytes.subrange(len.next, len.next + len.arg),
                                    value,
                                },
                                next,
                            ),
                        ),
                        None => None,
                    }
                } else {
                    None
                },
                None => None,
            }
        } else {
            None
        },
        None => None,
    }
}

/// The `count` pairs that stand at `pos`, behind the pairs of `done`, and where they end.
pub open spec fn spec_parse_pairs(
    bytes: Seq<u8>,
    pos: int,
    count: nat,
    done: Seq<PairModel>,
) -> Option<(Seq<PairModel>, int)>
    decreases count,
{
    if count == 0 {
        Some((done, pos))
    } else {
        match spec_parse_pair(bytes, pos) {
            Some((pair, next)) => spec_parse_pairs(
                bytes,
                next,
                (count - 1) as nat,
                done.push(pair),
            ),
            None => None,
        }
    }
}

/// What an occupied slot holds, as it stands at `pos`: a link or a bucket.
pub open spec fn spec_parse_payload(bytes: Seq<u8>, pos: int) -> Option<(BlockSlot, int)> {
    match spec_read_head(bytes, pos) {
        Some(head) => if head.kind == KIND_TAG {
            match spec_parse_link(bytes, pos) {
                Some((digest, next)) => Some((BlockSlot::Link(digest), next)),
                None => None,
            }
        } else if head.kind == KIND_ARRAY {
            match spec_parse_pairs(bytes, head.next, head.arg as nat, Seq::empty()) {
                Some((pairs, next)) => Some((BlockSlot::Bucket(pairs), next)),
                None => None,
            }
        } else {
            None
        },
        None => None,
    }
}

/// The slots from `from` on, as the bitmap says which are occupied and as what they hold
/// stands at `pos`, behind the slots of `done`.
pub open spec fn spec_parse_slots(
    bytes: Seq<u8>,
    pos: int,
    bitmap: Seq<u8>,
    from: nat,
    done: Seq<BlockSlot>,
) -> Option<(Seq<BlockSlot>, int)>
    decreases 8 * bitmap.len() - from,
{
    if from >= 8 * bitmap.len() {
        Some((done, pos))
    } else if spec_bit(bitmap, from as int) {
        match spec_parse_payload(bytes, pos) {
            Some((slot, next)) => spec_parse_slots(bytes, next, bitmap, from + 1, done.push(slot)),
            None => None,
        }
    } else {
        spec_parse_slots(bytes, pos, bitmap, from + 1, done.push(BlockSlot::Empty))
    }
}

/// The node that stands at `pos`, and where it ends: an array of the bitmap and of an array
/// with one item for each bit that is set.
pub open spec fn spec_parse_block(bytes: Seq<u8>, pos: int) -> Option<(Seq<BlockSlot>, int)> {
    match spec_read_head(bytes, pos) {
        Some(outer) => if outer.kind == KIND_ARRAY && outer.arg == 2 {
            match spec_read_head(bytes, outer.next) {
                Some(map) => if map.kind == KIND_BYTES && map.next + map.arg <= bytes.len() {
                    let bitmap = bytes.subrange(map.next, map.next + map.arg);
                    match spec_read_head(bytes, map.next + map.arg) {
                        Some(data) => if data.kind == KIND_ARRAY {
                            match spec_parse_slots(bytes, data.next, bitmap, 0, Seq::empty()) {
                                Some((slots, next)) => if spec_occupied(slots) == data.arg {
                                    Some((slots, next))
                                } else {
                                    None
                                },
                                None => None,
                            }
                        } else {
                            None
                        },
                        None => None,
                    }
                } else {
                    None
                },
                None => None,
            }
        } else {
            None
        },
        None => None,
    }
}

/// The node that the bytes are the block of, if they are one.
pub open spec fn spec_decode_block(bytes: Seq<u8>) -> Option<Seq<BlockSlot>> {
    match spec_parse_block(bytes, 0) {
        Some((slots, next)) => if next == bytes.len() {
            Some(slots)
        } else {
            None
        },
        None => None,
    }
}

/// A link that is read is the encoding of a link to the identifier read.
pub proof fn lemma_parse_link_sound(bytes: Seq<u8>, pos: int)
    requires
        spec_parse_link(bytes, pos) is Some,
    ensures
        ({
            let (digest, next) = spec_parse_link(bytes, pos)->0;
            &&& pos < next <= bytes.len()
            &&& digest.len() == 32
            &&& bytes.subrange(pos, next) == spec_encode_link(digest)
        }),
{
    let (digest, next) = spec_parse_link(bytes, pos)->0;
    let tag = spec_read_head(bytes, pos)->0;
    let len = spec_read_head(bytes, tag.next)->0;
    lemma_read_head_sound(bytes, pos);
    lemma_read_head_sound(bytes, tag.next);
    assert(bytes.subrange(pos, next) =~= bytes.subrange(pos, tag.next) + bytes.subrange(
        tag.next,
        len.next,
    ) + seq![0u8] + spec_cid_bytes(digest));
}

/// A pair that is read is the encoding of the pair read.
pub proof fn lemma_parse_pair_sound(bytes: Seq<u8>, pos: int)
    requires
        spec_parse_pair(bytes, pos) is Some,
    ensures
        ({
            let (pair, next) = spec_parse_pair(bytes, pos)->0;
            &&& pos < next <= bytes.len()
            &&& bytes.subrange(pos, next) == spec_encode_pair(pair)
        }),
{
    let (pair, next) = spec_parse_pair(bytes, pos)->0;
    let array = spec_read_head(bytes, pos)->0;
    let len = spec_read_head(bytes, array.next)->0;
    lemma_read_head_sound(bytes, pos);
    lemma_read_head_sound(bytes, array.next);
    lemma_parse_link_sound(bytes, len.next + len.arg);
    assert(pair.key.len() == len.arg);
    assert(bytes.subrange(pos, next) =~= bytes.subrange(pos, array.next) + bytes.subrange(
        array.next,
        len.next,
    ) + pair.key + bytes.subrange(len.next + len.arg, next));
}

/// Pairs that are read behind pairs that were read are the encoding of them all.
pub proof fn lemma_parse_pairs_sound(
    bytes: Seq<u8>,
    pos: int,
    count: nat,
    done: Seq<PairModel>,
    start: int,
)
    requires
        0 <= start <= pos <= bytes.len(),
        bytes.subrange(start, pos) == spec_encode_pairs(done),
        spec_parse_pairs(bytes, pos, count, done) is Some,
    ensures
        ({
            let (pairs, next) = spec_parse_pairs(bytes, pos, count, done)->0;
            &&& pos <= next <= bytes.len()
            &&& pairs.len() == done.len() + count
            &&& bytes.subrange(start, next) == spec_encode_pairs(pairs)
        }),
    decreases count,
{
    if count > 0 {
        let (pair, next) = spec_parse_pair(bytes, pos)->0;
        lemma_parse_pair_sound(bytes, pos);
        let more = done.push(pair);
        assert(more.drop_last() =~= done);
        assert(bytes.subrange(start, next) =~= bytes.subrange(start, pos) + bytes.subrange(
            pos,
            next,
        ));
        lemma_parse_pairs_sound(bytes, next, (count - 1) as nat, more, start);
    }
}

/// What is read for an occupied slot is the encoding of what the slot holds, and the slot
/// is not empty.
pub proof fn lemma_parse_payload_sound(bytes: Seq<u8>, pos: int)
    requires
        spec_parse_payload(bytes, pos) is Some,
    ensures
        ({
            let (slot, next) = spec_parse_payload(bytes, pos)->0;
            &&& pos < next <= bytes.len()
            &&& !(slot is Empty)
            &&& bytes.subrange(pos, next) == spec_encode_slot(slot)
        }),
{
    let (slot, next) = spec_parse_payload(bytes, pos)->0;
    let head = spec_read_head(bytes, pos)->0;
    lemma_read_head_sound(bytes, pos);
    if head.kind == KIND_TAG {
        lemma_parse_link_sound(bytes, pos);
    } else {
        assert(bytes.subrange(head.next, head.next) =~= spec_encode_pairs(Seq::empty()));
        lemma_parse_pairs_sound(bytes, head.next, head.arg as nat, Seq::empty(), head.next);
        assert(bytes.subrange(pos, next) =~= bytes.subrange(pos, head.next) + bytes.subrange(
            head.next,
            next,
        ));
    }
}

/// Slots that are read behind slots that were read are the encoding of them all, and are
/// occupied where the bitmap has a bit set.
pub proof fn lemma_parse_slots_sound(
    bytes: Seq<u8>,
    pos: int,
    bitmap: Seq<u8>,
    from: nat,
    done: Seq<BlockSlot>,
    start: int,
)
    requires
        0 <= start <= pos <= bytes.len(),
        from <= 8 * bitmap.len(),
        done.len() == from,
        bytes.subrange(start, pos) == spec_encode_slots(done),
        forall|i: int| 0 <= i < from ==> !(#[trigger] done[i] is Empty) == spec_bit(bitmap, i),
        spec_parse_slots(bytes, pos, bitmap, from, done) is Some,
    ensures
        ({
            let (slots, next) = spec_parse_slots(bytes, pos, bitmap, from, done)->0;
            &&& pos <= next <= bytes.len()
            &&& slots.len() == 8 * bitmap.len()
            &&& bytes.subrange(start, next) == spec_encode_slots(slots)
            &&& forall|i: int|
                0 <= i < slots.len() ==> !(#[trigger] slots[i] is Empty) == spec_bit(bitmap, i)
        }),
    decreases 8 * bitmap.len() - from,
{
    if from < 8 * bitmap.len() {
        if spec_bit(bitmap, from as int) {
            let (slot, next) = spec_parse_payload(bytes, pos)->0;
            lemma_parse_payload_sound(bytes, pos);
            let more = done.push(slot);
            assert(more.drop_last() =~= done);
            assert(bytes.subrange(start, next) =~= bytes.subrange(start, pos) + bytes.subrange(
                pos,
                next,
            ));
            lemma_parse_slots_sound(bytes, next, bitmap, from + 1, more, start);
        } else {
            let more = done.push(BlockSlot::Empty);
            assert(more.drop_last() =~= done);
            assert(spec_encode_slots(more) =~= spec_encode_slots(done));
            lemma_parse_slots_sound(bytes, pos, bitmap, from + 1, more, start);
        }
    }
}

/// One for a bit that is set, zero for one that is not.
pub open spec fn spec_bit_value(bit: bool) -> int {
    if bit {
        1
    } else {
        0
    }
}

/// The value of eight bits is the sum of their weights.
pub proof fn lemma_to_int_8(bits: Seq<bool>)
    requires
        bits.len() == 8,
    ensures
        spec_to_int(bits) == 128 * spec_bit_value(bits[0]) + 64 * spec_bit_value(bits[1]) + 32
            * spec_bit_value(bits[2]) + 16 * spec_bit_value(bits[3]) + 8 * spec_bit_value(bits[4])
            + 4 * spec_bit_value(bits[5]) + 2 * spec_bit_value(bits[6]) + spec_bit_value(bits[7]),
{
    assert(bits.take(0) =~= Seq::<bool>::empty());
    assert(bits.take(1).drop_last() =~= bits.take(0));
    assert(bits.take(2).drop_last() =~= bits.take(1));
    assert(bits.take(3).drop_last() =~= bits.take(2));
    assert(bits.take(4).drop_last() =~= bits.take(3));
    assert(bits.take(5).drop_last() =~= bits.take(4));
    assert(bits.take(6).drop_last() =~= bits.take(5));
    assert(bits.take(7).drop_last() =~= bits.take(6));
    assert(bits.take(8).drop_last() =~= bits.take(7));
    assert(bits.take(8) =~= bits);
    assert(bits.take(1).last() == bits[0]);
    assert(bits.take(2).last() == bits[1]);
    assert(bits.take(3).last() == bits[2]);
    assert(bits.take(4).last() == bits[3]);
    assert(bits.take(5).last() == bits[4]);
    assert(bits.take(6).last() == bits[5]);
    assert(bits.take(7).last() == bits[6]);
    assert(bits.take(8).last() == bits[7]);
    let v0 = spec_to_int(bits.take(0));
    let v1 = spec_to_int(bits.take(1));
    let v2 = spec_to_int(bits.take(2));
    let v3 = spec_to_int(bits.take(3));
    let v4 = spec_to_int(bits.take(4));
    let v5 = spec_to_int(bits.take(5));
    let v6 = spec_to_int(bits.take(6));
    let v7 = spec_to_int(bits.take(7));
    let v8 = spec_to_int(bits.take(8));
    assert(v0 == 0);
    assert(v1 == 2 * v0 + spec_bit_value(bits[0]));
    assert(v2 == 2 * v1 + spec_bit_value(bits[1]));
    assert(v3 == 2 * v2 + spec_bit_value(bits[2]));
    assert(v4 == 2 * v3 + spec_bit_value(bits[3]));
    assert(v5 == 2 * v4 + spec_bit_value(bits[4]));
    assert(v6 == 2 * v5 + spec_bit_value(bits[5]));
    assert(v7 == 2 * v6 + spec_bit_value(bits[6]));
    assert(v8 == 2 * v7 + spec_bit_value(bits[7]));
}

/// The bits of a byte that is the sum of the weights of eight bits are those bits.
proof fn lemma_byte_bits(b0: u8, b1: u8, b2: u8, b3: u8, b4: u8, b5: u8, b6: u8, b7: u8, x: u8)
    by (bit_vector)
    requires
        b0 <= 1 && b1 <= 1 && b2 <= 1 && b3 <= 1 && b4 <= 1 && b5 <= 1 && b6 <= 1 && b7 <= 1,
        x == 128 * b0 + 64 * b1 + 32 * b2 + 16 * b3 + 8 * b4 + 4 * b5 + 2 * b6 + b7,
    ensures
        (x >> 7u8) & 1 == b0,
        (x >> 6u8) & 1 == b1,
        (x >> 5u8) & 1 == b2,
        (x >> 4u8) & 1 == b3,
        (x >> 3u8) & 1 == b4,
        (x >> 2u8) & 1 == b5,
        (x >> 1u8) & 1 == b6,
        (x >> 0u8) & 1 == b7,
{
}

/// A byte is the sum of the weights of its bits.
proof fn lemma_byte_sum(x: u8)
    by (bit_vector)
    ensures
        x == 128 * ((x >> 7u8) & 1) + 64 * ((x >> 6u8) & 1) + 32 * ((x >> 5u8) & 1) + 16 * ((x
            >> 4u8) & 1) + 8 * ((x >> 3u8) & 1) + 4 * ((x >> 2u8) & 1) + 2 * ((x >> 1u8) & 1) + ((x
            >> 0u8) & 1),
        (x >> 7u8) & 1 <= 1,
        (x >> 6u8) & 1 <= 1,
        (x >> 5u8) & 1 <= 1,
        (x >> 4u8) & 1 <= 1,
        (x >> 3u8) & 1 <= 1,
        (x >> 2u8) & 1 <= 1,
        (x >> 1u8) & 1 <= 1,
        (x >> 0u8) & 1 <= 1,
{
}

/// The bits of the byte that eight bits stand for are those bits.
pub proof fn lemma_bits_of_byte(bits: Seq<bool>, t: int)
    requires
        bits.len() == 8,
        0 <= t < 8,
    ensures
        spec_to_int(bits) < 256,
        ((spec_to_int(bits) as u8) >> ((7 - t) as u8)) & 1 == 1 <==> bits[t],
{
    lemma_to_int_8(bits);
    let b0 = spec_bit_value(bits[0]) as u8;
    let b1 = spec_bit_value(bits[1]) as u8;
    let b2 = spec_bit_value(bits[2]) as u8;
    let b3 = spec_bit_value(bits[3]) as u8;
    let b4 = spec_bit_value(bits[4]) as u8;
    let b5 = spec_bit_value(bits[5]) as u8;
    let b6 = spec_bit_value(bits[6]) as u8;
    let b7 = spec_bit_value(bits[7]) as u8;
    let x = spec_to_int(bits) as u8;
    lemma_byte_bits(b0, b1, b2, b3, b4, b5, b6, b7, x);
}

/// A byte is the value of its eight bits read from the most significant.
pub proof fn lemma_byte_of_bits(x: u8)
    ensures
        spec_to_int(Seq::new(8, |t: int| (x >> ((7 - t) as u8)) & 1 == 1)) == x,
{
    let bits = Seq::new(8, |t: int| (x >> ((7 - t) as u8)) & 1 == 1);
    lemma_to_int_8(bits);
    lemma_byte_sum(x);
    assert(bits[0] == ((x >> 7u8) & 1 == 1));
    assert(bits[1] == ((x >> 6u8) & 1 == 1));
    assert(bits[2] == ((x >> 5u8) & 1 == 1));
    assert(bits[3] == ((x >> 4u8) & 1 == 1));
    assert(bits[4] == ((x >> 3u8) & 1 == 1));
    assert(bits[5] == ((x >> 2u8) & 1 == 1));
    assert(bits[6] == ((x >> 1u8) & 1 == 1));
    assert(bits[7] == ((x >> 0u8) & 1 == 1));
}

/// The bitmap of a block has a bit set where a slot is occupied, and no other.
pub proof fn lemma_bits_of_bitmap(slots: Seq<BlockSlot>, i: int)
    requires
        0 <= i < 8 * spec_bitmap_len(slots.len()),
    ensures
        spec_bit(spec_bitmap(slots), i) == spec_occupied_at(slots, i),
{
    let j = i / 8;
    let t = i % 8;
    let bits = Seq::new(8, |t: int| spec_occupied_at(slots, 8 * j + t));
    lemma_bits_of_byte(bits, t);
    assert(spec_bitmap(slots)[j] == spec_bitmap_byte(slots, j));
    assert(bits[t] == spec_occupied_at(slots, i));
}

/// The bitmap of slots that are occupied where a given bitmap has a bit set is that bitmap.
pub proof fn lemma_bitmap_of_bits(slots: Seq<BlockSlot>, bitmap: Seq<u8>)
    requires
        slots.len() == 8 * bitmap.len(),
        forall|i: int|
            0 <= i < slots.len() ==> !(#[trigger] slots[i] is Empty) == spec_bit(bitmap, i),
    ensures
        spec_bitmap(slots) == bitmap,
        spec_bitmap_len(slots.len()) == bitmap.len(),
{
    assert forall|j: int| 0 <= j < bitmap.len() implies spec_bitmap_byte(slots, j)
        == bitmap[j] by {
        let x = bitmap[j];
        let have = Seq::new(8, |t: int| spec_occupied_at(slots, 8 * j + t));
        let want = Seq::new(8, |t: int| (x >> ((7 - t) as u8)) & 1 == 1);
        assert forall|t: int| 0 <= t < 8 implies have[t] == want[t] by {
            let i = 8 * j + t;
            assert(i / 8 == j && i % 8 == t);
            assert(!(slots[i] is Empty) == spec_bit(bitmap, i));
        }
        assert(have =~= want);
        lemma_byte_of_bits(x);
    }
    assert(spec_bitmap(slots) =~= bitmap);
}

/// A node that is read at `pos` is the encoding of the node read.
pub proof fn lemma_parse_block_sound(bytes: Seq<u8>, pos: int)
    requires
        spec_parse_block(bytes, pos) is Some,
    ensures
        ({
            let (slots, next) = spec_parse_block(bytes, pos)->0;
            &&& pos < next <= bytes.len()
            &&& bytes.subrange(pos, next) == spec_encode_block(slots)
        }),
{
    let (slots, next) = spec_parse_block(bytes, pos)->0;
    let outer = spec_read_head(bytes, pos)->0;
    let map = spec_read_head(bytes, outer.next)->0;
    let bitmap = bytes.subrange(map.next, map.next + map.arg);
    let data = spec_read_head(bytes, map.next + map.arg)->0;
    lemma_read_head_sound(bytes, pos);
    lemma_read_head_sound(bytes, outer.next);
    lemma_read_head_sound(bytes, map.next + map.arg);
    assert(bytes.subrange(data.next, data.next) =~= spec_encode_slots(Seq::empty()));
    lemma_parse_slots_sound(bytes, data.next, bitmap, 0, Seq::empty(), data.next);
    lemma_bitmap_of_bits(slots, bitmap);
    assert(bytes.subrange(pos, next) =~= bytes.subrange(pos, outer.next) + bytes.subrange(
        outer.next,
        map.next,
    ) + bitmap + bytes.subrange(map.next + map.arg, data.next) + bytes.subrange(
        data.next,
        next,
    ));
}

/// Block determinism: the bytes of a node that was read back from a block are the bytes of
/// that block.
pub proof fn lemma_decode_block_sound(bytes: Seq<u8>)
    requires
        spec_decode_block(bytes) is Some,
    ensures
        spec_encode_block(spec_decode_block(bytes)->0) == bytes,
{
    lemma_parse_block_sound(bytes, 0);
    assert(bytes.subrange(0, bytes.len() as int) =~= bytes);
}

/// Whether a node can stand in a block: its identifiers have digests of 32 bytes, and its
/// lengths are numbers that a head can hold.
pub open spec fn spec_block_wf(slots: Seq<BlockSlot>) -> bool {
    &&& slots.len() <= u64::MAX
    &&& forall|i: int|
        0 <= i < slots.len() ==> match #[trigger] slots[i] {
            BlockSlot::Empty => true,
            BlockSlot::Link(digest) => digest.len() == 32,
            BlockSlot::Bucket(pairs) => spec_pairs_wf(pairs),
        }
}

/// Whether a bucket can stand in a block.
pub open spec fn spec_pairs_wf(pairs: Seq<PairModel>) -> bool {
    &&& pairs.len() <= u64::MAX
    &&& forall|j: int|
        0 <= j < pairs.len() ==> (#[trigger] pairs[j]).key.len() <= u64::MAX && pairs[j].value.len()
            == 32
}

/// A node with empty slots added until their number is a multiple of eight: the node as
/// its bitmap of whole bytes shows it.
pub open spec fn spec_padded(slots: Seq<BlockSlot>) -> Seq<BlockSlot> {
    Seq::new(
        8 * spec_bitmap_len(slots.len()),
        |i: int|
            if i < slots.len() {
                slots[i]
            } else {
                BlockSlot::Empty
            },
    )
}

/// The encoding of two runs of pairs joined is the two encodings joined.
pub proof fn lemma_encode_pairs_add(first: Seq<PairModel>, second: Seq<PairModel>)
    ensures
        spec_encode_pairs(first + second) == spec_encode_pairs(first) + spec_encode_pairs(second),
    decreases second.len(),
{
    if second.len() == 0 {
        assert(first + second =~= first);
        assert(spec_encode_pairs(first) + spec_encode_pairs(second) =~= spec_encode_pairs(first));
    } else {
        assert((first + second).drop_last() =~= first + second.drop_last());
        lemma_encode_pairs_add(first, second.drop_last());
        assert(spec_encode_pairs(first + second) =~= spec_encode_pairs(first)
            + spec_encode_pairs(second));
    }
}

/// The encoding of two runs of slots joined is the two encodings joined.
pub proof fn lemma_encode_slots_add(first: Seq<BlockSlot>, second: Seq<BlockSlot>)
    ensures
        spec_encode_slots(first + second) == spec_encode_slots(first) + spec_encode_slots(second),
    decreases second.len(),
{
    if second.len() == 0 {
        assert(first + second =~= first);
        assert(spec_encode_slots(first) + spec_encode_slots(second) =~= spec_encode_slots(first));
    } else {
        assert((first + second).drop_last() =~= first + second.drop_last());
        lemma_encode_slots_add(first, second.drop_last());
        assert(spec_encode_slots(first + second) =~= spec_encode_slots(first)
            + spec_encode_slots(second));
    }
}

/// Where the encoding of a link stands at `pos`, the link is read there.
pub proof fn lemma_parse_link_complete(bytes: Seq<u8>, pos: int, digest: Seq<u8>)
    requires
        digest.len() == 32,
        0 <= pos,
        pos + spec_encode_link(digest).len() <= bytes.len(),
        bytes.subrange(pos, pos + spec_encode_link(digest).len()) == spec_encode_link(digest),
    ensures
        spec_parse_link(bytes, pos) == Some((digest, pos + spec_encode_link(digest).len())),
{
    let link = spec_encode_link(digest);
    let tag = spec_head(KIND_TAG, TAG_CID);
    let len = spec_head(KIND_BYTES, 37);
    reveal_with_fuel(crate::cbor::spec_be_bytes, 2);
    assert(tag.len() == 2 && len.len() == 2);
    assert(link.len() == 41);
    assert forall|k: int| 0 <= k < 41 implies bytes[pos + k] == link[k] by {
        assert(bytes.subrange(pos, pos + 41)[k] == bytes[pos + k]);
    }
    assert(bytes.subrange(pos, pos + 2) =~= tag) by {
        assert forall|k: int| 0 <= k < 2 implies bytes.subrange(pos, pos + 2)[k] == tag[k] by {
            assert(link[k] == tag[k]);
        }
    }
    lemma_read_head_at(bytes, pos, KIND_TAG, TAG_CID);
    assert(bytes.subrange(pos + 2, pos + 4) =~= len) by {
        assert forall|k: int| 0 <= k < 2 implies bytes.subrange(pos + 2, pos + 4)[k]
            == len[k] by {
            assert(link[2 + k] == len[k]);
        }
    }
    lemma_read_head_at(bytes, pos + 2, KIND_BYTES, 37);
    assert(link[4] == 0 && link[5] == 1 && link[6] == 0x71 && link[7] == 0x12 && link[8] == 0x20);
    assert(bytes.subrange(pos + 9, pos + 41) =~= digest) by {
        assert forall|k: int| 0 <= k < 32 implies bytes.subrange(pos + 9, pos + 41)[k]
            == digest[k] by {
            assert(link[9 + k] == digest[k]);
        }
    }
}

/// Where the encoding of a pair stands at `pos`, the pair is read there.
pub proof fn lemma_parse_pair_complete(bytes: Seq<u8>, pos: int, pair: PairModel)
    requires
        pair.key.len() <= u64::MAX,
        pair.value.len() == 32,
        0 <= pos,
        pos + spec_encode_pair(pair).len() <= bytes.len(),
        bytes.subrange(pos, pos + spec_encode_pair(pair).len()) == spec_encode_pair(pair),
    ensures
        spec_parse_pair(bytes, pos) == Some((pair, pos + spec_encode_pair(pair).len())),
{
    let whole = spec_encode_pair(pair);
    let array = spec_head(KIND_ARRAY, 2);
    let len = spec_head(KIND_BYTES, pair.key.len() as u64);
    let link = spec_encode_link(pair.value);
    lemma_head_len(KIND_BYTES, pair.key.len() as u64);
    assert(array.len() == 1);
    let a = pos + 1;
    let b = a + len.len();
    let c = b + pair.key.len();
    assert(whole.len() == 1 + len.len() + pair.key.len() + link.len());
    assert forall|k: int| 0 <= k < whole.len() implies bytes[pos + k] == whole[k] by {
        assert(bytes.subrange(pos, pos + whole.len())[k] == bytes[pos + k]);
    }
    assert(bytes.subrange(pos, a) =~= array) by {
        assert(whole[0] == array[0]);
    }
    lemma_read_head_at(bytes, pos, KIND_ARRAY, 2);
    assert(bytes.subrange(a, b) =~= len) by {
        assert forall|k: int| 0 <= k < len.len() implies bytes.subrange(a, b)[k] == len[k] by {
            assert(whole[1 + k] == len[k]);
        }
    }
    lemma_read_head_at(bytes, a, KIND_BYTES, pair.key.len() as u64);
    assert(bytes.subrange(b, c) =~= pair.key) by {
        assert forall|k: int| 0 <= k < pair.key.len() implies bytes.subrange(b, c)[k]
            == pair.key[k] by {
            assert(whole[1 + len.len() + k] == pair.key[k]);
        }
    }
    assert(bytes.subrange(c, c + link.len()) =~= link) by {
        assert forall|k: int| 0 <= k < link.len() implies bytes.subrange(c, c + link.len())[k]
            == link[k] by {
            assert(whole[1 + len.len() + pair.key.len() + k] == link[k]);
        }
    }
    lemma_parse_link_complete(bytes, c, pair.value);
}

/// Where the encoding of a bucket's pairs stands at `start`, the pairs from the `k`-th on
/// are read behind the first `k`.
pub proof fn lemma_parse_pairs_complete(
    bytes: Seq<u8>,
    start: int,
    pairs: Seq<PairModel>,
    k: int,
)
    requires
        spec_pairs_wf(pairs),
        0 <= k <= pairs.len(),
        0 <= start,
        start + spec_encode_pairs(pairs).len() <= bytes.len(),
        bytes.subrange(start, start + spec_encode_pairs(pairs).len()) == spec_encode_pairs(pairs),
    ensures
        spec_parse_pairs(
            bytes,
            start + spec_encode_pairs(pairs.take(k)).len(),
            (pairs.len() - k) as nat,
            pairs.take(k),
        ) == Some((pairs, start + spec_encode_pairs(pairs).len())),
    decreases pairs.len() - k,
{
    if k == pairs.len() {
        assert(pairs.take(k) =~= pairs);
    } else {
        let whole = spec_encode_pairs(pairs);
        let done = spec_encode_pairs(pairs.take(k));
        let one = spec_encode_pair(pairs[k]);
        assert(pairs.take(k + 1).drop_last() =~= pairs.take(k));
        assert(spec_encode_pairs(pairs.take(k + 1)) == done + one);
        assert(pairs =~= pairs.take(k + 1) + pairs.skip(k + 1));
        lemma_encode_pairs_add(pairs.take(k + 1), pairs.skip(k + 1));
        let pos = start + done.len();
        assert(bytes.subrange(pos, pos + one.len()) =~= one) by {
            assert forall|j: int| 0 <= j < one.len() implies bytes.subrange(
                pos,
                pos + one.len(),
            )[j] == one[j] by {
                assert(bytes.subrange(start, start + whole.len())[done.len() + j] == bytes[pos
                    + j]);
                assert(whole[done.len() + j] == one[j]);
            }
        }
        lemma_parse_pair_complete(bytes, pos, pairs[k]);
        assert(pairs.take(k).push(pairs[k]) =~= pairs.take(k + 1));
        lemma_parse_pairs_complete(bytes, start, pairs, k + 1);
    }
}

/// Where the encoding of what an occupied slot holds stands at `pos`, it is read there.
pub proof fn lemma_parse_payload_complete(bytes: Seq<u8>, pos: int, slot: BlockSlot)
    requires
        !(slot is Empty),
        slot matches BlockSlot::Link(digest) ==> digest.len() == 32,
        slot matches BlockSlot::Bucket(pairs) ==> spec_pairs_wf(pairs),
        0 <= pos,
        pos + spec_encode_slot(slot).len() <= bytes.len(),
        bytes.subrange(pos, pos + spec_encode_slot(slot).len()) == spec_encode_slot(slot),
    ensures
        spec_parse_payload(bytes, pos) == Some((slot, pos + spec_encode_slot(slot).len())),
{
    let whole = spec_encode_slot(slot);
    assert forall|k: int| 0 <= k < whole.len() implies bytes[pos + k] == whole[k] by {
        assert(bytes.subrange(pos, pos + whole.len())[k] == bytes[pos + k]);
    }
    match slot {
        BlockSlot::Empty => {},
        BlockSlot::Link(digest) => {
            lemma_parse_link_complete(bytes, pos, digest);
            let tag = spec_head(KIND_TAG, TAG_CID);
            reveal_with_fuel(crate::cbor::spec_be_bytes, 2);
            assert(tag.len() == 2);
            assert(bytes.subrange(pos, pos + 2) =~= tag) by {
                assert forall|k: int| 0 <= k < 2 implies bytes.subrange(pos, pos + 2)[k]
                    == tag[k] by {
                    assert(whole[k] == tag[k]);
                }
            }
            lemma_read_head_at(bytes, pos, KIND_TAG, TAG_CID);
        },
        BlockSlot::Bucket(pairs) => {
            let head = spec_head(KIND_ARRAY, pairs.len() as u64);
            let body = spec_encode_pairs(pairs);
            lemma_head_len(KIND_ARRAY, pairs.len() as u64);
            let a = pos + head.len();
            assert(bytes.subrange(pos, a) =~= head) by {
                assert forall|k: int| 0 <= k < head.len() implies bytes.subrange(pos, a)[k]
                    == head[k] by {
                    assert(whole[k] == head[k]);
                }
            }
            lemma_read_head_at(bytes, pos, KIND_ARRAY, pairs.len() as u64);
            assert(bytes.subrange(a, a + body.len()) =~= body) by {
                assert forall|k: int| 0 <= k < body.len() implies bytes.subrange(
                    a,
                    a + body.len(),
                )[k] == body[k] by {
                    assert(whole[head.len() + k] == body[k]);
                }
            }
            lemma_parse_pairs_complete(bytes, a, pairs, 0);
            assert(pairs.take(0) =~= Seq::<PairModel>::empty());
        },
    }
}

/// The first `i` slots of a node, or all of them where it has fewer.
pub open spec fn spec_first(slots: Seq<BlockSlot>, i: int) -> Seq<BlockSlot> {
    slots.take(if i <= slots.len() {
        i
    } else {
        slots.len() as int
    })
}

/// Where the encoding of a node's slots stands at `start`, the slots from the `i`-th on are
/// read behind the first `i`, as the node's bitmap says: the node with empty slots added.
pub proof fn lemma_parse_slots_complete(
    bytes: Seq<u8>,
    start: int,
    slots: Seq<BlockSlot>,
    i: int,
)
    requires
        spec_block_wf(slots),
        0 <= i <= 8 * spec_bitmap_len(slots.len()),
        0 <= start,
        start + spec_encode_slots(slots).len() <= bytes.len(),
        bytes.subrange(start, start + spec_encode_slots(slots).len()) == spec_encode_slots(slots),
    ensures
        spec_parse_slots(
            bytes,
            start + spec_encode_slots(spec_first(slots, i)).len(),
            spec_bitmap(slots),
            i as nat,
            spec_padded(slots).take(i),
        ) == Some((spec_padded(slots), start + spec_encode_slots(slots).len())),
    decreases 8 * spec_bitmap_len(slots.len()) - i,
{
    let total = 8 * spec_bitmap_len(slots.len());
    let bitmap = spec_bitmap(slots);
    let padded = spec_padded(slots);
    if i == total {
        assert(padded.take(i) =~= padded);
        assert(spec_first(slots, i) =~= slots);
    } else {
        lemma_bits_of_bitmap(slots, i);
        let whole = spec_encode_slots(slots);
        let done = spec_encode_slots(spec_first(slots, i));
        let pos = start + done.len();
        assert(padded.take(i).push(padded[i]) =~= padded.take(i + 1));
        if i < slots.len() {
            let one = spec_encode_slot(slots[i]);
            assert(spec_first(slots, i + 1).drop_last() =~= spec_first(slots, i));
            assert(spec_encode_slots(spec_first(slots, i + 1)) == done + one);
            assert(slots =~= slots.take(i + 1) + slots.skip(i + 1));
            lemma_encode_slots_add(slots.take(i + 1), slots.skip(i + 1));
            if !(slots[i] is Empty) {
                assert(bytes.subrange(pos, pos + one.len()) =~= one) by {
                    assert forall|j: int| 0 <= j < one.len() implies bytes.subrange(
                        pos,
                        pos + one.len(),
                    )[j] == one[j] by {
                        assert(bytes.subrange(start, start + whole.len())[done.len() + j]
                            == bytes[pos + j]);
                        assert(whole[done.len() + j] == one[j]);
                    }
                }
                lemma_parse_payload_complete(bytes, pos, slots[i]);
            } else {
                assert(done + one =~= done);
            }
        } else {
            assert(spec_first(slots, i + 1) =~= spec_first(slots, i));
        }
        lemma_parse_slots_complete(bytes, start, slots, i + 1);
    }
}

/// Empty slots added to a node are not occupied.
pub proof fn lemma_padded_occupied(slots: Seq<BlockSlot>, upto: int)
    requires
        0 <= upto <= 8 * spec_bitmap_len(slots.len()),
    ensures
        spec_occupied(spec_padded(slots).take(upto)) == spec_occupied(spec_first(slots, upto)),
    decreases upto,
{
    let padded = spec_padded(slots);
    if upto == 0 {
        assert(padded.take(0) =~= Seq::<BlockSlot>::empty());
        assert(spec_first(slots, 0) =~= Seq::<BlockSlot>::empty());
    } else {
        lemma_padded_occupied(slots, upto - 1);
        assert(padded.take(upto).drop_last() =~= padded.take(upto - 1));
        if upto <= slots.len() {
            assert(spec_first(slots, upto).drop_last() =~= spec_first(slots, upto - 1));
        } else {
            assert(spec_first(slots, upto) =~= spec_first(slots, upto - 1));
        }
    }
}

/// Where the bytes of a node stand at `pos`, the node is read there, with empty slots added
/// until their number is a multiple of eight.
pub proof fn lemma_parse_block_complete(bytes: Seq<u8>, pos: int, slots: Seq<BlockSlot>)
    requires
        spec_block_wf(slots),
        0 <= pos,
        pos + spec_encode_block(slots).len() <= bytes.len(),
        bytes.subrange(pos, pos + spec_encode_block(slots).len()) == spec_encode_block(slots),
    ensures
        spec_parse_block(bytes, pos) == Some(
            (spec_padded(slots), pos + spec_encode_block(slots).len()),
        ),
{
    let whole = spec_encode_block(slots);
    let outer = spec_head(KIND_ARRAY, 2);
    let count = spec_bitmap_len(slots.len());
    let map = spec_head(KIND_BYTES, count as u64);
    let bitmap = spec_bitmap(slots);
    crate::block::lemma_occupied_bound(slots);
    let data = spec_head(KIND_ARRAY, spec_occupied(slots) as u64);
    let body = spec_encode_slots(slots);
    lemma_head_len(KIND_BYTES, count as u64);
    lemma_head_len(KIND_ARRAY, spec_occupied(slots) as u64);
    assert(outer.len() == 1);
    let a = pos + 1;
    let b = a + map.len();
    let c = b + count;
    let d = c + data.len();
    assert(whole.len() == 1 + map.len() + count + data.len() + body.len());
    assert forall|k: int| 0 <= k < whole.len() implies bytes[pos + k] == whole[k] by {
        assert(bytes.subrange(pos, pos + whole.len())[k] == bytes[pos + k]);
    }
    assert(bytes.subrange(pos, a) =~= outer) by {
        assert(whole[0] == outer[0]);
    }
    lemma_read_head_at(bytes, pos, KIND_ARRAY, 2);
    assert(bytes.subrange(a, b) =~= map) by {
        assert forall|k: int| 0 <= k < map.len() implies bytes.subrange(a, b)[k] == map[k] by {
            assert(whole[1 + k] == map[k]);
        }
    }
    lemma_read_head_at(bytes, a, KIND_BYTES, count as u64);
    assert(bytes.subrange(b, c) =~= bitmap) by {
        assert forall|k: int| 0 <= k < count implies bytes.subrange(b, c)[k] == bitmap[k] by {
            assert(whole[1 + map.len() + k] == bitmap[k]);
        }
    }
    assert(bytes.subrange(c, d) =~= data) by {
        assert forall|k: int| 0 <= k < data.len() implies bytes.subrange(c, d)[k] == data[k] by {
            assert(whole[1 + map.len() + count + k] == data[k]);
        }
    }
    lemma_read_head_at(bytes, c, KIND_ARRAY, spec_occupied(slots) as u64);
    assert(bytes.subrange(d, d + body.len()) =~= body) by {
        assert forall|k: int| 0 <= k < body.len() implies bytes.subrange(d, d + body.len())[k]
            == body[k] by {
            assert(whole[1 + map.len() + count + data.len() + k] == body[k]);
        }
    }
    lemma_parse_slots_complete(bytes, d, slots, 0);
    assert(spec_first(slots, 0) =~= Seq::<BlockSlot>::empty());
    assert(spec_padded(slots).take(0) =~= Seq::<BlockSlot>::empty());
    let total = (8 * count) as int;
    lemma_padded_occupied(slots, total);
    assert(spec_padded(slots).take(total) =~= spec_padded(slots));
    assert(spec_first(slots, total) =~= slots);
}

/// Every block that is written is read back: the bytes of a node decode to that node, with
/// empty slots added until their number is a multiple of eight.
pub proof fn lemma_decode_block_complete(slots: Seq<BlockSlot>)
    requires
        spec_block_wf(slots),
    ensures
        spec_decode_block(spec_encode_block(slots)) == Some(spec_padded(slots)),
{
    let bytes = spec_encode_block(slots);
    assert(bytes.subrange(0, bytes.len() as int) =~= bytes);
    lemma_parse_block_complete(bytes, 0, slots);
}

/// Reads the link that stands at `pos`.
pub fn parse_link(bytes: &[u8], pos: usize) -> (link: Option<(Cid, usize)>)
    ensures
        link is Some <==> spec_parse_link(bytes@, pos as int) is Some,
        link matches Some((cid, next)) ==> spec_parse_link(bytes@, pos as int) == Some(
            (cid@, next as int),
        ),
{
    let tag = match read_head(bytes, pos) {
        Some(head) => head,
        None => {
            return None;
        },
    };
    if tag.kind != KIND_TAG || tag.arg != TAG_CID {
        return None;
    }
    let len = match read_head(bytes, tag.next) {
        Some(head) => head,
        None => {
            return None;
        },
    };
    proof {
        lemma_read_head_sound(bytes@, tag.next as int);
    }
    if len.kind != KIND_BYTES || len.arg != 37 || bytes.len() - len.next < 37 {
        return None;
    }
    let start = len.next;
    if bytes[start] != 0 || bytes[start + 1] != 1 || bytes[start + 2] != 0x71 || bytes[start + 3]
        != 0x12 || bytes[start + 4] != 0x20 {
        return None;
    }
    let mut digest: Vec<u8> = Vec::new();
    let mut i: usize = start + 5;
    while i < start + 37
        invariant
            start + 5 <= i <= start + 37 <= bytes@.len() <= usize::MAX,
            digest@ == bytes@.subrange(start + 5, i as int),
        decreases start + 37 - i,
    {
        digest.push(bytes[i]);
        proof {
            assert(digest@ =~= bytes@.subrange(start + 5, i + 1));
        }
        i = i + 1;
    }
    match Cid::from_digest(digest) {
        Some(cid) => Some((cid, start + 37)),
        None => None,
    }
}

/// Reads the pair that stands at `pos`.
pub fn parse_pair(bytes: &[u8], pos: usize) -> (pair: Option<(Pair, usize)>)
    ensures
        pair is Some <==> spec_parse_pair(bytes@, pos as int) is Some,
        pair matches Some((p, next)) ==> spec_parse_pair(bytes@, pos as int) == Some(
            (p@, next as int),
        ),
{
    let array = match read_head(bytes, pos) {
        Some(head) => head,
        None => {
            return None;
        },
    };
    if array.kind != KIND_ARRAY || array.arg != 2 {
        return None;
    }
    let len = match read_head(bytes, array.next) {
        Some(head) => head,
        None => {
            return None;
        },
    };
    proof {
        lemma_read_head_sound(bytes@, array.next as int);
    }
    if len.kind != KIND_BYTES || len.arg > (bytes.len() - len.next) as u64 {
        return None;
    }
    let start = len.next;
    let end = start + len.arg as usize;
    let mut key: Vec<u8> = Vec::new();
    let mut i: usize = start;
    while i < end
        invariant
            start <= i <= end <= bytes@.len() <= usize::MAX,
            key@ == bytes@.subrange(start as int, i as int),
        decreases end - i,
    {
        key.push(bytes[i]);
        proof {
            assert(key@ =~= bytes@.subrange(start as int, i + 1));
        }
        i = i + 1;
    }
    match parse_link(bytes, end) {
        Some((value, next)) => Some((Pair { key, value }, next)),
        None => None,
    }
}

/// Reads what an occupied slot holds, as it stands at `pos`.
pub fn parse_payload(bytes: &[u8], pos: usize) -> (payload: Option<(BlockElement, usize)>)
    ensures
        payload is Some <==> spec_parse_payload(bytes@, pos as int) is Some,
        payload matches Some((element, next)) ==> spec_parse_payload(bytes@, pos as int) == Some(
            (spec_slot_view(Some(element)), next as int),
        ),
{
    let head = match read_head(bytes, pos) {
        Some(head) => head,
        None => {
            return None;
        },
    };
    if head.kind == KIND_TAG {
        match parse_link(bytes, pos) {
            Some((cid, next)) => Some((BlockElement::Node(cid), next)),
            None => None,
        }
    } else if head.kind == KIND_ARRAY {
        let mut pairs: Vec<Pair> = Vec::new();
        let mut at: usize = head.next;
        let mut left: u64 = head.arg;
        proof {
            assert(spec_pairs_view(pairs@) =~= Seq::<PairModel>::empty());
        }
        while left > 0
            invariant
                spec_read_head(bytes@, pos as int) == Some(head@),
                head.kind == KIND_ARRAY,
                spec_parse_pairs(bytes@, head.next as int, head.arg as nat, Seq::empty())
                    == spec_parse_pairs(bytes@, at as int, left as nat, spec_pairs_view(pairs@)),
            decreases left,
        {
            match parse_pair(bytes, at) {
                Some((pair, next)) => {
                    let ghost before = spec_pairs_view(pairs@);
                    let ghost model = pair@;
                    pairs.push(pair);
                    proof {
                        assert(spec_pairs_view(pairs@) =~= before.push(model));
                    }
                    at = next;
                    left = left - 1;
                },
                None => {
                    proof {
                        assert(spec_parse_pairs(
                            bytes@,
                            at as int,
                            left as nat,
                            spec_pairs_view(pairs@),
                        ) is None);
                    }
                    return None;
                },
            }
        }
        Some((BlockElement::Bucket(pairs), at))
    } else {
        None
    }
}

/// Reads the node that stands at `pos`.
pub fn parse_block(bytes: &[u8], pos: usize) -> (parsed: Option<(MapBlock, usize)>)
    ensures
        parsed is Some <==> spec_parse_block(bytes@, pos as int) is Some,
        parsed matches Some((block, next)) ==> spec_parse_block(bytes@, pos as int) == Some(
            (block@, next as int),
        ),
{
    let outer = match read_head(bytes, pos) {
        Some(head) => head,
        None => {
            return None;
        },
    };
    if outer.kind != KIND_ARRAY || outer.arg != 2 {
        return None;
    }
    let map = match read_head(bytes, outer.next) {
        Some(head) => head,
        None => {
            return None;
        },
    };
    proof {
        lemma_read_head_sound(bytes@, outer.next as int);
    }
    if map.kind != KIND_BYTES || map.arg > (bytes.len() - map.next) as u64 {
        return None;
    }
    let first = map.next;
    let count = map.arg as usize;
    let ghost bitmap = bytes@.subrange(first as int, first + count);
    let data = match read_head(bytes, first + count) {
        Some(head) => head,
        None => {
            return None;
        },
    };
    if data.kind != KIND_ARRAY {
        return None;
    }
    let mut block = MapBlock { elements: Vec::new() };
    let mut at: usize = data.next;
    let mut occupied: u64 = 0;
    let mut j: usize = 0;
    proof {
        assert(block@ =~= Seq::<BlockSlot>::empty());
    }
    while j < count
        invariant
            j <= count,
            spec_read_head(bytes@, pos as int) == Some(outer@),
            outer.kind == KIND_ARRAY && outer.arg == 2,
            spec_read_head(bytes@, outer.next as int) == Some(map@),
            map.kind == KIND_BYTES && map.next == first && map.arg == count,
            spec_read_head(bytes@, first + count) == Some(data@),
            data.kind == KIND_ARRAY,
            first + count <= bytes@.len() <= usize::MAX,
            bitmap == bytes@.subrange(first as int, first + count),
            block.elements@.len() == 8 * j,
            occupied == spec_occupied(block@),
            occupied <= 8 * j,
            spec_parse_slots(bytes@, data.next as int, bitmap, 0, Seq::empty())
                == spec_parse_slots(bytes@, at as int, bitmap, (8 * j) as nat, block@),
        decreases count - j,
    {
        let byte = bytes[first + j];
        let mut t: usize = 0;
        while t < 8
            invariant
                t <= 8,
                j < count,
                spec_read_head(bytes@, pos as int) == Some(outer@),
                outer.kind == KIND_ARRAY && outer.arg == 2,
                spec_read_head(bytes@, outer.next as int) == Some(map@),
                map.kind == KIND_BYTES && map.next == first && map.arg == count,
                spec_read_head(bytes@, first + count) == Some(data@),
                data.kind == KIND_ARRAY,
                first + count <= bytes@.len() <= usize::MAX,
                bitmap == bytes@.subrange(first as int, first + count),
                byte == bitmap[j as int],
                block.elements@.len() == 8 * j + t,
                occupied == spec_occupied(block@),
                occupied <= 8 * j + t,
                spec_parse_slots(bytes@, data.next as int, bitmap, 0, Seq::empty())
                    == spec_parse_slots(bytes@, at as int, bitmap, (8 * j + t) as nat, block@),
            decreases 8 - t,
        {
            let ghost index = (8 * j + t) as int;
            let ghost before = block@;
            let set: bool = (byte >> ((7 - t) as u8)) & 1 == 1;
            proof {
                assert(index / 8 == j && index % 8 == t);
                assert(set == spec_bit(bitmap, index));
            }
            if set {
                match parse_payload(bytes, at) {
                    Some((element, next)) => {
                        let ghost slot = spec_slot_view(Some(element));
                        block.elements.push(Some(element));
                        proof {
                            assert(block@ =~= before.push(slot));
                            assert(block@.drop_last() =~= before);
                        }
                        at = next;
                        let filled = block.elements.len();
                        assert(occupied < filled);
                        occupied = occupied + 1;
                    },
                    None => {
                        proof {
                            assert(spec_parse_slots(
                                bytes@,
                                at as int,
                                bitmap,
                                index as nat,
                                before,
                            ) is None);
                        }
                        return None;
                    },
                }
            } else {
                block.elements.push(None);
                proof {
                    assert(block@ =~= before.push(BlockSlot::Empty));
                    assert(block@.drop_last() =~= before);
                }
            }
            t = t + 1;
        }
        j = j + 1;
    }
    if occupied != data.arg {
        return None;
    }
    Some((block, at))
}

impl MapBlock {
    /// Reads a node back from the bytes of its block. Bytes that are not the block of a node,
    /// in the form in which nodes are written, are refused.
    pub fn decode(bytes: &[u8]) -> (decoded: Result<MapBlock, HashMapError>)
        ensures
            decoded is Ok <==> spec_decode_block(bytes@) is Some,
            decoded matches Ok(block) ==> spec_decode_block(bytes@) == Some(block@)
                && spec_encode_block(block@) == bytes@,
            decoded matches Err(error) ==> error == HashMapError::BadBlock,
    {
        proof {
            if spec_decode_block(bytes@) is Some {
                lemma_decode_block_sound(bytes@);
            }
        }
        match parse_block(bytes, 0) {
            Some((block, next)) => {
                if next == bytes.len() {
                    Ok(block)
                } else {
                    Err(HashMapError::BadBlock)
                }
            },
            None => Err(HashMapError::BadBlock),
        }
    }
}

} // verus!
