//! What holds of every tree: the shape of a tree is decided by what it holds.

use vstd::prelude::*;
use crate::bits::{lemma_to_int_bound, spec_bit, spec_bits, spec_fanout, spec_slot};
use crate::block::{
    spec_bitmap, spec_bitmap_len, spec_encode_block, spec_encode_root, spec_occupied, BlockSlot,
};
use crate::cid::spec_block_cid;
use crate::cidstore::BlockModel;
use crate::decode::{
    lemma_bits_of_bitmap, lemma_decode_block_complete, spec_block_wf, spec_padded, spec_pairs_wf,
};
use crate::error::HashMapError;
use crate::hash::spec_sha2_256;
use crate::key::{lemma_key_lt_asymmetric, lemma_key_lt_transitive, spec_key_lt};
use crate::model::{
    lemma_bucket_get_at, lemma_bucket_get_none, lemma_bucket_get_some, lemma_bucket_map_first,
    lemma_child_blocks_prefix, spec_bucket_get, spec_bucket_map, spec_bucket_pairs,
    spec_bucket_sorted, spec_can_split, spec_entry_wf, spec_follows, EntryModel, NodeModel,
    SlotModel,
};
use crate::query::{
    lemma_decode_root_complete, spec_lookup, spec_lookup_step, spec_pairs_get, spec_walk,
    spec_width_of, LookupModel,
};
use crate::tree::{spec_stitched, IpldHashMap};

verus! {

/// The tail of a sorted bucket is sorted, and does not hold the key of the first pair.
pub proof fn lemma_bucket_tail(bucket: Seq<EntryModel>)
    requires
        spec_bucket_sorted(bucket),
        bucket.len() > 0,
    ensures
        spec_bucket_sorted(bucket.drop_first()),
        spec_bucket_get(bucket.drop_first(), bucket.first().key) is None,
{
    let rest = bucket.drop_first();
    assert forall|a: int, b: int| 0 <= a < b < rest.len() implies spec_key_lt(
        #[trigger] rest[a].key,
        #[trigger] rest[b].key,
    ) by {
        assert(rest[a] == bucket[a + 1] && rest[b] == bucket[b + 1]);
    }
    assert forall|j: int| 0 <= j < rest.len() implies (#[trigger] rest[j]).key
        != bucket.first().key by {
        assert(rest[j] == bucket[j + 1]);
        lemma_key_lt_asymmetric(bucket[0].key, bucket[j + 1].key);
    }
    lemma_bucket_get_none(rest, bucket.first().key);
}

/// A sorted bucket holds as many keys as it has pairs.
pub proof fn lemma_bucket_map_len(bucket: Seq<EntryModel>)
    requires
        spec_bucket_sorted(bucket),
    ensures
        spec_bucket_map(bucket).dom().finite(),
        spec_bucket_map(bucket).dom().len() == bucket.len(),
    decreases bucket.len(),
{
    if bucket.len() == 0 {
        assert(spec_bucket_map(bucket).dom() =~= Set::<Seq<u8>>::empty());
    } else {
        lemma_bucket_tail(bucket);
        lemma_bucket_map_len(bucket.drop_first());
        lemma_bucket_map_first(bucket);
        let rest = spec_bucket_map(bucket.drop_first());
        assert(!rest.dom().contains(bucket.first().key));
        assert(spec_bucket_map(bucket).dom() =~= rest.dom().insert(bucket.first().key));
    }
}

/// Two sorted buckets that hold the same values under the same keys are the same bucket.
pub proof fn lemma_bucket_canonical(a: Seq<EntryModel>, b: Seq<EntryModel>)
    requires
        spec_bucket_sorted(a),
        spec_bucket_sorted(b),
        forall|j: int| 0 <= j < a.len() ==> (#[trigger] a[j]).digest == spec_sha2_256(a[j].key),
        forall|j: int| 0 <= j < b.len() ==> (#[trigger] b[j]).digest == spec_sha2_256(b[j].key),
        forall|k: Seq<u8>| spec_bucket_get(a, k) == spec_bucket_get(b, k),
    ensures
        a == b,
    decreases a.len(),
{
    if a.len() == 0 {
        if b.len() > 0 {
            lemma_bucket_get_at(b, 0);
            assert(spec_bucket_get(a, b[0].key) is None);
        }
        assert(a =~= b);
    } else if b.len() == 0 {
        lemma_bucket_get_at(a, 0);
        assert(spec_bucket_get(b, a[0].key) is None);
    } else {
        lemma_bucket_get_at(a, 0);
        lemma_bucket_get_at(b, 0);
        let ja = lemma_bucket_get_some(a, b[0].key);
        let jb = lemma_bucket_get_some(b, a[0].key);
        if jb > 0 {
            // b[0] < b[jb] == a[0] <= a[ja] == b[0]
            assert(spec_key_lt(b[0].key, b[jb].key));
            if ja > 0 {
                assert(spec_key_lt(a[0].key, a[ja].key));
                lemma_key_lt_transitive(b[0].key, a[0].key, b[0].key);
            }
            lemma_key_lt_asymmetric(b[0].key, a[0].key);
        }
        assert(a[0].key == b[0].key);
        assert(a[0].value == b[0].value);
        assert(a[0] == b[0]);
        lemma_bucket_tail(a);
        lemma_bucket_tail(b);
        let ra = a.drop_first();
        let rb = b.drop_first();
        assert forall|j: int| 0 <= j < ra.len() implies (#[trigger] ra[j]).digest
            == spec_sha2_256(ra[j].key) by {
            assert(ra[j] == a[j + 1]);
        }
        assert forall|j: int| 0 <= j < rb.len() implies (#[trigger] rb[j]).digest
            == spec_sha2_256(rb[j].key) by {
            assert(rb[j] == b[j + 1]);
        }
        assert forall|k: Seq<u8>| spec_bucket_get(ra, k) == spec_bucket_get(rb, k) by {
            if k != a[0].key {
                assert(spec_bucket_get(a, k) == spec_bucket_get(ra, k));
                assert(spec_bucket_get(b, k) == spec_bucket_get(rb, k));
            }
        }
        lemma_bucket_canonical(ra, rb);
        assert(a =~= seq![a[0]] + ra);
        assert(b =~= seq![b[0]] + rb);
    }
}

/// The bits that lead to a slot are the bits that lead to its node.
pub proof fn lemma_follows_shorter(digest: Seq<u8>, path: Seq<nat>, i: nat, width: nat)
    requires
        spec_follows(digest, path.push(i), width),
    ensures
        spec_follows(digest, path, width),
        spec_slot(digest, path.len(), width) == i,
{
    let longer = path.push(i);
    assert forall|d: int| 0 <= d < path.len() implies spec_slot(digest, d as nat, width)
        == #[trigger] path[d] by {
        assert(longer[d] == path[d]);
    }
    assert(longer[path.len() as int] == i);
}

/// A key found in a well-formed slot has a digest that leads to that slot.
pub proof fn lemma_slot_found_follows(
    slot: SlotModel,
    path: Seq<nat>,
    depth: nat,
    width: nat,
    bucket_size: nat,
    key: Seq<u8>,
)
    requires
        path.len() == depth + 1,
        slot.wf(path, width, bucket_size),
        slot.get(key, depth, width) is Some,
    ensures
        spec_follows(spec_sha2_256(key), path, width),
    decreases slot, 0nat,
{
    match slot {
        SlotModel::Empty => {},
        SlotModel::Bucket(bucket) => {
            let j = lemma_bucket_get_some(bucket, key);
            assert(spec_entry_wf(bucket[j], path, width));
        },
        SlotModel::Child(child) => {
            lemma_node_found_follows(child, path, width, bucket_size, key);
        },
    }
}

/// A key found below a well-formed node has a digest that leads to that node.
pub proof fn lemma_node_found_follows(
    node: NodeModel,
    path: Seq<nat>,
    width: nat,
    bucket_size: nat,
    key: Seq<u8>,
)
    requires
        node.wf(path, width, bucket_size),
        node.get(key, path.len(), width) is Some,
    ensures
        spec_follows(spec_sha2_256(key), path, width),
    decreases node, 1nat,
{
    let i = spec_slot(spec_sha2_256(key), path.len(), width);
    assert(node.slots[i as int].wf(path.push(i), width, bucket_size));
    lemma_slot_found_follows(
        node.slots[i as int],
        path.push(i),
        path.len(),
        width,
        bucket_size,
        key,
    );
    lemma_follows_shorter(spec_sha2_256(key), path, i, width);
}

/// Two well-formed slots at the same place that hold the same values under the same keys
/// are the same slot.
pub proof fn lemma_slot_canonical(
    a: SlotModel,
    b: SlotModel,
    path: Seq<nat>,
    depth: nat,
    width: nat,
    bucket_size: nat,
)
    requires
        path.len() == depth + 1,
        a.wf(path, width, bucket_size),
        b.wf(path, width, bucket_size),
        forall|k: Seq<u8>| #[trigger] a.get(k, depth, width) == b.get(k, depth, width),
    ensures
        a == b,
    decreases a, 0nat,
{
    match (a, b) {
        (SlotModel::Empty, SlotModel::Empty) => {},
        (SlotModel::Empty, SlotModel::Bucket(bucket)) => {
            lemma_bucket_get_at(bucket, 0);
            assert(a.get(bucket[0].key, depth, width) is None);
        },
        (SlotModel::Bucket(bucket), SlotModel::Empty) => {
            lemma_bucket_get_at(bucket, 0);
            assert(a.get(bucket[0].key, depth, width) is Some);
            assert(b.get(bucket[0].key, depth, width) is None);
        },
        (SlotModel::Empty, SlotModel::Child(child)) => {
            let held = child.entries(path.len(), width).dom();
            let k = held.choose();
            assert(held.contains(k));
            assert(b.get(k, depth, width) is Some);
            assert(a.get(k, depth, width) is None);
        },
        (SlotModel::Child(child), SlotModel::Empty) => {
            let held = child.entries(path.len(), width).dom();
            let k = held.choose();
            assert(held.contains(k));
            assert(a.get(k, depth, width) is Some);
            assert(b.get(k, depth, width) is None);
        },
        (SlotModel::Bucket(x), SlotModel::Bucket(y)) => {
            assert forall|j: int| 0 <= j < x.len() implies (#[trigger] x[j]).digest
                == spec_sha2_256(x[j].key) by {
                assert(spec_entry_wf(x[j], path, width));
            }
            assert forall|j: int| 0 <= j < y.len() implies (#[trigger] y[j]).digest
                == spec_sha2_256(y[j].key) by {
                assert(spec_entry_wf(y[j], path, width));
            }
            assert forall|k: Seq<u8>| spec_bucket_get(x, k) == spec_bucket_get(y, k) by {
                assert(a.get(k, depth, width) == b.get(k, depth, width));
            }
            lemma_bucket_canonical(x, y);
        },
        (SlotModel::Bucket(bucket), SlotModel::Child(child)) => {
            lemma_bucket_map_len(bucket);
            assert forall|k: Seq<u8>|
                spec_bucket_map(bucket).dom().contains(k) == child.entries(
                    path.len(),
                    width,
                ).dom().contains(k) by {
                assert(a.get(k, depth, width) == b.get(k, depth, width));
            }
            assert(spec_bucket_map(bucket).dom() =~= child.entries(path.len(), width).dom());
        },
        (SlotModel::Child(child), SlotModel::Bucket(bucket)) => {
            lemma_bucket_map_len(bucket);
            assert forall|k: Seq<u8>|
                spec_bucket_map(bucket).dom().contains(k) == child.entries(
                    path.len(),
                    width,
                ).dom().contains(k) by {
                assert(a.get(k, depth, width) == b.get(k, depth, width));
            }
            assert(spec_bucket_map(bucket).dom() =~= child.entries(path.len(), width).dom());
        },
        (SlotModel::Child(x), SlotModel::Child(y)) => {
            assert forall|k: Seq<u8>| #[trigger]
                x.get(k, path.len(), width) == y.get(k, path.len(), width) by {
                assert(a.get(k, depth, width) == b.get(k, depth, width));
            }
            lemma_node_canonical(x, y, path, width, bucket_size);
        },
    }
}

/// Two well-formed nodes at the same place that hold the same values under the same keys
/// are the same node: the shape of a subtree is decided by what it holds.
pub proof fn lemma_node_canonical(
    a: NodeModel,
    b: NodeModel,
    path: Seq<nat>,
    width: nat,
    bucket_size: nat,
)
    requires
        a.wf(path, width, bucket_size),
        b.wf(path, width, bucket_size),
        forall|k: Seq<u8>| #[trigger] a.get(k, path.len(), width) == b.get(k, path.len(), width),
    ensures
        a == b,
    decreases a, 1nat,
{
    assert forall|i: int| 0 <= i < a.slots.len() implies a.slots[i] == b.slots[i] by {
        let here = path.push(i as nat);
        assert(a.slots[i].wf(here, width, bucket_size));
        assert(b.slots[i].wf(here, width, bucket_size));
        assert forall|k: Seq<u8>| #[trigger]
            a.slots[i].get(k, path.len(), width) == b.slots[i].get(k, path.len(), width) by {
            let s = spec_slot(spec_sha2_256(k), path.len(), width);
            if s == i {
                assert(a.get(k, path.len(), width) == b.get(k, path.len(), width));
            } else {
                if a.slots[i].get(k, path.len(), width) is Some {
                    lemma_slot_found_follows(a.slots[i], here, path.len(), width, bucket_size, k);
                    lemma_follows_shorter(spec_sha2_256(k), path, i as nat, width);
                }
                if b.slots[i].get(k, path.len(), width) is Some {
                    lemma_slot_found_follows(b.slots[i], here, path.len(), width, bucket_size, k);
                    lemma_follows_shorter(spec_sha2_256(k), path, i as nat, width);
                }
            }
        }
        lemma_slot_canonical(a.slots[i], b.slots[i], here, path.len(), width, bucket_size);
    }
    assert(a.slots =~= b.slots);
}

/// Two nodes that hold the same mapping give the same answer to every lookup.
pub proof fn lemma_same_entries_same_get(a: NodeModel, b: NodeModel, depth: nat, width: nat)
    requires
        a.entries(depth, width) == b.entries(depth, width),
    ensures
        forall|k: Seq<u8>| #[trigger] a.get(k, depth, width) == b.get(k, depth, width),
{
    let ma = a.entries(depth, width);
    let mb = b.entries(depth, width);
    assert forall|k: Seq<u8>| #[trigger] a.get(k, depth, width) == b.get(k, depth, width) by {
        assert(ma.dom().contains(k) == (a.get(k, depth, width) is Some));
        assert(mb.dom().contains(k) == (b.get(k, depth, width) is Some));
        if ma.dom().contains(k) {
            assert(ma[k] == a.get(k, depth, width)->0);
            assert(mb[k] == b.get(k, depth, width)->0);
        }
    }
}

/// Two well-formed trees with the same parameters that hold the same mapping are the same
/// tree, node for node: they have the same blocks and the same root identifier.
pub proof fn lemma_same_entries_same_tree(a: IpldHashMap, b: IpldHashMap)
    requires
        a.wf(),
        b.wf(),
        a.options() == b.options(),
        a@ == b@,
    ensures
        a.root() == b.root(),
        a.root_cid() == b.root_cid(),
        a.blocks() == b.blocks(),
{
    let width = a.options().bit_width as nat;
    lemma_same_entries_same_get(a.root(), b.root(), 0, width);
    lemma_node_canonical(
        a.root(),
        b.root(),
        Seq::empty(),
        width,
        a.options().bucket_size as nat,
    );
}

/// The mapping that results from storing the given pairs, in order, into `start`.
pub open spec fn spec_apply(start: Map<Seq<u8>, Seq<u8>>, sets: Seq<(Seq<u8>, Seq<u8>)>) -> Map<
    Seq<u8>,
    Seq<u8>,
>
    decreases sets.len(),
{
    if sets.len() == 0 {
        start
    } else {
        spec_apply(start, sets.drop_last()).insert(sets.last().0, sets.last().1)
    }
}

/// The value that was stored last under `key`.
pub open spec fn spec_last_set(sets: Seq<(Seq<u8>, Seq<u8>)>, key: Seq<u8>) -> Option<Seq<u8>>
    decreases sets.len(),
{
    if sets.len() == 0 {
        None
    } else if sets.last().0 == key {
        Some(sets.last().1)
    } else {
        spec_last_set(sets.drop_last(), key)
    }
}

/// Whether no key occurs in two of the pairs.
pub open spec fn spec_keys_distinct(sets: Seq<(Seq<u8>, Seq<u8>)>) -> bool {
    forall|i: int, j: int|
        0 <= i < j < sets.len() ==> (#[trigger] sets[i]).0 != (#[trigger] sets[j]).0
}

/// Lookup after any run of stores: a key holds the value stored under it last, and a key
/// under which nothing was stored holds what it held at the start; in a tree that started
/// empty, nothing.
pub proof fn lemma_lookup_roundtrip(
    start: Map<Seq<u8>, Seq<u8>>,
    sets: Seq<(Seq<u8>, Seq<u8>)>,
    key: Seq<u8>,
)
    ensures
        match spec_last_set(sets, key) {
            Some(value) => spec_apply(start, sets).contains_key(key) && spec_apply(
                start,
                sets,
            )[key] == value,
            None => spec_apply(start, sets).contains_key(key) == start.contains_key(key) && (
            start.contains_key(key) ==> spec_apply(start, sets)[key] == start[key]),
        },
    decreases sets.len(),
{
    if sets.len() > 0 {
        lemma_lookup_roundtrip(start, sets.drop_last(), key);
    }
}

/// The value stored last under a key that occurs once is the value of its pair.
pub proof fn lemma_last_set_distinct(sets: Seq<(Seq<u8>, Seq<u8>)>, i: int)
    requires
        spec_keys_distinct(sets),
        0 <= i < sets.len(),
    ensures
        spec_last_set(sets, sets[i].0) == Some(sets[i].1),
    decreases sets.len(),
{
    if i < sets.len() - 1 {
        let shorter = sets.drop_last();
        assert(sets[i].0 != sets[sets.len() - 1].0);
        assert forall|a: int, b: int| 0 <= a < b < shorter.len() implies (
        #[trigger] shorter[a]).0 != (#[trigger] shorter[b]).0 by {
            assert(shorter[a] == sets[a] && shorter[b] == sets[b]);
        }
        assert(shorter[i] == sets[i]);
        lemma_last_set_distinct(shorter, i);
    }
}

/// A key under which something was stored last is the key of one of the pairs.
pub proof fn lemma_last_set_some(sets: Seq<(Seq<u8>, Seq<u8>)>, key: Seq<u8>) -> (i: int)
    requires
        spec_last_set(sets, key) is Some,
    ensures
        0 <= i < sets.len(),
        sets[i].0 == key,
        spec_last_set(sets, key) == Some(sets[i].1),
    decreases sets.len(),
{
    if sets.last().0 == key {
        sets.len() - 1
    } else {
        let i = lemma_last_set_some(sets.drop_last(), key);
        assert(sets.drop_last()[i] == sets[i]);
        i
    }
}

/// Storing the same pairs, each key once, in one order or another gives the same mapping.
pub proof fn lemma_apply_any_order(
    start: Map<Seq<u8>, Seq<u8>>,
    first: Seq<(Seq<u8>, Seq<u8>)>,
    second: Seq<(Seq<u8>, Seq<u8>)>,
)
    requires
        spec_keys_distinct(first),
        spec_keys_distinct(second),
        forall|pair: (Seq<u8>, Seq<u8>)| first.contains(pair) <==> second.contains(pair),
    ensures
        spec_apply(start, first) == spec_apply(start, second),
{
    let a = spec_apply(start, first);
    let b = spec_apply(start, second);
    assert forall|k: Seq<u8>| spec_last_set(first, k) == spec_last_set(second, k) by {
        if spec_last_set(first, k) is Some {
            let i = lemma_last_set_some(first, k);
            assert(first.contains(first[i]));
            let j = choose|j: int| 0 <= j < second.len() && second[j] == first[i];
            lemma_last_set_distinct(second, j);
        }
        if spec_last_set(second, k) is Some {
            let j = lemma_last_set_some(second, k);
            assert(second.contains(second[j]));
            let i = choose|i: int| 0 <= i < first.len() && first[i] == second[j];
            lemma_last_set_distinct(first, i);
        }
    }
    assert forall|k: Seq<u8>| #[trigger] a.dom().contains(k) == b.dom().contains(k) by {
        lemma_lookup_roundtrip(start, first, k);
        lemma_lookup_roundtrip(start, second, k);
    }
    assert forall|k: Seq<u8>| #[trigger] a.dom().contains(k) implies a[k] == b[k] by {
        lemma_lookup_roundtrip(start, first, k);
        lemma_lookup_roundtrip(start, second, k);
    }
    assert(a =~= b);
}

/// Order independence: two trees with the same parameters, built from the empty tree by
/// storing the same pairs, each key once, in one order and in another, have the same root
/// identifier.
pub proof fn lemma_order_independence(
    a: IpldHashMap,
    b: IpldHashMap,
    first: Seq<(Seq<u8>, Seq<u8>)>,
    second: Seq<(Seq<u8>, Seq<u8>)>,
)
    requires
        a.wf(),
        b.wf(),
        a.options() == b.options(),
        spec_keys_distinct(first),
        spec_keys_distinct(second),
        forall|pair: (Seq<u8>, Seq<u8>)| first.contains(pair) <==> second.contains(pair),
        a@ == spec_apply(Map::empty(), first),
        b@ == spec_apply(Map::empty(), second),
    ensures
        a.root_cid() == b.root_cid(),
{
    lemma_apply_any_order(Map::empty(), first, second);
    lemma_same_entries_same_tree(a, b);
}

/// Idempotence: a tree into which a pair was stored twice has the root identifier of the
/// tree into which it was stored once.
pub proof fn lemma_set_idempotent(
    once: IpldHashMap,
    twice: IpldHashMap,
    start: Map<Seq<u8>, Seq<u8>>,
    key: Seq<u8>,
    value: Seq<u8>,
)
    requires
        once.wf(),
        twice.wf(),
        once.options() == twice.options(),
        once@ == start.insert(key, value),
        twice@ == start.insert(key, value).insert(key, value),
    ensures
        once.root_cid() == twice.root_cid(),
{
    assert(start.insert(key, value).insert(key, value) =~= start.insert(key, value));
    lemma_same_entries_same_tree(once, twice);
}

/// The last write wins: a tree into which a value and then another were stored under one
/// key has the root identifier of the tree into which only the second was stored.
pub proof fn lemma_last_write_wins(
    once: IpldHashMap,
    twice: IpldHashMap,
    start: Map<Seq<u8>, Seq<u8>>,
    key: Seq<u8>,
    earlier: Seq<u8>,
    later: Seq<u8>,
)
    requires
        once.wf(),
        twice.wf(),
        once.options() == twice.options(),
        once@ == start.insert(key, later),
        twice@ == start.insert(key, earlier).insert(key, later),
    ensures
        once.root_cid() == twice.root_cid(),
{
    assert(start.insert(key, earlier).insert(key, later) =~= start.insert(key, later));
    lemma_same_entries_same_tree(once, twice);
}

/// The identifier that a shard hands over: that of the only child of its root.
pub open spec fn spec_shard_cid(shard: IpldHashMap) -> Seq<u8> {
    shard.root().slots[crate::model::spec_single_child(shard.root())->0]->Child_0.cid()
}

/// The part of a mapping whose keys select slot `prefix` of the root.
pub open spec fn spec_shard_of(
    entries: Map<Seq<u8>, Seq<u8>>,
    prefix: nat,
    width: nat,
) -> Map<Seq<u8>, Seq<u8>> {
    entries.restrict(Set::new(|k: Seq<u8>| spec_slot(spec_sha2_256(k), 0, width) == prefix))
}

/// A shard holds, in the slot of its only child, what the whole tree holds in the slot that
/// the shard was cut for.
pub proof fn lemma_shard_slot(whole: IpldHashMap, shard: IpldHashMap, p: int)
    requires
        whole.wf(),
        shard.wf(),
        shard.options() == whole.options(),
        0 <= p < spec_fanout(whole.options().bit_width as nat),
        shard@ == spec_shard_of(whole@, p as nat, whole.options().bit_width as nat),
        crate::model::spec_single_child(shard.root()) is Some,
    ensures
        crate::model::spec_single_child(shard.root()) == Some(p),
        shard.root().slots[p] == whole.root().slots[p],
{
    let width = whole.options().bit_width as nat;
    let size = whole.options().bucket_size as nat;
    let root = whole.root();
    let here = Seq::<nat>::empty().push(p as nat);
    let i = crate::model::spec_single_child(shard.root())->0;
    assert(crate::model::spec_is_single_child(shard.root(), i));
    let child = shard.root().slots[i]->Child_0;
    // The child is not empty: it holds a key, and that key selects both slots.
    assert(shard.root().slots[i].wf(Seq::<nat>::empty().push(i as nat), width, size));
    let held = child.entries(1, width).dom();
    let k = held.choose();
    assert(held.contains(k));
    assert(shard.root().slots[i].get(k, 0, width) is Some);
    lemma_slot_found_follows(
        shard.root().slots[i],
        Seq::<nat>::empty().push(i as nat),
        0,
        width,
        size,
        k,
    );
    lemma_follows_shorter(spec_sha2_256(k), Seq::empty(), i as nat, width);
    assert(shard.root().get(k, 0, width) is Some);
    assert(shard@.dom().contains(k));
    assert(i == p);
    assert(root.slots[p].wf(here, width, size));
    assert(shard.root().slots[p].wf(here, width, size));
    assert forall|key: Seq<u8>| #[trigger]
        root.slots[p].get(key, 0, width) == shard.root().slots[p].get(key, 0, width) by {
        if spec_slot(spec_sha2_256(key), 0, width) == p {
            assert(root.get(key, 0, width) == root.slots[p].get(key, 0, width));
            assert(shard.root().get(key, 0, width) == shard.root().slots[p].get(key, 0, width));
            assert(whole@.dom().contains(key) == (root.get(key, 0, width) is Some));
            assert(shard@.dom().contains(key) == (shard.root().get(key, 0, width) is Some));
            if whole@.dom().contains(key) {
                assert(whole@[key] == root.get(key, 0, width)->0);
                assert(shard@[key] == shard.root().get(key, 0, width)->0);
            }
        } else {
            if root.slots[p].get(key, 0, width) is Some {
                lemma_slot_found_follows(root.slots[p], here, 0, width, size, key);
                lemma_follows_shorter(spec_sha2_256(key), Seq::empty(), p as nat, width);
            }
            if shard.root().slots[p].get(key, 0, width) is Some {
                lemma_slot_found_follows(shard.root().slots[p], here, 0, width, size, key);
                lemma_follows_shorter(spec_sha2_256(key), Seq::empty(), p as nat, width);
            }
        }
    }
    lemma_slot_canonical(root.slots[p], shard.root().slots[p], here, 0, width, size);
}

/// Whether the shards are a cut of the whole tree: one for each slot of the root, each built
/// with the parameters of the whole as a tree of its own, each holding the part of the whole
/// whose keys select its slot by the first bits of their digests, and each a single child
/// node under its root.
pub open spec fn spec_cut(whole: IpldHashMap, shards: Seq<IpldHashMap>) -> bool {
    &&& whole.wf()
    &&& shards.len() == spec_fanout(whole.options().bit_width as nat)
    &&& forall|p: int|
        0 <= p < shards.len() ==> {
            &&& (#[trigger] shards[p]).wf()
            &&& shards[p].options() == whole.options()
            &&& shards[p]@ == spec_shard_of(whole@, p as nat, whole.options().bit_width as nat)
            &&& crate::model::spec_single_child(shards[p].root()) is Some
        }
}

/// The bytes of the root block that is stitched from the identifiers the shards hand over.
pub open spec fn spec_stitched_bytes(whole: IpldHashMap, shards: Seq<IpldHashMap>) -> Seq<u8> {
    spec_encode_root(
        spec_stitched(Seq::new(shards.len(), |p: int| spec_shard_cid(shards[p]))),
        whole.options().hash_alg,
        spec_fanout(whole.options().bit_width as nat) as u64,
    )
}

/// Stitch equivalence: where a tree is cut into one shard for each slot of the root by the
/// first bits of the keys' digests, each shard is built as a tree of its own, and each is a
/// single child node under its root, the root block stitched from the shards' identifiers
/// has the identifier of the root block of the whole tree.
pub proof fn lemma_stitch_equivalence(whole: IpldHashMap, shards: Seq<IpldHashMap>)
    requires
        spec_cut(whole, shards),
    ensures
        whole.root_cid() == spec_block_cid(
            spec_encode_root(
                spec_stitched(Seq::new(shards.len(), |p: int| spec_shard_cid(shards[p]))),
                whole.options().hash_alg,
                spec_fanout(whole.options().bit_width as nat) as u64,
            ),
        ),
        whole.root_bytes() == spec_stitched_bytes(whole, shards),
{
    let root = whole.root();
    let stitched = spec_stitched(Seq::new(shards.len(), |p: int| spec_shard_cid(shards[p])));
    assert forall|p: int| 0 <= p < root.slots.len() implies #[trigger] root.block()[p]
        == stitched[p] by {
        assert(shards[p].wf());
        lemma_shard_slot(whole, shards[p], p);
    }
    assert(root.block() =~= stitched);
}

/// The blocks that the first `upto` shards write, shard after shard in slot order: of each
/// shard the blocks of the subtree below its only child.
pub open spec fn spec_shard_blocks(shards: Seq<IpldHashMap>, upto: nat) -> Seq<BlockModel>
    decreases upto,
{
    if upto == 0 || upto > shards.len() {
        Seq::empty()
    } else {
        spec_shard_blocks(shards, (upto - 1) as nat) + shards[upto - 1].root().slots[
            crate::model::spec_single_child(shards[upto - 1].root())->0
        ].blocks()
    }
}

/// The first shards of a cut write the blocks of the subtrees in the first slots of the
/// whole tree.
pub proof fn lemma_shard_blocks(whole: IpldHashMap, shards: Seq<IpldHashMap>, upto: nat)
    requires
        spec_cut(whole, shards),
        upto <= shards.len(),
    ensures
        spec_shard_blocks(shards, upto) == whole.root().child_blocks(upto),
    decreases upto,
{
    if upto > 0 {
        lemma_shard_blocks(whole, shards, (upto - 1) as nat);
        assert(shards[upto - 1].wf());
        lemma_shard_slot(whole, shards[upto - 1], upto - 1);
    }
}

/// The sharded build writes the blocks of the sequential build: where the shards of a cut
/// write their blocks one after another in slot order and the stitched root block is written
/// last, the run of blocks is that of the whole tree, block for block.
pub proof fn lemma_stitch_blocks(whole: IpldHashMap, shards: Seq<IpldHashMap>)
    requires
        spec_cut(whole, shards),
    ensures
        whole.blocks() == spec_shard_blocks(shards, shards.len()).push(
            BlockModel {
                cid: spec_block_cid(spec_stitched_bytes(whole, shards)),
                bytes: spec_stitched_bytes(whole, shards),
            },
        ),
{
    lemma_stitch_equivalence(whole, shards);
    lemma_shard_blocks(whole, shards, shards.len());
}

/// Every node of a well-formed tree is well formed at its place.
pub proof fn lemma_descend_wf(root: NodeModel, path: Seq<nat>, width: nat, bucket_size: nat)
    requires
        root.wf(Seq::empty(), width, bucket_size),
        root.descend(path) is Some,
    ensures
        root.descend(path)->0.wf(path, width, bucket_size),
    decreases path.len(),
{
    if path.len() == 0 {
        assert(path =~= Seq::<nat>::empty());
    } else {
        let shorter = path.drop_last();
        let parent = root.descend(shorter)->0;
        lemma_descend_wf(root, shorter, width, bucket_size);
        assert(parent.slots[path.last() as int].wf(
            shorter.push(path.last()),
            width,
            bucket_size,
        ));
        assert(shorter.push(path.last()) =~= path);
    }
}

/// The bucket invariant: in every node of a well-formed tree, every bucket holds at least
/// one pair and at most as many as the bucket size, unless the node is at the last level;
/// its keys ascend strictly; and each of its pairs stands where the digest of its key
/// leads.
pub proof fn lemma_bucket_invariant(tree: IpldHashMap, path: Seq<nat>, i: int)
    requires
        tree.wf(),
        tree.root().descend(path) is Some,
        0 <= i < tree.root().descend(path)->0.slots.len(),
        tree.root().descend(path)->0.slots[i] is Bucket,
    ensures
        ({
            let bucket = tree.root().descend(path)->0.slots[i]->Bucket_0;
            let width = tree.options().bit_width as nat;
            &&& 1 <= bucket.len()
            &&& spec_can_split(path.len(), width) ==> bucket.len() <= tree.options().bucket_size
            &&& spec_bucket_sorted(bucket)
            &&& forall|j: int|
                0 <= j < bucket.len() ==> spec_entry_wf(
                    #[trigger] bucket[j],
                    path.push(i as nat),
                    width,
                )
        }),
{
    let width = tree.options().bit_width as nat;
    let size = tree.options().bucket_size as nat;
    lemma_descend_wf(tree.root(), path, width, size);
    let node = tree.root().descend(path)->0;
    assert(node.slots[i].wf(path.push(i as nat), width, size));
}

/// The number of bits that are set among the first `upto` bits of a bitmap.
pub open spec fn spec_popcount(bitmap: Seq<u8>, upto: nat) -> nat
    decreases upto,
{
    if upto == 0 {
        0
    } else {
        spec_popcount(bitmap, (upto - 1) as nat) + if spec_bit(bitmap, upto - 1) {
            1nat
        } else {
            0nat
        }
    }
}

/// Among the first `upto` bits of the bitmap of a block, as many are set as slots among the
/// first `upto` are occupied.
pub proof fn lemma_popcount_upto(slots: Seq<BlockSlot>, upto: nat)
    requires
        upto <= 8 * spec_bitmap_len(slots.len()),
    ensures
        spec_popcount(spec_bitmap(slots), upto) == spec_occupied(
            slots.take(if upto <= slots.len() {
                upto as int
            } else {
                slots.len() as int
            }),
        ),
    decreases upto,
{
    if upto == 0 {
        assert(slots.take(0) =~= Seq::<BlockSlot>::empty());
    } else {
        lemma_popcount_upto(slots, (upto - 1) as nat);
        lemma_bits_of_bitmap(slots, upto - 1);
        if upto <= slots.len() {
            assert(slots.take(upto as int).drop_last() =~= slots.take(upto - 1));
        }
    }
}

/// In the block of every node, the bitmap has as many bits set as the array of the
/// occupied slots has items.
pub proof fn lemma_popcount(slots: Seq<BlockSlot>)
    ensures
        spec_popcount(spec_bitmap(slots), 8 * spec_bitmap_len(slots.len())) == spec_occupied(
            slots,
        ),
{
    lemma_popcount_upto(slots, 8 * spec_bitmap_len(slots.len()));
    assert(slots.take(slots.len() as int) =~= slots);
}

/// A key is found among the pairs of a bucket as it stands in a block where it is found in
/// the bucket.
pub proof fn lemma_pairs_get(bucket: Seq<EntryModel>, key: Seq<u8>)
    ensures
        spec_pairs_get(spec_bucket_pairs(bucket), key) == spec_bucket_get(bucket, key),
    decreases bucket.len(),
{
    if bucket.len() > 0 {
        assert(spec_bucket_pairs(bucket).drop_first() =~= spec_bucket_pairs(bucket.drop_first()));
        lemma_pairs_get(bucket.drop_first(), key);
    }
}

/// Whether the mapping `held` holds each of the given blocks under its identifier, and each
/// identifier has a digest of 32 bytes.
pub open spec fn spec_holds(held: Map<Seq<u8>, Seq<u8>>, blocks: Seq<BlockModel>) -> bool {
    forall|i: int|
        0 <= i < blocks.len() ==> {
            &&& held.contains_key((#[trigger] blocks[i]).cid)
            &&& held[blocks[i].cid] == blocks[i].bytes
            &&& blocks[i].cid.len() == 32
        }
}

/// Where the blocks below a node are held, so are the blocks below each of its children,
/// and the block of each child.
pub proof fn lemma_holds_child(node: NodeModel, held: Map<Seq<u8>, Seq<u8>>, i: int)
    requires
        spec_holds(held, node.child_blocks(node.slots.len())),
        0 <= i < node.slots.len(),
        node.slots[i] is Child,
    ensures
        ({
            let child = node.slots[i]->Child_0;
            &&& spec_holds(held, child.child_blocks(child.slots.len()))
            &&& held.contains_key(child.cid())
            &&& held[child.cid()] == spec_encode_block(child.block())
            &&& child.cid().len() == 32
        }),
{
    let child = node.slots[i]->Child_0;
    let all = node.child_blocks(node.slots.len());
    let before = node.child_blocks(i as nat);
    let here = child.blocks();
    lemma_child_blocks_prefix(node, (i + 1) as nat, node.slots.len());
    assert(node.slots[i].blocks() == here);
    let upto = (i + 1) as nat;
    assert((upto - 1) as nat == i as nat);
    assert(node.child_blocks(upto) == node.child_blocks((upto - 1) as nat) + node.slots[upto
        - 1].blocks());
    assert(node.child_blocks((i + 1) as nat) == before + here);
    assert forall|j: int| 0 <= j < here.len() implies all[before.len() + j] == here[j] by {
        assert(all.take((before + here).len() as int)[before.len() + j] == (before + here)[
            before.len() + j
        ]);
    }
    let below = child.child_blocks(child.slots.len());
    assert forall|j: int| 0 <= j < below.len() implies {
        &&& held.contains_key((#[trigger] below[j]).cid)
        &&& held[below[j].cid] == below[j].bytes
        &&& below[j].cid.len() == 32
    } by {
        assert(here[j] == below[j]);
        assert(all[before.len() + j] == below[j]);
    }
    assert(here[below.len() as int] == BlockModel {
        cid: child.cid(),
        bytes: spec_encode_block(child.block()),
    });
    assert(all[(before.len() + below.len()) as int] == here[below.len() as int]);
}

/// The block of a well-formed node whose children's blocks are held can stand in a block.
pub proof fn lemma_node_block_wf(
    node: NodeModel,
    path: Seq<nat>,
    width: nat,
    bucket_size: nat,
    held: Map<Seq<u8>, Seq<u8>>,
)
    requires
        node.wf(path, width, bucket_size),
        width <= 8,
        spec_holds(held, node.child_blocks(node.slots.len())),
    ensures
        spec_block_wf(node.block()),
        node.block().len() == spec_fanout(width),
{
    let block = node.block();
    crate::bits::lemma_fanout_monotonic(width, 8);
    reveal_with_fuel(spec_fanout, 9);
    assert forall|i: int| 0 <= i < block.len() implies match #[trigger] block[i] {
        BlockSlot::Empty => true,
        BlockSlot::Link(digest) => digest.len() == 32,
        BlockSlot::Bucket(pairs) => spec_pairs_wf(pairs),
    } by {
        assert(node.slots[i].wf(path.push(i as nat), width, bucket_size));
        match node.slots[i] {
            SlotModel::Empty => {},
            SlotModel::Bucket(bucket) => {
                let pairs = spec_bucket_pairs(bucket);
                assert forall|j: int| 0 <= j < pairs.len() implies (#[trigger] pairs[j]).key.len()
                    <= u64::MAX && pairs[j].value.len() == 32 by {
                    assert(spec_entry_wf(bucket[j], path.push(i as nat), width));
                }
            },
            SlotModel::Child(child) => {
                lemma_holds_child(node, held, i);
            },
        }
    }
}

/// A walk through held blocks finds what the tree holds: from the block of a well-formed
/// node whose children's blocks are held, the walk finds for a key what the node finds.
pub proof fn lemma_walk_finds(
    node: NodeModel,
    path: Seq<nat>,
    width: nat,
    bucket_size: nat,
    held: Map<Seq<u8>, Seq<u8>>,
    key: Seq<u8>,
)
    requires
        node.wf(path, width, bucket_size),
        1 <= width <= 8,
        spec_holds(held, node.child_blocks(node.slots.len())),
        spec_sha2_256(key).len() == 32,
    ensures
        spec_walk(held, spec_padded(node.block()), key, spec_sha2_256(key), path.len(), width)
            == Ok::<Option<Seq<u8>>, HashMapError>(node.get(key, path.len(), width)),
    decreases node,
{
    let depth = path.len();
    let digest = spec_sha2_256(key);
    let block = node.block();
    let padded = spec_padded(block);
    lemma_node_block_wf(node, path, width, bucket_size, held);
    assert(depth < 256) by (nonlinear_arith)
        requires
            (depth + 1) * width <= 256,
            1 <= width,
    ;
    let i = spec_slot(digest, depth, width) as int;
    lemma_to_int_bound(spec_bits(digest, (depth * width) as int, width));
    assert(0 <= i < node.slots.len());
    assert(padded[i] == block[i]);
    assert(block[i] == node.slots[i].collapsed());
    match node.slots[i] {
        SlotModel::Empty => {},
        SlotModel::Bucket(bucket) => {
            lemma_pairs_get(bucket, key);
        },
        SlotModel::Child(child) => {
            assert(node.slots[i].wf(path.push(i as nat), width, bucket_size));
            lemma_holds_child(node, held, i);
            lemma_node_block_wf(child, path.push(i as nat), width, bucket_size, held);
            lemma_decode_block_complete(child.block());
            lemma_walk_finds(child, path.push(i as nat), width, bucket_size, held, key);
            assert(spec_lookup_step(padded, key, digest, depth, width) == Ok::<
                LookupModel,
                HashMapError,
            >(LookupModel::Descend(child.cid())));
        },
    }
}

/// Lookup through the blocks: where a store holds the blocks of a well-formed tree that
/// consumes three bits or more at a level, each under its identifier, a walk from the root
/// block finds for every key what the tree holds for it.
pub proof fn lemma_lookup_finds(tree: IpldHashMap, held: Map<Seq<u8>, Seq<u8>>, key: Seq<u8>)
    requires
        tree.wf(),
        3 <= tree.options().bit_width,
        spec_holds(held, tree.blocks()),
        spec_sha2_256(key).len() == 32,
    ensures
        spec_lookup(held, tree.root_cid(), key) == Ok::<Option<Seq<u8>>, HashMapError>(
            if tree@.contains_key(key) {
                Some(tree@[key])
            } else {
                None
            },
        ),
{
    let width = tree.options().bit_width as nat;
    let size = tree.options().bucket_size as nat;
    let root = tree.root();
    let below = root.child_blocks(root.slots.len());
    let all = tree.blocks();
    assert forall|j: int| 0 <= j < below.len() implies {
        &&& held.contains_key((#[trigger] below[j]).cid)
        &&& held[below[j].cid] == below[j].bytes
        &&& below[j].cid.len() == 32
    } by {
        assert(all[j] == below[j]);
    }
    assert(all[below.len() as int] == BlockModel {
        cid: tree.root_cid(),
        bytes: tree.root_bytes(),
    });
    lemma_node_block_wf(root, Seq::empty(), width, size, held);
    reveal_with_fuel(spec_fanout, 9);
    assert(spec_padded(root.block()).len() == spec_fanout(width));
    assert(spec_width_of(spec_fanout(width)) == Some(width));
    lemma_decode_root_complete(root.block(), spec_fanout(width) as u64);
    lemma_walk_finds(root, Seq::empty(), width, size, held, key);
    assert(tree@.dom().contains(key) == (root.get(key, 0, width) is Some));
    if tree@.dom().contains(key) {
        assert(tree@[key] == root.get(key, 0, width)->0);
    }
}

} // verus!
