//! The in-memory tree: nodes, buckets, lookup and insertion.

use vstd::prelude::*;
use crate::bits::{fanout, slot_index, spec_fanout, spec_slot};
use crate::block::{spec_encode_block, spec_pairs_view, BlockElement, MapBlock, Pair};
use crate::cid::Cid;
use crate::cidstore::{spec_put_some, BlockModel, CidStore};
use crate::error::HashMapError;
use crate::hash::{spec_sha2_256, DIGEST_LEN};
use crate::key::{key_order, spec_key_lt, KeyOrder};
use crate::options::HashMapOptions;
use crate::model::{
    lemma_bucket_get_at, lemma_bucket_get_none, lemma_bucket_insert_get,
    lemma_bucket_insert_sorted, lemma_bucket_map_first, lemma_bucket_update_get,
    lemma_bucket_update_sorted, lemma_child_blocks_prefix, lemma_empty_count,
    lemma_empty_entries, lemma_entries_after_set, lemma_find_is_get, lemma_find_keeps,
    lemma_get_after_set, lemma_node_step, lemma_shaped_find, lemma_shaped_parts,
    lemma_single_child_unique, lemma_wf_shaped, spec_bucket_get, spec_bucket_map,
    spec_bucket_pairs, spec_bucket_shaped, spec_bucket_sorted, spec_bucket_wf, spec_entry_wf,
    spec_follows, spec_is_single_child, spec_path, spec_put_stores, spec_single_child,
    spec_slot_put, spec_slot_step, EntryModel, NodeModel, SlotModel,
};

verus! {

/// One pair of a bucket, with the digest of its key.
#[derive(Debug)]
pub struct BucketEntry {
    pub(crate) key: Vec<u8>,
    pub(crate) value: Cid,
    pub(crate) digest: Vec<u8>,
}

/// What an occupied slot holds: a child node, or a bucket of pairs in key order.
#[derive(Debug)]
pub enum Element {
    Node(Node),
    Bucket(Vec<BucketEntry>),
}

/// A node of the tree under construction.
#[derive(Debug)]
pub struct Node {
    pub(crate) elements: Vec<Option<Element>>,
}

impl View for BucketEntry {
    type V = EntryModel;

    closed spec fn view(&self) -> EntryModel {
        EntryModel { key: self.key@, value: self.value@, digest: self.digest@ }
    }
}

/// The model of a bucket.
pub closed spec fn spec_bucket_view(bucket: Seq<BucketEntry>) -> Seq<EntryModel> {
    Seq::new(bucket.len(), |j: int| bucket[j]@)
}

impl View for Node {
    type V = NodeModel;

    closed spec fn view(&self) -> NodeModel
        decreases self,
    {
        NodeModel {
            slots: Seq::new(
                self.elements@.len(),
                |i: int|
                    if 0 <= i < self.elements@.len() {
                        match self.elements@[i] {
                            None => SlotModel::Empty,
                            Some(Element::Bucket(bucket)) => SlotModel::Bucket(
                                spec_bucket_view(bucket@),
                            ),
                            Some(Element::Node(child)) => SlotModel::Child(child@),
                        }
                    } else {
                        SlotModel::Empty
                    },
            ),
        }
    }
}

/// Finds `key` in a bucket whose keys ascend: the place of the pair that has it, or else the
/// place at which a pair with that key would stand.
pub(crate) fn bucket_find(bucket: &Vec<BucketEntry>, key: &[u8]) -> (place: Result<usize, usize>)
    requires
        spec_bucket_sorted(spec_bucket_view(bucket@)),
    ensures
        match place {
            Ok(i) => i < bucket@.len() && spec_bucket_view(bucket@)[i as int].key == key@,
            Err(i) => {
                &&& i <= bucket@.len()
                &&& forall|j: int|
                    0 <= j < i ==> spec_key_lt(
                        (#[trigger] spec_bucket_view(bucket@)[j]).key,
                        key@,
                    )
                &&& forall|j: int|
                    i <= j < bucket@.len() ==> spec_key_lt(
                        key@,
                        (#[trigger] spec_bucket_view(bucket@)[j]).key,
                    )
            },
        },
{
    let ghost model = spec_bucket_view(bucket@);
    let mut low: usize = 0;
    let mut high: usize = bucket.len();
    while low < high
        invariant
            low <= high <= bucket@.len(),
            model == spec_bucket_view(bucket@),
            spec_bucket_sorted(model),
            model.len() == bucket@.len(),
            forall|j: int| 0 <= j < low ==> spec_key_lt((#[trigger] model[j]).key, key@),
            forall|j: int|
                high <= j < bucket@.len() ==> spec_key_lt(key@, (#[trigger] model[j]).key),
        decreases high - low,
    {
        let mid: usize = low + (high - low) / 2;
        match key_order(bucket[mid].key.as_slice(), key) {
            KeyOrder::Same => {
                return Ok(mid);
            },
            KeyOrder::Before => {
                proof {
                    assert forall|j: int| 0 <= j < mid + 1 implies spec_key_lt(
                        (#[trigger] model[j]).key,
                        key@,
                    ) by {
                        if j < mid {
                            assert(spec_key_lt(model[j].key, model[mid as int].key));
                            crate::key::lemma_key_lt_transitive(
                                model[j].key,
                                model[mid as int].key,
                                key@,
                            );
                        }
                    }
                }
                low = mid + 1;
            },
            KeyOrder::After => {
                proof {
                    assert forall|j: int| mid <= j < bucket@.len() implies spec_key_lt(
                        key@,
                        (#[trigger] model[j]).key,
                    ) by {
                        if mid < j {
                            assert(spec_key_lt(model[mid as int].key, model[j].key));
                            crate::key::lemma_key_lt_transitive(
                                key@,
                                model[mid as int].key,
                                model[j].key,
                            );
                        }
                    }
                }
                high = mid;
            },
        }
    }
    Err(low)
}

/// Puts a pair into a bucket whose keys ascend. A pair with the same key is replaced. A pair
/// with a new key is put in at its place in the order, unless the bucket is `bounded` and
/// holds `capacity` pairs or more: then the bucket stays as it is and the pair comes back.
pub(crate) fn bucket_put(
    bucket: &mut Vec<BucketEntry>,
    entry: BucketEntry,
    capacity: usize,
    bounded: bool,
) -> (left: Option<BucketEntry>)
    requires
        spec_bucket_sorted(spec_bucket_view(old(bucket)@)),
    ensures
        left is Some <==> spec_bucket_get(spec_bucket_view(old(bucket)@), entry@.key) is None
            && bounded && old(bucket)@.len() >= capacity,
        left matches Some(back) ==> back == entry && final(bucket)@ == old(bucket)@,
        left is None ==> {
            let before = spec_bucket_view(old(bucket)@);
            let after = spec_bucket_view(final(bucket)@);
            &&& spec_bucket_sorted(after)
            &&& after.len() == before.len() + if spec_bucket_get(before, entry@.key) is Some {
                0int
            } else {
                1int
            }
            &&& forall|k: Seq<u8>| #[trigger]
                spec_bucket_get(after, k) == if k == entry@.key {
                    Some(entry@.value)
                } else {
                    spec_bucket_get(before, k)
                }
            &&& forall|j: int|
                0 <= j < after.len() ==> #[trigger] after[j] == entry@ || before.contains(
                    after[j],
                )
            &&& after.contains(entry@)
            &&& forall|j: int|
                0 <= j < before.len() && (#[trigger] before[j]).key != entry@.key
                    ==> after.contains(before[j])
        },
{
    let ghost before = spec_bucket_view(bucket@);
    match bucket_find(bucket, entry.key.as_slice()) {
        Ok(pos) => {
            proof {
                lemma_bucket_get_at(before, pos as int);
                lemma_bucket_update_sorted(before, pos as int, entry@);
                assert forall|k: Seq<u8>| #[trigger]
                    spec_bucket_get(before.update(pos as int, entry@), k) == if k == entry@.key {
                        Some(entry@.value)
                    } else {
                        spec_bucket_get(before, k)
                    } by {
                    lemma_bucket_update_get(before, pos as int, entry@, k);
                }
            }
            let ghost model = entry@;
            bucket.set(pos, entry);
            proof {
                let after = spec_bucket_view(bucket@);
                assert(after =~= before.update(pos as int, model));
                assert forall|j: int| 0 <= j < after.len() implies #[trigger] after[j] == model
                    || before.contains(after[j]) by {
                    if j != pos {
                        assert(after[j] == before[j]);
                    }
                }
                assert(after[pos as int] == model);
                assert forall|j: int| 0 <= j < before.len() && (#[trigger] before[j]).key
                    != model.key implies after.contains(before[j]) by {
                    assert(after[j] == before[j]);
                }
            }
            None
        },
        Err(pos) => {
            proof {
                assert forall|j: int| 0 <= j < before.len() implies (#[trigger] before[j]).key
                    != entry@.key by {
                    if j < pos {
                        crate::key::lemma_key_lt_asymmetric(before[j].key, entry@.key);
                    } else {
                        crate::key::lemma_key_lt_asymmetric(entry@.key, before[j].key);
                    }
                }
                lemma_bucket_get_none(before, entry@.key);
            }
            if bounded && bucket.len() >= capacity {
                Some(entry)
            } else {
                proof {
                    lemma_bucket_insert_sorted(before, pos as int, entry@);
                    assert forall|k: Seq<u8>| #[trigger]
                        spec_bucket_get(before.insert(pos as int, entry@), k) == if k
                            == entry@.key {
                            Some(entry@.value)
                        } else {
                            spec_bucket_get(before, k)
                        } by {
                        lemma_bucket_insert_get(before, pos as int, entry@, k);
                    }
                }
                let ghost model = entry@;
                bucket.insert(pos, entry);
                proof {
                    let after = spec_bucket_view(bucket@);
                    assert(after =~= before.insert(pos as int, model));
                    assert forall|j: int| 0 <= j < after.len() implies #[trigger] after[j]
                        == model || before.contains(after[j]) by {
                        if j < pos {
                            assert(after[j] == before[j]);
                        } else if j > pos {
                            assert(after[j] == before[j - 1]);
                        }
                    }
                    assert(after[pos as int] == model);
                    assert forall|j: int| 0 <= j < before.len() implies after.contains(
                        #[trigger] before[j],
                    ) by {
                        if j < pos {
                            assert(after[j] == before[j]);
                        } else {
                            assert(after[j + 1] == before[j]);
                        }
                    }
                }
                None
            }
        },
    }
}

/// Whether a bucket can stand in a node: its keys ascend strictly and every pair carries a
/// digest of 32 bytes.
pub closed spec fn spec_bucket_ok(bucket: Seq<EntryModel>) -> bool {
    &&& spec_bucket_sorted(bucket)
    &&& forall|j: int| 0 <= j < bucket.len() ==> (#[trigger] bucket[j]).digest.len() == 32
}

/// Whether what a slot holds can stand in a node.
pub closed spec fn spec_element_ok(element: Option<Element>) -> bool {
    match element {
        Some(Element::Bucket(bucket)) => spec_bucket_ok(spec_bucket_view(bucket@)),
        _ => true,
    }
}

/// What a lookup found, as a plain value.
pub open spec fn spec_found(found: Result<Option<&Cid>, HashMapError>) -> Result<
    Option<Seq<u8>>,
    HashMapError,
> {
    match found {
        Ok(Some(cid)) => Ok(Some(cid@)),
        Ok(None) => Ok(None),
        Err(error) => Err(error),
    }
}

/// The model of what a slot holds.
pub closed spec fn spec_slot_view(element: Option<Element>) -> SlotModel {
    match element {
        None => SlotModel::Empty,
        Some(Element::Bucket(bucket)) => SlotModel::Bucket(spec_bucket_view(bucket@)),
        Some(Element::Node(child)) => SlotModel::Child(child@),
    }
}

/// Whether a pair and a slot of a node at `depth` are well formed on the path of the pair's
/// digest.
pub open spec fn spec_slot_tied(
    slot: SlotModel,
    entry: EntryModel,
    depth: nat,
    width: nat,
    bucket_size: nat,
) -> bool {
    let deeper = spec_path(entry.digest, depth + 1, width);
    &&& spec_entry_wf(entry, deeper, width)
    &&& slot.wf(deeper, width, bucket_size)
}

/// What a slot that was well formed holds after it took a pair: it is well formed on the
/// path of the pair's digest, and a lookup finds in it the pair's value and what it held
/// for every other key.
pub open spec fn spec_slot_took(
    before: SlotModel,
    after: SlotModel,
    entry: EntryModel,
    depth: nat,
    width: nat,
    bucket_size: nat,
) -> bool {
    let deeper = spec_path(entry.digest, depth + 1, width);
    &&& after.wf(deeper, width, bucket_size)
    &&& forall|k: Seq<u8>| #[trigger]
        after.get(k, depth, width) == if k == entry.key {
            Some(entry.value)
        } else {
            before.get(k, depth, width)
        }
}

/// What the child that a bucket has become holds, where the bucket and the new pair were
/// well formed on the path of the pair's digest: the child is well formed on that path, it
/// holds one key more than the bucket held, and a lookup finds in it the new pair's value
/// and what the bucket held for every other key.
pub open spec fn spec_refilled(
    bucket: Seq<EntryModel>,
    entry: EntryModel,
    child: NodeModel,
    depth: nat,
    width: nat,
    bucket_size: nat,
) -> bool {
    let deeper = spec_path(entry.digest, depth + 1, width);
    spec_bucket_wf(bucket, deeper, width, bucket_size) && spec_entry_wf(entry, deeper, width) ==> {
        &&& child.wf(deeper, width, bucket_size)
        &&& child.entries(depth + 1, width).dom().finite()
        &&& child.entries(depth + 1, width).dom().len() == bucket.len() + 1
        &&& forall|k: Seq<u8>| #[trigger]
            child.get(k, depth + 1, width) == if k == entry.key {
                Some(entry.value)
            } else {
                spec_bucket_get(bucket, k)
            }
    }
}

/// Whether a node is well formed on the path of `digest`, holds finitely many keys, and
/// `digest` is the digest of `key`.
pub open spec fn spec_tied(
    node: NodeModel,
    key: Seq<u8>,
    digest: Seq<u8>,
    depth: nat,
    width: nat,
    bucket_size: nat,
) -> bool {
    &&& digest == spec_sha2_256(key)
    &&& digest.len() == DIGEST_LEN
    &&& node.wf(spec_path(digest, depth, width), width, bucket_size)
    &&& node.entries(depth, width).dom().finite()
}

impl Node {
    /// In every node the keys of every bucket ascend strictly, and every pair carries a
    /// digest of 32 bytes.
    #[verifier::type_invariant]
    closed spec fn inv(self) -> bool {
        forall|i: int|
            0 <= i < self.elements@.len() ==> spec_element_ok(#[trigger] self.elements@[i])
    }

    /// The node that a full bucket of a node at `depth` becomes when a pair with a new key
    /// goes to it: a node one level down that holds the pairs of the bucket and the new
    /// pair, each at the place that its own digest leads to.
    fn refill(
        bucket: Vec<BucketEntry>,
        entry: BucketEntry,
        depth: usize,
        options: &HashMapOptions,
    ) -> (child: Node)
        requires
            options.wf(),
            (depth + 2) * options.bit_width <= 256,
            spec_bucket_ok(spec_bucket_view(bucket@)),
            entry@.digest.len() == 32,
            spec_bucket_get(spec_bucket_view(bucket@), entry@.key) is None,
        ensures
            child@.shaped(
                (depth + 1) as nat,
                options.bit_width as nat,
                options.bucket_size as nat,
            ),
            child@.count() == bucket@.len() + 1,
            child@.stores(entry@, (depth + 1) as nat, options.bit_width as nat),
            forall|j: int|
                0 <= j < bucket@.len() ==> child@.stores(
                    #[trigger] spec_bucket_view(bucket@)[j],
                    (depth + 1) as nat,
                    options.bit_width as nat,
                ),
            forall|other: EntryModel, way: Seq<u8>| #[trigger]
                child@.keeps(other, way, (depth + 1) as nat, options.bit_width as nat) ==> other
                    == entry@ || spec_bucket_view(bucket@).contains(other),
            child@.find(
                entry@.key,
                entry@.digest,
                (depth + 1) as nat,
                options.bit_width as nat,
            ) == Ok::<Option<Seq<u8>>, HashMapError>(Some(entry@.value)),
            spec_refilled(
                spec_bucket_view(bucket@),
                entry@,
                child@,
                depth as nat,
                options.bit_width as nat,
                options.bucket_size as nat,
            ),
        decreases 256 - depth, 0nat,
    {
        let ghost width = options.bit_width as nat;
        let ghost size = options.bucket_size as nat;
        let ghost bucket_before = spec_bucket_view(bucket@);
        let ghost entry_model = entry@;
        let ghost key_model = entry@.key;
        let ghost value_model = entry@.value;
        let ghost digest_model = entry@.digest;
        let ghost deeper = spec_path(entry@.digest, (depth + 1) as nat, width);
        let ghost tied = spec_bucket_wf(bucket_before, deeper, width, size) && spec_entry_wf(
            entry@,
            deeper,
            width,
        );
        let mut bucket = bucket;
        assert(depth + 1 < 256) by (nonlinear_arith)
            requires
                (depth + 2) * options.bit_width <= 256,
                1 <= options.bit_width,
        ;
        let mut child = Node::new(options.bit_width);
        proof {
            lemma_empty_entries(child@, (depth + 1) as nat, width);
            lemma_empty_count(child@, child@.slots.len());
            assert(child@.shaped((depth + 1) as nat, width, size)) by {
                assert forall|i: int| 0 <= i < child@.slots.len() implies (
                #[trigger] child@.slots[i]) is Empty by {}
            }
            if tied {
                assert(child@.wf(deeper, width, size)) by (nonlinear_arith)
                    requires
                        child@.is_empty(),
                        child@.slots.len() == spec_fanout(width),
                        deeper.len() == depth + 1,
                        (depth + 2) * options.bit_width <= 256,
                        width == options.bit_width,
                        forall|i: int|
                            0 <= i < child@.slots.len()
                                ==> (#[trigger] child@.slots[i]).wf(
                                deeper.push(i as nat),
                                width,
                                size,
                            ),
                ;
            }
            assert(bucket_before.skip(bucket_before.len() as int)
                =~= Seq::<EntryModel>::empty());
            assert(spec_bucket_map(Seq::<EntryModel>::empty())
                =~= Map::<Seq<u8>, Seq<u8>>::empty());
        }
        while bucket.len() > 0
            invariant
                options.wf(),
                width == options.bit_width as nat,
                size == options.bucket_size as nat,
                depth + 1 < 256,
                (depth + 2) * options.bit_width <= 256,
                deeper.len() == depth + 1,
                spec_bucket_ok(bucket_before),
                bucket@.len() <= bucket_before.len(),
                spec_bucket_view(bucket@) == bucket_before.take(
                    bucket@.len() as int,
                ),
                child@.shaped((depth + 1) as nat, width, size),
                forall|j: int|
                    bucket@.len() <= j < bucket_before.len() ==> child@.stores(
                        #[trigger] bucket_before[j],
                        (depth + 1) as nat,
                        width,
                    ),
                forall|other: EntryModel, way: Seq<u8>| #[trigger]
                    child@.keeps(other, way, (depth + 1) as nat, width)
                        ==> bucket_before.skip(bucket@.len() as int).contains(
                        other,
                    ),
                child@.count() == bucket_before.len() - bucket@.len(),
                tied ==> spec_bucket_wf(bucket_before, deeper, width, size),
                tied ==> child@.wf(deeper, width, size),
                tied ==> child@.entries((depth + 1) as nat, width)
                    == spec_bucket_map(bucket_before.skip(bucket@.len() as int)),
                tied ==> child@.entries((depth + 1) as nat, width).dom().finite(),
                tied ==> child@.entries((depth + 1) as nat, width).dom().len()
                    == bucket_before.len() - bucket@.len(),
            decreases bucket@.len(),
        {
            let ghost n = bucket@.len() as int;
            let ghost child_was = child@;
            let moved = bucket.pop().unwrap();
            proof {
                let model = bucket_before[n - 1];
                assert(spec_bucket_view(bucket@) =~= bucket_before.take(n - 1));
                assert(bucket_before.take(n)[n - 1] == model);
                assert(moved@ == model);
                assert(model.digest.len() == 32);
                lemma_shaped_find(
                    child@,
                    moved.key@,
                    moved.digest@,
                    (depth + 1) as nat,
                    width,
                    size,
                );
                if child@.find(
                    model.key,
                    model.digest,
                    (depth + 1) as nat,
                    width,
                ) matches Ok(Some(_)) {
                    let twin = lemma_find_keeps(
                        child@,
                        model.key,
                        model.digest,
                        (depth + 1) as nat,
                        width,
                    );
                    let later = bucket_before.skip(n);
                    assert(later.contains(twin));
                    let j = choose|j: int| 0 <= j < later.len() && later[j] == twin;
                    assert(later[j] == bucket_before[n + j]);
                    crate::key::lemma_key_lt_asymmetric(
                        bucket_before[n - 1].key,
                        bucket_before[n + j].key,
                    );
                }
                if tied {
                    assert(spec_entry_wf(model, deeper, width));
                    assert(deeper =~= spec_path(
                        moved.digest@,
                        (depth + 1) as nat,
                        width,
                    ));
                    let rest = bucket_before.skip(n);
                    let more = bucket_before.skip(n - 1);
                    assert(more.drop_first() =~= rest);
                    assert(more.first() == model);
                    lemma_bucket_map_first(more);
                    assert forall|j: int| 0 <= j < rest.len() implies (
                    #[trigger] rest[j]).key != model.key by {
                        assert(rest[j] == bucket_before[n + j]);
                        crate::key::lemma_key_lt_asymmetric(
                            bucket_before[n - 1].key,
                            bucket_before[n + j].key,
                        );
                    }
                    lemma_bucket_get_none(rest, model.key);
                }
            }
            let refilled = child.set(
                moved.key,
                moved.value,
                moved.digest,
                depth + 1,
                options,
            );
            assert(refilled is Ok);
            proof {
                let model = bucket_before[n - 1];
                assert(spec_put_stores(
                    child_was,
                    child@,
                    model,
                    (depth + 1) as nat,
                    width,
                ));
                assert forall|j: int| n - 1 <= j < bucket_before.len() implies child@.stores(
                    #[trigger] bucket_before[j],
                    (depth + 1) as nat,
                    width,
                ) by {
                    if j > n - 1 {
                        assert(child_was.stores(
                            bucket_before[j],
                            (depth + 1) as nat,
                            width,
                        ));
                        assert(spec_key_lt(
                            bucket_before[n - 1].key,
                            bucket_before[j].key,
                        ));
                        crate::key::lemma_key_lt_asymmetric(
                            bucket_before[n - 1].key,
                            bucket_before[j].key,
                        );
                    }
                }
                let now = bucket_before.skip(n - 1);
                assert(now[0] == model);
                assert forall|other: EntryModel, way: Seq<u8>| #[trigger]
                    child@.keeps(
                        other,
                        way,
                        (depth + 1) as nat,
                        width,
                    ) implies now.contains(other) by {
                    if other != model {
                        assert(child_was.keeps(
                            other,
                            way,
                            (depth + 1) as nat,
                            width,
                        ));
                        let later = bucket_before.skip(n);
                        let j = choose|j: int|
                            0 <= j < later.len() && later[j] == other;
                        assert(now[j + 1] == other);
                    }
                }
            }
        }
        proof {
            assert(bucket_before.skip(0) =~= bucket_before);
            lemma_shaped_find(
                child@,
                key_model,
                digest_model,
                (depth + 1) as nat,
                width,
                size,
            );
            if child@.find(key_model, digest_model, (depth + 1) as nat, width)
                matches Ok(Some(_)) {
                let twin = lemma_find_keeps(
                    child@,
                    key_model,
                    digest_model,
                    (depth + 1) as nat,
                    width,
                );
                assert(bucket_before.contains(twin));
                let j = choose|j: int|
                    0 <= j < bucket_before.len() && bucket_before[j] == twin;
                lemma_bucket_get_at(bucket_before, j);
            }
        }
        let ghost child_before = child@;
        let added = child.set(
            entry.key,
            entry.value,
            entry.digest,
            depth + 1,
            options,
        );
        assert(added is Ok);
        proof {
            if tied {
                lemma_get_after_set(
                    child_before,
                    child@,
                    key_model,
                    value_model,
                    (depth + 1) as nat,
                    width,
                );
                assert forall|k: Seq<u8>| #[trigger]
                    child_before.get(k, (depth + 1) as nat, width)
                        == spec_bucket_get(bucket_before, k) by {
                    let m = child_before.entries((depth + 1) as nat, width);
                    assert(m.dom().contains(k) == (spec_bucket_get(
                        bucket_before,
                        k,
                    ) is Some));
                    if m.dom().contains(k) {
                        assert(m[k] == spec_bucket_get(bucket_before, k)->0);
                    }
                }
            }
        }
        proof {
            assert(spec_put_stores(
                child_before,
                child@,
                entry_model,
                (depth + 1) as nat,
                width,
            ));
            assert forall|j: int| 0 <= j < bucket_before.len() implies child@.stores(
                #[trigger] bucket_before[j],
                (depth + 1) as nat,
                width,
            ) by {
                assert(child_before.stores(bucket_before[j], (depth + 1) as nat, width));
                lemma_bucket_get_at(bucket_before, j);
            }
            assert forall|other: EntryModel, way: Seq<u8>| #[trigger]
                child@.keeps(other, way, (depth + 1) as nat, width) implies other == entry_model
                || bucket_before.contains(other) by {
                if other != entry_model {
                    assert(child_before.keeps(other, way, (depth + 1) as nat, width));
                }
            }
            if tied {
                assert forall|k: Seq<u8>| #[trigger]
                    child@.get(k, (depth + 1) as nat, width) == if k == key_model {
                        Some(value_model)
                    } else {
                        spec_bucket_get(bucket_before, k)
                    } by {
                    assert(child_before.get(k, (depth + 1) as nat, width) == spec_bucket_get(
                        bucket_before,
                        k,
                    ));
                }
            }
        }
        child
    }

    /// Puts a pair into what a slot of a node at `depth` holds, and gives back what the slot
    /// then holds: an empty slot takes a bucket of the pair, a bucket takes the pair or, where
    /// it is full and the digest has bits left, becomes a child, and a child takes the pair
    /// below it. Where the insert below fails, the slot holds what it held.
    fn slot_put(
        slot: Option<Element>,
        entry: BucketEntry,
        depth: usize,
        options: &HashMapOptions,
    ) -> (out: (Option<Element>, Result<(), HashMapError>))
        requires
            options.wf(),
            spec_element_ok(slot),
            entry@.digest.len() == 32,
            (depth + 1) * options.bit_width <= 256,
        ensures
            spec_element_ok(out.0),
            match spec_slot_view(slot).find(
                entry@.key,
                entry@.digest,
                depth as nat,
                options.bit_width as nat,
            ) {
                Err(error) => out.1 == Err::<(), HashMapError>(error) && spec_slot_view(out.0)
                    == spec_slot_view(slot),
                Ok(_) => out.1 is Ok,
            },
            out.1 is Ok ==> spec_slot_step(
                spec_slot_view(slot),
                spec_slot_view(out.0),
                entry@,
                depth as nat,
                options.bit_width as nat,
                options.bucket_size as nat,
            ),
            spec_slot_tied(
                spec_slot_view(slot),
                entry@,
                depth as nat,
                options.bit_width as nat,
                options.bucket_size as nat,
            ) ==> out.1 is Ok && spec_slot_took(
                spec_slot_view(slot),
                spec_slot_view(out.0),
                entry@,
                depth as nat,
                options.bit_width as nat,
                options.bucket_size as nat,
            ),
        decreases 256 - depth, 1nat,
    {
        let ghost width = options.bit_width as nat;
        let ghost size = options.bucket_size as nat;
        let ghost slot_before = spec_slot_view(slot);
        let ghost entry_model = entry@;
        let ghost key_model = entry@.key;
        let ghost value_model = entry@.value;
        let ghost deeper = spec_path(entry@.digest, (depth + 1) as nat, width);
        let ghost tied = spec_slot_tied(slot_before, entry@, depth as nat, width, size);
        let ghost formed = slot_before.shaped(depth as nat, width, size);
        assert(depth < 256) by (nonlinear_arith)
            requires
                (depth + 1) * options.bit_width <= 256,
                1 <= options.bit_width,
        ;
        assert((depth + 2) * options.bit_width <= 258 * 8) by (nonlinear_arith)
            requires
                depth < 256,
                options.bit_width <= 8,
        ;
        let can_split = (depth + 2) * options.bit_width <= 256;
        match slot {
            None => {
                let mut bucket: Vec<BucketEntry> = Vec::new();
                bucket.push(entry);
                let ghost model = spec_bucket_view(bucket@);
                proof {
                    assert(model =~= seq![entry_model]);
                    assert(model.drop_first() =~= Seq::<EntryModel>::empty());
                    assert(tied ==> spec_bucket_wf(model, deeper, width, size));
                    assert(spec_bucket_ok(model));
                    assert(spec_bucket_shaped(model, depth as nat, width, size));
                    assert forall|k: Seq<u8>| #[trigger]
                        spec_bucket_get(model, k) == if k == key_model {
                            Some(value_model)
                        } else {
                            None::<Seq<u8>>
                        } by {
                        assert(spec_bucket_get(model.drop_first(), k) is None);
                    }
                    assert(spec_bucket_get(model, key_model) == Some(value_model));
                    assert(model[0] == entry_model);
                }
                let replaced = Some(Element::Bucket(bucket));
                proof {
                    let slot_after = spec_slot_view(replaced);
                    assert(slot_after == SlotModel::Bucket(model));
                    assert(slot_before == SlotModel::Empty);
                    assert(spec_slot_put(
                        slot_before,
                        slot_after,
                        entry_model,
                        depth as nat,
                        width,
                        size,
                    ));
                    assert forall|k: Seq<u8>| #[trigger]
                        slot_after.get(k, depth as nat, width) == if k == key_model {
                            Some(value_model)
                        } else {
                            slot_before.get(k, depth as nat, width)
                        } by {
                        assert(spec_bucket_get(model, k) == if k == key_model {
                            Some(value_model)
                        } else {
                            None::<Seq<u8>>
                        });
                    }
                }
                (replaced, Ok(()))
            },
            Some(Element::Node(mut child)) => {
                let ghost child_before = child@;
                assert(slot_before == SlotModel::Child(child_before));
                let moved = child.set(entry.key, entry.value, entry.digest, depth + 1, options);
                let ghost child_after = child@;
                let replaced = Some(Element::Node(child));
                proof {
                    let slot_after = spec_slot_view(replaced);
                    assert(slot_after == SlotModel::Child(child_after));
                    if moved is Ok {
                        assert(spec_put_stores(
                            child_before,
                            child_after,
                            entry_model,
                            (depth + 1) as nat,
                            width,
                        ));
                        assert(slot_after.stores(entry_model, depth as nat, width));
                        assert forall|other: EntryModel| #[trigger]
                            slot_before.stores(other, depth as nat, width) && other.key
                                != key_model implies slot_after.stores(
                            other,
                            depth as nat,
                            width,
                        ) by {
                            assert(child_before.stores(other, (depth + 1) as nat, width));
                        }
                        assert forall|other: EntryModel, way: Seq<u8>| #[trigger]
                            slot_after.keeps(other, way, depth as nat, width) implies other
                            == entry_model || slot_before.keeps(
                            other,
                            way,
                            depth as nat,
                            width,
                        ) by {
                            assert(child_after.keeps(other, way, (depth + 1) as nat, width));
                        }
                        assert(slot_after.count() == child_after.count());
                        assert(slot_before.count() == child_before.count());
                        assert(spec_slot_put(
                            slot_before,
                            slot_after,
                            entry_model,
                            depth as nat,
                            width,
                            size,
                        ));
                    }
                    if tied {
                        lemma_get_after_set(
                            child_before,
                            child_after,
                            key_model,
                            value_model,
                            (depth + 1) as nat,
                            width,
                        );
                        assert forall|k: Seq<u8>| #[trigger]
                            slot_after.get(k, depth as nat, width) == if k == key_model {
                                Some(value_model)
                            } else {
                                slot_before.get(k, depth as nat, width)
                            } by {
                            assert(child_after.get(k, (depth + 1) as nat, width) == if k
                                == key_model {
                                Some(value_model)
                            } else {
                                child_before.get(k, (depth + 1) as nat, width)
                            });
                        }
                    }
                }
                (replaced, moved)
            },
            Some(Element::Bucket(mut bucket)) => {
                let ghost bucket_before = spec_bucket_view(bucket@);
                assert(slot_before == SlotModel::Bucket(bucket_before));
                assert(spec_bucket_ok(bucket_before));
                match bucket_put(&mut bucket, entry, options.bucket_size, can_split) {
                    None => {
                        proof {
                            let after = spec_bucket_view(bucket@);
                            assert(bucket@.len() == bucket.len());
                            assert forall|j: int| 0 <= j < after.len() implies (
                            #[trigger] after[j]).digest.len() == 32 by {
                                if after[j] != entry_model {
                                    let j0 = choose|j0: int|
                                        0 <= j0 < bucket_before.len() && bucket_before[j0]
                                            == after[j];
                                    assert(bucket_before[j0].digest.len() == 32);
                                }
                            }
                            assert(spec_bucket_ok(after));
                            if formed {
                                assert(spec_bucket_shaped(
                                    bucket_before,
                                    depth as nat,
                                    width,
                                    size,
                                ));
                                assert(spec_bucket_shaped(after, depth as nat, width, size));
                            }
                            if tied {
                                assert forall|j: int| 0 <= j < after.len() implies spec_entry_wf(
                                    #[trigger] after[j],
                                    deeper,
                                    width,
                                ) by {
                                    if after[j] != entry_model {
                                        let j0 = choose|j0: int|
                                            0 <= j0 < bucket_before.len() && bucket_before[j0]
                                                == after[j];
                                        assert(spec_entry_wf(bucket_before[j0], deeper, width));
                                    }
                                }
                                assert(spec_bucket_wf(after, deeper, width, size));
                            }
                        }
                        let ghost bucket_after = spec_bucket_view(bucket@);
                        let replaced = Some(Element::Bucket(bucket));
                        proof {
                            let slot_after = spec_slot_view(replaced);
                            assert(slot_after == SlotModel::Bucket(bucket_after));
                            assert(spec_bucket_get(bucket_after, key_model) == Some(value_model));
                            assert forall|other: EntryModel|
                                bucket_before.contains(other) && other.key
                                    != key_model implies bucket_after.contains(other) by {
                                let j = choose|j: int|
                                    0 <= j < bucket_before.len() && bucket_before[j] == other;
                                assert(bucket_after.contains(bucket_before[j]));
                            }
                            assert forall|other: EntryModel|
                                bucket_after.contains(other) implies other == entry_model
                                || bucket_before.contains(other) by {
                                let j = choose|j: int|
                                    0 <= j < bucket_after.len() && bucket_after[j] == other;
                                assert(bucket_after[j] == entry_model || bucket_before.contains(
                                    bucket_after[j],
                                ));
                            }
                            assert(spec_slot_put(
                                slot_before,
                                slot_after,
                                entry_model,
                                depth as nat,
                                width,
                                size,
                            ));
                            assert forall|k: Seq<u8>| #[trigger]
                                slot_after.get(k, depth as nat, width) == if k == key_model {
                                    Some(value_model)
                                } else {
                                    slot_before.get(k, depth as nat, width)
                                } by {
                                assert(spec_bucket_get(bucket_after, k) == if k == key_model {
                                    Some(value_model)
                                } else {
                                    spec_bucket_get(bucket_before, k)
                                });
                            }
                        }
                        (replaced, Ok(()))
                    },
                    Some(entry) => {
                        let child = Node::refill(bucket, entry, depth, options);
                        let ghost child_after = child@;
                        proof {
                            lemma_shaped_parts(child_after, (depth + 1) as nat, width, size);
                        }
                        let replaced = Some(Element::Node(child));
                        proof {
                            let slot_after = spec_slot_view(replaced);
                            assert(slot_after == SlotModel::Child(child_after));
                            assert(slot_after.stores(entry_model, depth as nat, width));
                            assert forall|other: EntryModel| #[trigger]
                                slot_before.stores(other, depth as nat, width) && other.key
                                    != key_model implies slot_after.stores(
                                other,
                                depth as nat,
                                width,
                            ) by {
                                let j = choose|j: int|
                                    0 <= j < bucket_before.len() && bucket_before[j] == other;
                                assert(child_after.stores(
                                    bucket_before[j],
                                    (depth + 1) as nat,
                                    width,
                                ));
                            }
                            assert forall|other: EntryModel, way: Seq<u8>| #[trigger]
                                slot_after.keeps(other, way, depth as nat, width) implies other
                                == entry_model || slot_before.keeps(
                                other,
                                way,
                                depth as nat,
                                width,
                            ) by {
                                assert(child_after.keeps(other, way, (depth + 1) as nat, width));
                            }
                            assert(slot_after.count() == child_after.count());
                            assert(slot_before.count() == bucket_before.len());
                            assert(spec_slot_put(
                                slot_before,
                                slot_after,
                                entry_model,
                                depth as nat,
                                width,
                                size,
                            ));
                            if tied {
                                assert forall|k: Seq<u8>| #[trigger]
                                    slot_after.get(k, depth as nat, width) == if k == key_model {
                                        Some(value_model)
                                    } else {
                                        slot_before.get(k, depth as nat, width)
                                    } by {
                                    assert(child_after.get(k, (depth + 1) as nat, width) == if k
                                        == key_model {
                                        Some(value_model)
                                    } else {
                                        spec_bucket_get(bucket_before, k)
                                    });
                                }
                            }
                        }
                        (replaced, Ok(()))
                    },
                }
            },
        }
    }

    /// Stores `value` under `key` in the subtree below this node, which stands at `depth`,
    /// at the place that `digest` leads to. A value already stored under the key is
    /// replaced. A bucket that is full is split into a child node, as long as the digest has
    /// bits left for a further level.
    ///
    /// The insert fails exactly where a lookup that follows the same digest fails, and then
    /// leaves the node as it was: with `BadDigest` where the digest is not one of 32 bytes or
    /// has no bits left for the depth reached, with `OutOfBounds` where it selects a slot
    /// that the node reached does not have.
    ///
    /// Whatever digest is handed in, an insert that succeeds changes the one slot that the
    /// digest selects, a lookup that follows the digest then finds the value, and the number
    /// of pairs below the node has grown by one where such a lookup found no value before,
    /// and not at all where it found one. The subtree keeps its shape: the slots of every
    /// node, the bound on every bucket and the order of its keys. Where the digest is that
    /// of the key and the subtree is well formed, it stays so and holds what it held and the
    /// new pair.
    pub fn set(
        &mut self,
        key: Vec<u8>,
        value: Cid,
        digest: Vec<u8>,
        depth: usize,
        options: &HashMapOptions,
    ) -> (done: Result<(), HashMapError>)
        requires
            options.wf(),
        ensures
            match old(self)@.find(key@, digest@, depth as nat, options.bit_width as nat) {
                Err(error) => done == Err::<(), HashMapError>(error) && final(self)@ == old(
                    self,
                )@,
                Ok(_) => done is Ok,
            },
            done is Ok ==> {
                let slot = spec_slot(digest@, depth as nat, options.bit_width as nat) as int;
                &&& final(self)@.slots == old(self)@.slots.update(slot, final(self)@.slots[slot])
                &&& !(final(self)@.slots[slot] is Empty)
                &&& spec_slot_put(
                    old(self)@.slots[slot],
                    final(self)@.slots[slot],
                    EntryModel { key: key@, value: value@, digest: digest@ },
                    depth as nat,
                    options.bit_width as nat,
                    options.bucket_size as nat,
                )
                &&& final(self)@.find(key@, digest@, depth as nat, options.bit_width as nat)
                    == Ok::<Option<Seq<u8>>, HashMapError>(Some(value@))
                &&& spec_put_stores(
                    old(self)@,
                    final(self)@,
                    EntryModel { key: key@, value: value@, digest: digest@ },
                    depth as nat,
                    options.bit_width as nat,
                )
                &&& final(self)@.count() == old(self)@.count() + if old(self)@.find(
                    key@,
                    digest@,
                    depth as nat,
                    options.bit_width as nat,
                ) matches Ok(Some(_)) {
                    0int
                } else {
                    1int
                }
            },
            old(self)@.shaped(
                depth as nat,
                options.bit_width as nat,
                options.bucket_size as nat,
            ) ==> final(self)@.shaped(
                depth as nat,
                options.bit_width as nat,
                options.bucket_size as nat,
            ),
            old(self)@.sized(options.bit_width as nat) ==> final(self)@.sized(
                options.bit_width as nat,
            ),
            old(self)@.bounded(
                depth as nat,
                options.bit_width as nat,
                options.bucket_size as nat,
            ) ==> final(self)@.bounded(
                depth as nat,
                options.bit_width as nat,
                options.bucket_size as nat,
            ),
            old(self)@.sorted() ==> final(self)@.sorted(),
            spec_tied(
                old(self)@,
                key@,
                digest@,
                depth as nat,
                options.bit_width as nat,
                options.bucket_size as nat,
            ) ==> {
                &&& done is Ok
                &&& final(self)@.wf(
                    spec_path(digest@, depth as nat, options.bit_width as nat),
                    options.bit_width as nat,
                    options.bucket_size as nat,
                )
                &&& final(self)@.entries(depth as nat, options.bit_width as nat) == old(
                    self,
                )@.entries(depth as nat, options.bit_width as nat).insert(key@, value@)
            },
        decreases 256 - depth, 2nat,
    {
        let ghost width = options.bit_width as nat;
        let ghost size = options.bucket_size as nat;
        let ghost path = spec_path(digest@, depth as nat, width);
        let ghost before = self@;
        let ghost key_model = key@;
        let ghost value_model = value@;
        let ghost tied = spec_tied(before, key@, digest@, depth as nat, width, size);
        proof {
            crate::query::lemma_bits_run_out(depth as nat, width);
            if tied {
                lemma_wf_shaped(before, path, width, size);
                lemma_shaped_find(before, key@, digest@, depth as nat, width, size);
            }
        }
        if digest.len() != DIGEST_LEN || depth >= 256 / options.bit_width {
            return Err(HashMapError::BadDigest);
        }
        assert(depth < 256) by (nonlinear_arith)
            requires
                (depth + 1) * options.bit_width <= 256,
                1 <= options.bit_width,
        ;
        let index = slot_index(digest.as_slice(), depth, options.bit_width);
        if index >= self.elements.len() {
            return Err(HashMapError::OutOfBounds);
        }
        let ghost deeper = path.push(index as nat);
        proof {
            use_type_invariant(&value);
            use_type_invariant(&*self);
            assert(deeper =~= spec_path(digest@, (depth + 1) as nat, width));
            if tied {
                assert(before.slots[index as int].wf(deeper, width, size));
                assert(spec_follows(digest@, deeper, width));
            }
        }
        assert(key@.len() == key.len());
        let entry = BucketEntry { key, value, digest };
        let ghost entry_model = entry@;
        assert(tied ==> spec_entry_wf(entry@, deeper, width));
        let mut taken = Node { elements: Vec::new() };
        core::mem::swap(self, &mut taken);
        let Node { elements } = taken;
        let mut elements = elements;
        let ghost held = elements@;
        assert(spec_element_ok(held[index as int]));
        let ghost slot_before = before.slots[index as int];
        let slot = elements[index].take();
        assert(spec_slot_view(slot) == slot_before);
        let (replaced, done) = Node::slot_put(slot, entry, depth, options);
        let ghost slot_after = spec_slot_view(replaced);
        elements.set(index, replaced);
        *self = Node { elements };
        assert(self@.slots =~= before.slots.update(index as int, slot_after));
        match done {
            Err(error) => {
                assert(self@.slots =~= before.slots);
                return Err(error);
            },
            Ok(_) => {},
        }
        proof {
            let after = self@;
            lemma_node_step(before, after, entry_model, depth as nat, width, size);
            if tied {
                assert forall|i: int| 0 <= i < after.slots.len() implies (
                #[trigger] after.slots[i]).wf(path.push(i as nat), width, size) by {
                    if i != index {
                        assert(after.slots[i] == before.slots[i]);
                        assert(before.slots[i].wf(path.push(i as nat), width, size));
                    }
                }
                lemma_entries_after_set(
                    before,
                    after,
                    index as int,
                    key_model,
                    value_model,
                    depth as nat,
                    width,
                );
            }
        }
        Ok(())
    }

    /// The value stored for `key` in the subtree below this node, which stands at `depth`,
    /// at the place that `digest` leads to.
    ///
    /// The lookup fails with `BadDigest` where the digest is not one of 32 bytes or has no
    /// bits left for the depth reached, and with `OutOfBounds` where it selects a slot that
    /// the node reached does not have.
    pub fn get(&self, key: &[u8], digest: &[u8], depth: usize, options: &HashMapOptions) -> (found:
        Result<Option<&Cid>, HashMapError>)
        requires
            options.wf(),
        ensures
            spec_found(found) == self@.find(
                key@,
                digest@,
                depth as nat,
                options.bit_width as nat,
            ),
            digest@ == spec_sha2_256(key@) && digest@.len() == DIGEST_LEN && self@.wf(
                spec_path(digest@, depth as nat, options.bit_width as nat),
                options.bit_width as nat,
                options.bucket_size as nat,
            ) ==> spec_found(found) == Ok::<Option<Seq<u8>>, HashMapError>(
                self@.get(key@, depth as nat, options.bit_width as nat),
            ),
        decreases self,
    {
        let ghost width = options.bit_width as nat;
        proof {
            crate::query::lemma_bits_run_out(depth as nat, width);
            if digest@ == spec_sha2_256(key@) && digest@.len() == DIGEST_LEN {
                let path = spec_path(digest@, depth as nat, width);
                if self@.wf(path, width, options.bucket_size as nat) {
                    lemma_find_is_get(self@, path, width, options.bucket_size as nat, key@);
                }
            }
        }
        if digest.len() != DIGEST_LEN || depth >= 256 / options.bit_width {
            return Err(HashMapError::BadDigest);
        }
        assert(depth < 256) by (nonlinear_arith)
            requires
                (depth + 1) * options.bit_width <= 256,
                1 <= options.bit_width,
        ;
        let index = slot_index(digest, depth, options.bit_width);
        if index >= self.elements.len() {
            return Err(HashMapError::OutOfBounds);
        }
        proof {
            use_type_invariant(self);
            assert(spec_element_ok(self.elements@[index as int]));
        }
        match &self.elements[index] {
            None => Ok(None),
            Some(Element::Node(child)) => child.get(key, digest, depth + 1, options),
            Some(Element::Bucket(bucket)) => {
                let ghost model = spec_bucket_view(bucket@);
                match bucket_find(bucket, key) {
                    Ok(i) => {
                        proof {
                            lemma_bucket_get_at(model, i as int);
                        }
                        Ok(Some(&bucket[i].value))
                    },
                    Err(_) => {
                        proof {
                            assert forall|j: int| 0 <= j < model.len() implies (
                            #[trigger] model[j]).key != key@ by {
                                if spec_key_lt(model[j].key, key@) {
                                    crate::key::lemma_key_lt_asymmetric(model[j].key, key@);
                                } else {
                                    crate::key::lemma_key_lt_asymmetric(key@, model[j].key);
                                }
                            }
                            lemma_bucket_get_none(model, key@);
                        }
                        Ok(None)
                    },
                }
            },
        }
    }

    /// Writes the blocks of the subtrees below this node into `store`, the blocks of every
    /// child before the block of its parent, and gives this node as it stands in its own
    /// block, which is not written. Stops at the first block that the store does not take.
    pub fn collapse_children<S: CidStore>(&self, store: &mut S) -> (collapsed: Result<
        MapBlock,
        HashMapError,
    >)
        ensures
            old(store).reliable() ==> collapsed is Ok && final(store).reliable(),
            match collapsed {
                Ok(block) => {
                    &&& block@ == self@.block()
                    &&& final(store).written() == old(store).written() + self@.child_blocks(
                        self@.slots.len(),
                    )
                },
                Err(error) => {
                    &&& error == HashMapError::SinkIO
                    &&& spec_put_some(
                        old(store).written(),
                        self@.child_blocks(self@.slots.len()),
                        final(store).written(),
                    )
                },
            },
        decreases self, 0nat,
    {
        let ghost model = self@;
        let ghost held = store.written();
        let mut block = MapBlock { elements: Vec::new() };
        proof {
            assert(held + model.child_blocks(0) =~= held);
        }
        let mut i: usize = 0;
        while i < self.elements.len()
            invariant
                i <= self.elements@.len(),
                model == self@,
                model.slots.len() == self.elements@.len(),
                held == old(store).written(),
                old(store).reliable() ==> store.reliable(),
                block.elements@.len() == i,
                block@ == model.block().take(i as int),
                store.written() == held + model.child_blocks(i as nat),
            decreases self.elements@.len() - i,
        {
            let ghost so_far = store.written();
            let ghost block_before = block@;
            match &self.elements[i] {
                None => {
                    block.elements.push(None);
                },
                Some(Element::Bucket(bucket)) => {
                    let mut pairs: Vec<Pair> = Vec::new();
                    let mut j: usize = 0;
                    while j < bucket.len()
                        invariant
                            j <= bucket@.len(),
                            pairs@.len() == j,
                            spec_pairs_view(pairs@) == spec_bucket_pairs(
                                spec_bucket_view(bucket@),
                            ).take(j as int),
                        decreases bucket@.len() - j,
                    {
                        let key = bucket[j].key.clone();
                        assert(key@ =~= bucket@[j as int].key@);
                        let value = bucket[j].value.clone();
                        pairs.push(Pair { key, value });
                        proof {
                            assert(spec_pairs_view(pairs@) =~= spec_bucket_pairs(
                                spec_bucket_view(bucket@),
                            ).take(j + 1));
                        }
                        j = j + 1;
                    }
                    proof {
                        assert(spec_pairs_view(pairs@) =~= spec_bucket_pairs(
                            spec_bucket_view(bucket@),
                        ));
                    }
                    block.elements.push(Some(BlockElement::Bucket(pairs)));
                },
                Some(Element::Node(child)) => {
                    match child.collapse(store) {
                        Ok(cid) => {
                            block.elements.push(Some(BlockElement::Node(cid)));
                        },
                        Err(error) => {
                            proof {
                                let all = model.child_blocks(model.slots.len());
                                let before = model.child_blocks(i as nat);
                                let here = child@.blocks();
                                let k = choose|k: int|
                                    0 <= k < here.len() && store.written() == so_far
                                        + #[trigger] here.take(k);
                                lemma_child_blocks_prefix(
                                    model,
                                    (i + 1) as nat,
                                    model.slots.len(),
                                );
                                assert(model.slots[i as int] == SlotModel::Child(child@));
                                assert(model.slots[i as int].blocks() == here);
                                assert(model.child_blocks((i + 1) as nat) == before + here);
                                assert(all.take(before.len() + k) =~= before + here.take(k)) by {
                                    assert(all.take((before + here).len() as int) == before
                                        + here);
                                    assert(all.take(before.len() + k) =~= all.take(
                                        (before + here).len() as int,
                                    ).take(before.len() + k));
                                }
                                assert(store.written() =~= held + all.take(before.len() + k));
                            }
                            return Err(error);
                        },
                    }
                },
            }
            proof {
                assert(block@ =~= block_before.push(model.slots[i as int].collapsed()));
                assert(model.block().take(i + 1) =~= model.block().take(i as int).push(
                    model.slots[i as int].collapsed(),
                ));
                assert(held + model.child_blocks((i + 1) as nat) =~= held + model.child_blocks(
                    i as nat,
                ) + model.slots[i as int].blocks());
            }
            i = i + 1;
        }
        proof {
            assert(model.block().take(i as int) =~= model.block());
        }
        Ok(block)
    }

    /// Writes the blocks of the subtree below this node into `store`, the blocks of every
    /// child before the block of its parent, and gives the identifier of this node's block.
    /// Stops at the first block that the store does not take.
    pub fn collapse<S: CidStore>(&self, store: &mut S) -> (root: Result<Cid, HashMapError>)
        ensures
            old(store).reliable() ==> root is Ok && final(store).reliable(),
            match root {
                Ok(cid) => {
                    &&& cid@ == self@.cid()
                    &&& final(store).written() == old(store).written() + self@.blocks()
                },
                Err(error) => {
                    &&& error == HashMapError::SinkIO
                    &&& spec_put_some(old(store).written(), self@.blocks(), final(store).written())
                },
            },
        decreases self, 1nat,
    {
        let ghost model = self@;
        let ghost held = store.written();
        let block = match self.collapse_children(store) {
            Ok(block) => block,
            Err(error) => {
                proof {
                    let children = model.child_blocks(model.slots.len());
                    let k = choose|k: int|
                        0 <= k < children.len() && store.written() == held
                            + #[trigger] children.take(k);
                    assert(model.blocks().take(k) =~= children.take(k));
                }
                return Err(error);
            },
        };
        let bytes = block.encode();
        let cid = Cid::of_block(bytes.as_slice());
        let ghost children = model.child_blocks(model.slots.len());
        let ghost own = BlockModel { cid: model.cid(), bytes: spec_encode_block(model.block()) };
        match store.insert(&cid, bytes) {
            Ok(_) => {
                proof {
                    assert(store.written() =~= held + model.blocks());
                }
                Ok(cid)
            },
            Err(_) => {
                proof {
                    let children = model.child_blocks(model.slots.len());
                    assert(model.blocks().take(children.len() as int) =~= children);
                }
                Err(HashMapError::SinkIO)
            },
        }
    }

    /// The only child of this node, if it has one child and nothing else.
    pub fn single_child(&self) -> (child: Option<&Node>)
        ensures
            match spec_single_child(self@) {
                None => child is None,
                Some(i) => child matches Some(node) && self@.slots[i] == SlotModel::Child(node@),
            },
    {
        let ghost model = self@;
        let mut found: Option<usize> = None;
        let mut many: bool = false;
        let ghost mut first: int = 0;
        let ghost mut second: int = 0;
        let mut i: usize = 0;
        while i < self.elements.len()
            invariant
                i <= self.elements@.len(),
                model == self@,
                model.slots.len() == self.elements@.len(),
                !many && found is None ==> forall|j: int|
                    0 <= j < i ==> #[trigger] model.slots[j] is Empty,
                !many ==> (found matches Some(f) ==> {
                    &&& f < i
                    &&& !(model.slots[f as int] is Empty)
                    &&& forall|j: int|
                        0 <= j < i && j != f ==> #[trigger] model.slots[j] is Empty
                }),
                many ==> {
                    &&& 0 <= first < second < i
                    &&& !(model.slots[first] is Empty)
                    &&& !(model.slots[second] is Empty)
                },
            decreases self.elements@.len() - i,
        {
            assert(model.slots[i as int] is Empty <==> self.elements@[i as int] is None);
            if self.elements[i].is_some() {
                match found {
                    None => {
                        found = Some(i);
                    },
                    Some(f) => {
                        if !many {
                            proof {
                                first = f as int;
                                second = i as int;
                            }
                        }
                        many = true;
                    },
                }
            }
            i = i + 1;
        }
        if many {
            proof {
                assert forall|c: int| !spec_is_single_child(model, c) by {
                    if spec_is_single_child(model, c) {
                        if c != first {
                            assert(model.slots[first] is Empty);
                        } else {
                            assert(model.slots[second] is Empty);
                        }
                    }
                }
            }
            return None;
        }
        match found {
            None => {
                proof {
                    assert forall|c: int| !spec_is_single_child(model, c) by {
                        if spec_is_single_child(model, c) {
                            assert(model.slots[c] is Empty);
                        }
                    }
                }
                None
            },
            Some(f) => {
                match &self.elements[f] {
                    Some(Element::Node(child)) => {
                        proof {
                            assert(model.slots[f as int] == SlotModel::Child(child@));
                            assert(spec_is_single_child(model, f as int));
                            let chosen = choose|c: int| spec_is_single_child(model, c);
                            lemma_single_child_unique(model, chosen, f as int);
                        }
                        Some(child)
                    },
                    _ => {
                        proof {
                            assert(!(model.slots[f as int] is Child));
                            assert forall|c: int| !spec_is_single_child(model, c) by {
                                if spec_is_single_child(model, c) {
                                    if c != f {
                                        assert(model.slots[f as int] is Empty);
                                    }
                                }
                            }
                        }
                        None
                    },
                }
            },
        }
    }

    /// A node with every slot empty.
    pub fn new(width: usize) -> (node: Node)
        requires
            1 <= width <= 8,
        ensures
            node@.slots.len() == spec_fanout(width as nat),
            forall|i: int| 0 <= i < node@.slots.len() ==> node@.slots[i] is Empty,
    {
        let n = fanout(width);
        let mut elements: Vec<Option<Element>> = Vec::new();
        let mut i: usize = 0;
        while i < n
            invariant
                i <= n,
                elements@.len() == i,
                forall|k: int| 0 <= k < i ==> elements@[k] is None,
            decreases n - i,
        {
            elements.push(None);
            i = i + 1;
        }
        Node { elements }
    }
}

} // verus!
