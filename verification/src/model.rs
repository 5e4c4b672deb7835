//! The mathematical model of a tree: what it holds, and when it is well formed.

use vstd::prelude::*;
use crate::bits::{lemma_to_int_bound, spec_bits, spec_fanout, spec_slot};
use crate::error::HashMapError;
use crate::block::{spec_encode_block, BlockSlot, PairModel};
use crate::cid::spec_block_cid;
use crate::cidstore::BlockModel;
use crate::hash::spec_sha2_256;
use crate::key::{lemma_key_lt_asymmetric, spec_key_lt};

verus! {

/// The number of bits in a digest.
pub open spec fn spec_digest_bits() -> nat {
    256
}

/// One pair of a bucket: the key, the digest of the value's identifier, and the key's digest.
pub struct EntryModel {
    pub key: Seq<u8>,
    pub value: Seq<u8>,
    pub digest: Seq<u8>,
}

/// What a slot of a node holds.
pub enum SlotModel {
    Empty,
    Bucket(Seq<EntryModel>),
    Child(NodeModel),
}

/// A node: one slot for each value of the bits it consumes.
pub struct NodeModel {
    pub slots: Seq<SlotModel>,
}

/// The slots that a digest selects from the root down to, and without, `depth`.
pub open spec fn spec_path(digest: Seq<u8>, depth: nat, width: nat) -> Seq<nat> {
    Seq::new(depth, |d: int| spec_slot(digest, d as nat, width))
}

/// Whether a digest selects the slots of `path`, in order from the root.
pub open spec fn spec_follows(digest: Seq<u8>, path: Seq<nat>, width: nat) -> bool {
    forall|d: int| 0 <= d < path.len() ==> spec_slot(digest, d as nat, width) == #[trigger] path[d]
}

/// The value that a bucket holds for a key.
pub open spec fn spec_bucket_get(bucket: Seq<EntryModel>, key: Seq<u8>) -> Option<Seq<u8>>
    decreases bucket.len(),
{
    if bucket.len() == 0 {
        None
    } else if bucket.first().key == key {
        Some(bucket.first().value)
    } else {
        spec_bucket_get(bucket.drop_first(), key)
    }
}

/// The mapping from keys to values that a bucket holds.
pub open spec fn spec_bucket_map(bucket: Seq<EntryModel>) -> Map<Seq<u8>, Seq<u8>> {
    Map::new(
        |key: Seq<u8>| spec_bucket_get(bucket, key) is Some,
        |key: Seq<u8>| spec_bucket_get(bucket, key)->0,
    )
}

/// Whether the keys of a bucket ascend strictly.
pub open spec fn spec_bucket_sorted(bucket: Seq<EntryModel>) -> bool {
    forall|i: int, j: int|
        0 <= i < j < bucket.len() ==> spec_key_lt(
            #[trigger] bucket[i].key,
            #[trigger] bucket[j].key,
        )
}

/// Whether a node at `depth` can have children: whether a further level of `width` bits is
/// left in the digest below it.
pub open spec fn spec_can_split(depth: nat, width: nat) -> bool {
    (depth + 2) * width <= spec_digest_bits()
}

/// Whether a pair may stand in the slot at the end of `path`: its key has a length that the
/// machine can hold, its digest is that of its key and leads there, and its value is the
/// digest of an identifier.
pub open spec fn spec_entry_wf(entry: EntryModel, path: Seq<nat>, width: nat) -> bool {
    &&& entry.key.len() <= usize::MAX
    &&& entry.digest == spec_sha2_256(entry.key)
    &&& entry.digest.len() == 32
    &&& entry.value.len() == 32
    &&& spec_follows(entry.digest, path, width)
}

/// Whether a bucket may stand in the slot at the end of `path`: it is not empty, its keys
/// ascend strictly, and it holds at most `bucket_size` pairs unless its node is at the last
/// level.
pub open spec fn spec_bucket_wf(
    bucket: Seq<EntryModel>,
    path: Seq<nat>,
    width: nat,
    bucket_size: nat,
) -> bool {
    &&& 1 <= bucket.len() <= usize::MAX
    &&& spec_can_split((path.len() - 1) as nat, width) ==> bucket.len() <= bucket_size
    &&& spec_bucket_sorted(bucket)
    &&& forall|j: int| 0 <= j < bucket.len() ==> spec_entry_wf(#[trigger] bucket[j], path, width)
}

/// The pairs of a bucket as they stand in a block: without the digests of the keys.
pub open spec fn spec_bucket_pairs(bucket: Seq<EntryModel>) -> Seq<PairModel> {
    Seq::new(bucket.len(), |j: int| PairModel { key: bucket[j].key, value: bucket[j].value })
}

/// What a node stores after an insert of a pair, against what it stored before: the pair
/// and every pair with another key that it stored; and it keeps no pair besides, wherever
/// one looks.
pub open spec fn spec_put_stores(
    before: NodeModel,
    after: NodeModel,
    entry: EntryModel,
    depth: nat,
    width: nat,
) -> bool {
    &&& after.stores(entry, depth, width)
    &&& forall|other: EntryModel| #[trigger]
        before.stores(other, depth, width) && other.key != entry.key ==> after.stores(
            other,
            depth,
            width,
        )
    &&& forall|other: EntryModel, digest: Seq<u8>| #[trigger]
        after.keeps(other, digest, depth, width) ==> other == entry || before.keeps(
            other,
            digest,
            depth,
            width,
        )
}

/// Whether a bucket of a node at `depth` has the shape of a bucket: it holds at least one
/// pair and at most `bucket_size` unless its node is at the last level, its keys ascend
/// strictly, and every pair carries a digest of 32 bytes.
pub open spec fn spec_bucket_shaped(
    bucket: Seq<EntryModel>,
    depth: nat,
    width: nat,
    bucket_size: nat,
) -> bool {
    &&& 1 <= bucket.len()
    &&& spec_can_split(depth, width) ==> bucket.len() <= bucket_size
    &&& spec_bucket_sorted(bucket)
    &&& forall|j: int| 0 <= j < bucket.len() ==> (#[trigger] bucket[j]).digest.len() == 32
}

/// How an insert changes the slot it goes to. An empty slot takes a bucket of the one pair.
/// A bucket takes the pair, in the place of a pair with the same key if it has one, and the
/// pairs it is left with are the pair and pairs it had; but a bucket that is full and lacks
/// the key becomes a child, where the digest has bits left for one. A child stays a child.
/// Whatever the slot held, it then stores the pair and every pair with another key that it
/// stored, and keeps no pair besides, wherever one looks.
pub open spec fn spec_slot_put(
    before: SlotModel,
    after: SlotModel,
    entry: EntryModel,
    depth: nat,
    width: nat,
    bucket_size: nat,
) -> bool {
    &&& match before {
        SlotModel::Empty => after == SlotModel::Bucket(seq![entry]),
        SlotModel::Bucket(bucket) => if spec_bucket_get(bucket, entry.key) is None
            && spec_can_split(depth, width) && bucket.len() >= bucket_size {
            after is Child
        } else {
            &&& after is Bucket
            &&& after->Bucket_0.len() == bucket.len() + if spec_bucket_get(bucket, entry.key)
                is Some {
                0int
            } else {
                1int
            }
            &&& spec_bucket_sorted(bucket) ==> spec_bucket_sorted(after->Bucket_0)
            &&& forall|k: Seq<u8>| #[trigger]
                spec_bucket_get(after->Bucket_0, k) == if k == entry.key {
                    Some(entry.value)
                } else {
                    spec_bucket_get(bucket, k)
                }
        },
        SlotModel::Child(_) => after is Child,
    }
    &&& after.stores(entry, depth, width)
    &&& forall|other: EntryModel| #[trigger]
        before.stores(other, depth, width) && other.key != entry.key ==> after.stores(
            other,
            depth,
            width,
        )
    &&& forall|other: EntryModel, digest: Seq<u8>| #[trigger]
        after.keeps(other, digest, depth, width) ==> other == entry || before.keeps(
            other,
            digest,
            depth,
            width,
        )
}

/// What an insert of a pair does to the slot it goes to, in a node at `depth`: the change
/// of `spec_slot_put`; a lookup of the pair's key then finds its value; the number of pairs
/// has grown by one if a lookup found no value for the key before, and else not at all; and
/// the slot keeps the shape, the node sizes, the bound on its buckets and their order, each
/// where it had it.
pub open spec fn spec_slot_step(
    before: SlotModel,
    after: SlotModel,
    entry: EntryModel,
    depth: nat,
    width: nat,
    bucket_size: nat,
) -> bool {
    &&& spec_slot_put(before, after, entry, depth, width, bucket_size)
    &&& after.find(entry.key, entry.digest, depth, width) == Ok::<Option<Seq<u8>>, HashMapError>(
        Some(entry.value),
    )
    &&& after.count() == before.count() + if before.find(entry.key, entry.digest, depth, width)
        matches Ok(Some(_)) {
        0int
    } else {
        1int
    }
    &&& before.shaped(depth, width, bucket_size) ==> after.shaped(depth, width, bucket_size)
    &&& before.sized(width) ==> after.sized(width)
    &&& before.bounded(depth, width, bucket_size) ==> after.bounded(depth, width, bucket_size)
    &&& before.sorted() ==> after.sorted()
}

impl SlotModel {
    /// The slot as it stands in the block of its node: a child is known by its identifier.
    pub open spec fn collapsed(self) -> BlockSlot
        decreases self, 0nat, 0nat,
    {
        match self {
            SlotModel::Empty => BlockSlot::Empty,
            SlotModel::Bucket(bucket) => BlockSlot::Bucket(spec_bucket_pairs(bucket)),
            SlotModel::Child(child) => BlockSlot::Link(child.cid()),
        }
    }

    /// The blocks of the subtree in this slot, children before parents.
    pub open spec fn blocks(self) -> Seq<BlockModel>
        decreases self, 0nat, 0nat,
    {
        match self {
            SlotModel::Child(child) => child.blocks(),
            _ => Seq::empty(),
        }
    }

    /// Whether this slot of a node that stands at `depth` keeps the pair at the place that
    /// `digest` leads to.
    pub open spec fn keeps(self, entry: EntryModel, digest: Seq<u8>, depth: nat, width: nat) -> bool
        decreases self, 0nat,
    {
        match self {
            SlotModel::Empty => false,
            SlotModel::Bucket(bucket) => bucket.contains(entry),
            SlotModel::Child(child) => child.keeps(entry, digest, depth + 1, width),
        }
    }

    /// Whether this slot of a node that stands at `depth` stores the pair at the place that
    /// the pair's own digest leads to.
    pub open spec fn stores(self, entry: EntryModel, depth: nat, width: nat) -> bool {
        self.keeps(entry, entry.digest, depth, width)
    }

    /// What a lookup of `key` finds in this slot of a node that stands at `depth`, where it
    /// follows the given digest below the slot.
    pub open spec fn find(self, key: Seq<u8>, digest: Seq<u8>, depth: nat, width: nat) -> Result<
        Option<Seq<u8>>,
        HashMapError,
    > {
        match self {
            SlotModel::Empty => Ok(None),
            SlotModel::Bucket(bucket) => Ok(spec_bucket_get(bucket, key)),
            SlotModel::Child(child) => child.find(key, digest, depth + 1, width),
        }
    }

    /// Whether what this slot of a node at `depth` holds has the shape of a part of a tree.
    pub open spec fn shaped(self, depth: nat, width: nat, bucket_size: nat) -> bool {
        match self {
            SlotModel::Empty => true,
            SlotModel::Bucket(bucket) => spec_bucket_shaped(bucket, depth, width, bucket_size),
            SlotModel::Child(child) => spec_can_split(depth, width) && child.shaped(
                depth + 1,
                width,
                bucket_size,
            ),
        }
    }

    /// Whether every node in this slot and below it has a slot for each value of `width`
    /// bits.
    pub open spec fn sized(self, width: nat) -> bool {
        match self {
            SlotModel::Child(child) => child.sized(width),
            _ => true,
        }
    }

    /// Whether every bucket in this slot of a node at `depth` and below it holds at most
    /// `bucket_size` pairs, unless its node is at the last level.
    pub open spec fn bounded(self, depth: nat, width: nat, bucket_size: nat) -> bool {
        match self {
            SlotModel::Empty => true,
            SlotModel::Bucket(bucket) => spec_can_split(depth, width) ==> bucket.len()
                <= bucket_size,
            SlotModel::Child(child) => child.bounded(depth + 1, width, bucket_size),
        }
    }

    /// Whether the keys of every bucket in this slot and below it ascend strictly.
    pub open spec fn sorted(self) -> bool {
        match self {
            SlotModel::Empty => true,
            SlotModel::Bucket(bucket) => spec_bucket_sorted(bucket),
            SlotModel::Child(child) => child.sorted(),
        }
    }

    /// The number of pairs in this slot and below it.
    pub open spec fn count(self) -> nat
        decreases self, 0nat, 0nat,
    {
        match self {
            SlotModel::Empty => 0,
            SlotModel::Bucket(bucket) => bucket.len(),
            SlotModel::Child(child) => child.count(),
        }
    }

    /// The value found for `key` in this slot of a node that stands at `depth`.
    pub open spec fn get(self, key: Seq<u8>, depth: nat, width: nat) -> Option<Seq<u8>>
        decreases self, 0nat,
    {
        match self {
            SlotModel::Empty => None,
            SlotModel::Bucket(bucket) => spec_bucket_get(bucket, key),
            SlotModel::Child(child) => child.get(key, depth + 1, width),
        }
    }

    /// Whether this slot, reached from the root through `path` (its own index last), is well
    /// formed. A child stands only where a bucket could not: it holds more than `bucket_size`
    /// keys.
    pub open spec fn wf(self, path: Seq<nat>, width: nat, bucket_size: nat) -> bool
        decreases self, 0nat,
    {
        match self {
            SlotModel::Empty => true,
            SlotModel::Bucket(bucket) => spec_bucket_wf(bucket, path, width, bucket_size),
            SlotModel::Child(child) => {
                &&& spec_can_split((path.len() - 1) as nat, width)
                &&& child.wf(path, width, bucket_size)
                &&& child.entries(path.len(), width).dom().finite()
                &&& child.entries(path.len(), width).dom().len() > bucket_size
            },
        }
    }
}

impl NodeModel {
    /// The node as it stands in its block.
    pub open spec fn block(self) -> Seq<BlockSlot>
        decreases self, 1nat, 0nat,
    {
        Seq::new(
            self.slots.len(),
            |i: int|
                if 0 <= i < self.slots.len() {
                    self.slots[i].collapsed()
                } else {
                    BlockSlot::Empty
                },
        )
    }

    /// The digest of the identifier of the node's block.
    pub open spec fn cid(self) -> Seq<u8>
        decreases self, 2nat, 0nat,
    {
        spec_block_cid(spec_encode_block(self.block()))
    }

    /// The blocks of the subtrees in the first `upto` slots, in slot order.
    pub open spec fn child_blocks(self, upto: nat) -> Seq<BlockModel>
        decreases self, 1nat, upto,
    {
        if upto == 0 || upto > self.slots.len() {
            Seq::empty()
        } else {
            self.child_blocks((upto - 1) as nat) + self.slots[upto - 1].blocks()
        }
    }

    /// The blocks of the subtree below this node in the order they are written: the blocks
    /// of every child before the block of its parent, this node's own block last.
    pub open spec fn blocks(self) -> Seq<BlockModel>
        decreases self, 2nat, 0nat,
    {
        self.child_blocks(self.slots.len()).push(
            BlockModel { cid: self.cid(), bytes: spec_encode_block(self.block()) },
        )
    }

    /// The value found for `key` by descending from this node, which stands at `depth`.
    pub open spec fn get(self, key: Seq<u8>, depth: nat, width: nat) -> Option<Seq<u8>>
        decreases self, 1nat,
    {
        let i = spec_slot(spec_sha2_256(key), depth, width) as int;
        if 0 <= i < self.slots.len() {
            self.slots[i].get(key, depth, width)
        } else {
            None
        }
    }

    /// The mapping from keys to values that the subtree below this node holds.
    pub open spec fn entries(self, depth: nat, width: nat) -> Map<Seq<u8>, Seq<u8>> {
        Map::new(
            |key: Seq<u8>| self.get(key, depth, width) is Some,
            |key: Seq<u8>| self.get(key, depth, width)->0,
        )
    }

    /// Whether the subtree below this node, reached from the root through `path`, is well
    /// formed for the given width and bucket size.
    pub open spec fn wf(self, path: Seq<nat>, width: nat, bucket_size: nat) -> bool
        decreases self, 1nat,
    {
        &&& self.slots.len() == spec_fanout(width)
        &&& (path.len() + 1) * width <= spec_digest_bits()
        &&& forall|i: int|
            0 <= i < self.slots.len() ==> (#[trigger] self.slots[i]).wf(
                path.push(i as nat),
                width,
                bucket_size,
            )
    }

    /// The node that is reached from this node through the slots of `path`, where each of
    /// them holds a child.
    pub open spec fn descend(self, path: Seq<nat>) -> Option<NodeModel>
        decreases path.len(),
    {
        if path.len() == 0 {
            Some(self)
        } else {
            match self.descend(path.drop_last()) {
                Some(node) => if path.last() < node.slots.len() {
                    match node.slots[path.last() as int] {
                        SlotModel::Child(child) => Some(child),
                        _ => None,
                    }
                } else {
                    None
                },
                None => None,
            }
        }
    }

    /// What a lookup of `key` finds that follows the given digest from this node, which
    /// stands at `depth`. It fails with `BadDigest` where the digest is not one of 32 bytes
    /// or has no bits left for the depth reached, and with `OutOfBounds` where the digest
    /// selects a slot that the node reached does not have.
    pub open spec fn find(self, key: Seq<u8>, digest: Seq<u8>, depth: nat, width: nat) -> Result<
        Option<Seq<u8>>,
        HashMapError,
    >
        decreases self,
    {
        if digest.len() != 32 || (depth + 1) * width > spec_digest_bits() {
            Err(HashMapError::BadDigest)
        } else if spec_slot(digest, depth, width) >= self.slots.len() {
            Err(HashMapError::OutOfBounds)
        } else {
            match self.slots[spec_slot(digest, depth, width) as int] {
                SlotModel::Empty => Ok(None),
                SlotModel::Bucket(bucket) => Ok(spec_bucket_get(bucket, key)),
                SlotModel::Child(child) => child.find(key, digest, depth + 1, width),
            }
        }
    }

    /// Whether the subtree below this node, which stands at `depth`, keeps the pair at the
    /// place that `digest` leads to.
    pub open spec fn keeps(self, entry: EntryModel, digest: Seq<u8>, depth: nat, width: nat) -> bool
        decreases self, 1nat,
    {
        &&& digest.len() == 32
        &&& (depth + 1) * width <= spec_digest_bits()
        &&& spec_slot(digest, depth, width) < self.slots.len()
        &&& self.slots[spec_slot(digest, depth, width) as int].keeps(entry, digest, depth, width)
    }

    /// Whether the subtree below this node, which stands at `depth`, stores the pair at the
    /// place that the pair's own digest leads to.
    pub open spec fn stores(self, entry: EntryModel, depth: nat, width: nat) -> bool {
        self.keeps(entry, entry.digest, depth, width)
    }

    /// The number of pairs in the first `upto` slots and below them.
    pub open spec fn count_upto(self, upto: nat) -> nat
        decreases self, 1nat, upto,
    {
        if upto == 0 || upto > self.slots.len() {
            0
        } else {
            self.count_upto((upto - 1) as nat) + self.slots[upto - 1].count()
        }
    }

    /// The number of pairs in this node and below it.
    pub open spec fn count(self) -> nat
        decreases self, 2nat, 0nat,
    {
        self.count_upto(self.slots.len())
    }

    /// Whether this node and every node below it has a slot for each value of `width` bits.
    pub open spec fn sized(self, width: nat) -> bool
        decreases self,
    {
        &&& self.slots.len() == spec_fanout(width)
        &&& forall|i: int|
            0 <= i < self.slots.len() ==> match #[trigger] self.slots[i] {
                SlotModel::Child(child) => child.sized(width),
                _ => true,
            }
    }

    /// Whether every bucket below this node, which stands at `depth`, holds at most
    /// `bucket_size` pairs, unless its node is at the last level.
    pub open spec fn bounded(self, depth: nat, width: nat, bucket_size: nat) -> bool
        decreases self,
    {
        forall|i: int|
            0 <= i < self.slots.len() ==> match #[trigger] self.slots[i] {
                SlotModel::Empty => true,
                SlotModel::Bucket(bucket) => spec_can_split(depth, width) ==> bucket.len()
                    <= bucket_size,
                SlotModel::Child(child) => child.bounded(depth + 1, width, bucket_size),
            }
    }

    /// Whether the keys of every bucket below this node ascend strictly, so that no key
    /// occurs twice in a bucket.
    pub open spec fn sorted(self) -> bool
        decreases self,
    {
        forall|i: int|
            0 <= i < self.slots.len() ==> match #[trigger] self.slots[i] {
                SlotModel::Empty => true,
                SlotModel::Bucket(bucket) => spec_bucket_sorted(bucket),
                SlotModel::Child(child) => child.sorted(),
            }
    }

    /// Whether the subtree below this node, which stands at `depth`, has the shape of a
    /// tree, whatever digests its pairs were stored with: every node has a slot for each
    /// value of the bits it consumes, every bucket holds at least one pair and at most
    /// `bucket_size` unless its node is at the last level, the keys of a bucket ascend
    /// strictly, and a child stands only where the digest has bits left for it.
    pub open spec fn shaped(self, depth: nat, width: nat, bucket_size: nat) -> bool
        decreases self,
    {
        &&& self.slots.len() == spec_fanout(width)
        &&& (depth + 1) * width <= spec_digest_bits()
        &&& forall|i: int|
            0 <= i < self.slots.len() ==> match #[trigger] self.slots[i] {
                SlotModel::Empty => true,
                SlotModel::Bucket(bucket) => spec_bucket_shaped(bucket, depth, width, bucket_size),
                SlotModel::Child(child) => spec_can_split(depth, width) && child.shaped(
                    depth + 1,
                    width,
                    bucket_size,
                ),
            }
    }

    /// Whether every slot is empty.
    pub open spec fn is_empty(self) -> bool {
        forall|i: int| 0 <= i < self.slots.len() ==> #[trigger] self.slots[i] is Empty
    }
}

/// The slot of the only child of a node that has one child and nothing else.
pub open spec fn spec_single_child(node: NodeModel) -> Option<int> {
    if exists|i: int| spec_is_single_child(node, i) {
        Some(choose|i: int| spec_is_single_child(node, i))
    } else {
        None
    }
}

/// Whether slot `i` holds a child and every other slot is empty.
pub open spec fn spec_is_single_child(node: NodeModel, i: int) -> bool {
    &&& 0 <= i < node.slots.len()
    &&& node.slots[i] is Child
    &&& forall|j: int| 0 <= j < node.slots.len() && j != i ==> #[trigger] node.slots[j] is Empty
}

/// At most one slot is the single child of a node.
pub proof fn lemma_single_child_unique(node: NodeModel, i: int, j: int)
    requires
        spec_is_single_child(node, i),
        spec_is_single_child(node, j),
    ensures
        i == j,
{
    if i != j {
        assert(node.slots[j] is Empty);
    }
}

/// The blocks of the subtrees in the first slots of a node are the first of the blocks of
/// the subtrees in more of its slots.
pub proof fn lemma_child_blocks_prefix(node: NodeModel, fewer: nat, more: nat)
    requires
        fewer <= more <= node.slots.len(),
    ensures
        node.child_blocks(fewer).len() <= node.child_blocks(more).len(),
        node.child_blocks(more).take(node.child_blocks(fewer).len() as int) == node.child_blocks(
            fewer,
        ),
    decreases more - fewer,
{
    if fewer == more {
        assert(node.child_blocks(more).take(node.child_blocks(fewer).len() as int)
            =~= node.child_blocks(fewer));
    } else {
        lemma_child_blocks_prefix(node, fewer, (more - 1) as nat);
        let shorter = node.child_blocks((more - 1) as nat);
        let longer = node.child_blocks(more);
        assert(longer == shorter + node.slots[more - 1].blocks());
        assert(longer.take(node.child_blocks(fewer).len() as int) =~= shorter.take(
            node.child_blocks(fewer).len() as int,
        ));
    }
}

/// A digest of 32 bytes selects a slot that a node of the right shape has.
pub proof fn lemma_slot_in_range(digest: Seq<u8>, depth: nat, width: nat)
    ensures
        spec_slot(digest, depth, width) < spec_fanout(width),
{
    lemma_to_int_bound(spec_bits(digest, (depth * width) as int, width));
}

/// A lookup in a tree of the right shape that follows a digest of 32 bytes does not fail.
pub proof fn lemma_shaped_find(
    node: NodeModel,
    key: Seq<u8>,
    digest: Seq<u8>,
    depth: nat,
    width: nat,
    bucket_size: nat,
)
    requires
        node.shaped(depth, width, bucket_size),
        digest.len() == 32,
    ensures
        node.find(key, digest, depth, width) is Ok,
    decreases node,
{
    lemma_slot_in_range(digest, depth, width);
    let i = spec_slot(digest, depth, width) as int;
    match node.slots[i] {
        SlotModel::Child(child) => {
            lemma_shaped_find(child, key, digest, depth + 1, width, bucket_size);
        },
        _ => {},
    }
}

/// What a node stores after an insert changed the slot that the pair's digest selects: the
/// pair, every pair with another key that it stored, and no pair besides.
pub proof fn lemma_put_stores(
    before: NodeModel,
    after: NodeModel,
    entry: EntryModel,
    depth: nat,
    width: nat,
    bucket_size: nat,
)
    requires
        entry.digest.len() == 32,
        (depth + 1) * width <= spec_digest_bits(),
        spec_slot(entry.digest, depth, width) < before.slots.len(),
        after.slots == before.slots.update(
            spec_slot(entry.digest, depth, width) as int,
            after.slots[spec_slot(entry.digest, depth, width) as int],
        ),
        spec_slot_put(
            before.slots[spec_slot(entry.digest, depth, width) as int],
            after.slots[spec_slot(entry.digest, depth, width) as int],
            entry,
            depth,
            width,
            bucket_size,
        ),
    ensures
        spec_put_stores(before, after, entry, depth, width),
{
    let index = spec_slot(entry.digest, depth, width) as int;
    assert forall|other: EntryModel| #[trigger]
        before.stores(other, depth, width) && other.key != entry.key implies after.stores(
        other,
        depth,
        width,
    ) by {
        let i = spec_slot(other.digest, depth, width) as int;
        if i == index {
            assert(before.slots[index].stores(other, depth, width));
        } else {
            assert(after.slots[i] == before.slots[i]);
        }
    }
    assert forall|other: EntryModel, digest: Seq<u8>| #[trigger]
        after.keeps(other, digest, depth, width) implies other == entry || before.keeps(
        other,
        digest,
        depth,
        width,
    ) by {
        let i = spec_slot(digest, depth, width) as int;
        if i == index {
            assert(after.slots[index].keeps(other, digest, depth, width));
        } else {
            assert(after.slots[i] == before.slots[i]);
        }
    }
}

/// A lookup that finds a value has come upon a pair with the key, kept where the digest
/// leads.
pub proof fn lemma_find_keeps(
    node: NodeModel,
    key: Seq<u8>,
    digest: Seq<u8>,
    depth: nat,
    width: nat,
) -> (entry: EntryModel)
    requires
        node.find(key, digest, depth, width) matches Ok(Some(_)),
    ensures
        node.keeps(entry, digest, depth, width),
        entry.key == key,
    decreases node,
{
    let i = spec_slot(digest, depth, width) as int;
    match node.slots[i] {
        SlotModel::Empty => arbitrary(),
        SlotModel::Bucket(bucket) => {
            let j = lemma_bucket_get_some(bucket, key);
            bucket[j]
        },
        SlotModel::Child(child) => lemma_find_keeps(child, key, digest, depth + 1, width),
    }
}

/// A node with every slot empty holds no pair.
pub proof fn lemma_empty_count(node: NodeModel, upto: nat)
    requires
        node.is_empty(),
        upto <= node.slots.len(),
    ensures
        node.count_upto(upto) == 0,
    decreases upto,
{
    if upto > 0 {
        lemma_empty_count(node, (upto - 1) as nat);
        assert(node.slots[upto - 1] is Empty);
        assert(node.slots[upto - 1].count() == 0);
    }
}

/// The pairs in the first slots of a node are not touched by a change to a later slot.
pub proof fn lemma_count_upto(before: NodeModel, after: NodeModel, i: int, upto: nat)
    requires
        0 <= i < before.slots.len(),
        after.slots == before.slots.update(i, after.slots[i]),
        upto <= before.slots.len(),
    ensures
        after.count_upto(upto) + (if i < upto {
            before.slots[i].count()
        } else {
            0
        }) == before.count_upto(upto) + (if i < upto {
            after.slots[i].count()
        } else {
            0
        }),
    decreases upto,
{
    if upto > 0 {
        lemma_count_upto(before, after, i, (upto - 1) as nat);
        if upto - 1 != i {
            assert(after.slots[upto - 1] == before.slots[upto - 1]);
        }
    }
}

/// The number of pairs of a node after one of its slots was changed.
pub proof fn lemma_count_update(before: NodeModel, after: NodeModel, i: int)
    requires
        0 <= i < before.slots.len(),
        after.slots == before.slots.update(i, after.slots[i]),
    ensures
        after.count() + before.slots[i].count() == before.count() + after.slots[i].count(),
{
    lemma_count_upto(before, after, i, before.slots.len());
}

/// What an insert does to a node, from what it does to the slot that the digest selects.
pub proof fn lemma_node_step(
    before: NodeModel,
    after: NodeModel,
    entry: EntryModel,
    depth: nat,
    width: nat,
    bucket_size: nat,
)
    requires
        entry.digest.len() == 32,
        (depth + 1) * width <= spec_digest_bits(),
        spec_slot(entry.digest, depth, width) < before.slots.len(),
        after.slots == before.slots.update(
            spec_slot(entry.digest, depth, width) as int,
            after.slots[spec_slot(entry.digest, depth, width) as int],
        ),
        spec_slot_step(
            before.slots[spec_slot(entry.digest, depth, width) as int],
            after.slots[spec_slot(entry.digest, depth, width) as int],
            entry,
            depth,
            width,
            bucket_size,
        ),
    ensures
        after.find(entry.key, entry.digest, depth, width) == Ok::<Option<Seq<u8>>, HashMapError>(
            Some(entry.value),
        ),
        spec_put_stores(before, after, entry, depth, width),
        after.count() == before.count() + if before.find(entry.key, entry.digest, depth, width)
            matches Ok(Some(_)) {
            0int
        } else {
            1int
        },
        before.shaped(depth, width, bucket_size) ==> after.shaped(depth, width, bucket_size),
        before.sized(width) ==> after.sized(width),
        before.bounded(depth, width, bucket_size) ==> after.bounded(depth, width, bucket_size),
        before.sorted() ==> after.sorted(),
{
    let index = spec_slot(entry.digest, depth, width) as int;
    lemma_put_stores(before, after, entry, depth, width, bucket_size);
    lemma_count_update(before, after, index);
    assert(before.find(entry.key, entry.digest, depth, width) == before.slots[index].find(
        entry.key,
        entry.digest,
        depth,
        width,
    ));
    assert(after.find(entry.key, entry.digest, depth, width) == after.slots[index].find(
        entry.key,
        entry.digest,
        depth,
        width,
    ));
    if before.shaped(depth, width, bucket_size) {
        assert(before.slots[index].shaped(depth, width, bucket_size));
        assert forall|i: int| 0 <= i < after.slots.len() implies (#[trigger] after.slots[i]).shaped(
            depth,
            width,
            bucket_size,
        ) by {
            if i != index {
                assert(after.slots[i] == before.slots[i]);
                assert(before.slots[i].shaped(depth, width, bucket_size));
            }
        }
    }
    if before.sized(width) {
        assert(before.slots[index].sized(width));
        assert forall|i: int| 0 <= i < after.slots.len() implies (#[trigger] after.slots[i]).sized(
            width,
        ) by {
            if i != index {
                assert(after.slots[i] == before.slots[i]);
                assert(before.slots[i].sized(width));
            }
        }
    }
    if before.bounded(depth, width, bucket_size) {
        assert(before.slots[index].bounded(depth, width, bucket_size));
        assert forall|i: int| 0 <= i < after.slots.len() implies (
        #[trigger] after.slots[i]).bounded(depth, width, bucket_size) by {
            if i != index {
                assert(after.slots[i] == before.slots[i]);
                assert(before.slots[i].bounded(depth, width, bucket_size));
            }
        }
    }
    if before.sorted() {
        assert(before.slots[index].sorted());
        assert forall|i: int| 0 <= i < after.slots.len() implies (
        #[trigger] after.slots[i]).sorted() by {
            if i != index {
                assert(after.slots[i] == before.slots[i]);
                assert(before.slots[i].sorted());
            }
        }
    }
}

/// A pair that a tree of the right shape stores is found by a lookup that follows the
/// pair's digest.
pub proof fn lemma_stores_find(
    node: NodeModel,
    entry: EntryModel,
    depth: nat,
    width: nat,
    bucket_size: nat,
)
    requires
        node.shaped(depth, width, bucket_size),
        node.stores(entry, depth, width),
    ensures
        node.find(entry.key, entry.digest, depth, width) == Ok::<Option<Seq<u8>>, HashMapError>(
            Some(entry.value),
        ),
    decreases node,
{
    let i = spec_slot(entry.digest, depth, width) as int;
    match node.slots[i] {
        SlotModel::Empty => {},
        SlotModel::Bucket(bucket) => {
            let j = choose|j: int| 0 <= j < bucket.len() && bucket[j] == entry;
            lemma_bucket_get_at(bucket, j);
        },
        SlotModel::Child(child) => {
            lemma_stores_find(child, entry, depth + 1, width, bucket_size);
        },
    }
}

/// A tree of the right shape has nodes of the right size, buckets within their bound, and
/// buckets in order.
pub proof fn lemma_shaped_parts(node: NodeModel, depth: nat, width: nat, bucket_size: nat)
    requires
        node.shaped(depth, width, bucket_size),
    ensures
        node.sized(width),
        node.bounded(depth, width, bucket_size),
        node.sorted(),
    decreases node,
{
    assert forall|i: int| 0 <= i < node.slots.len() implies match #[trigger] node.slots[i] {
        SlotModel::Child(child) => child.sized(width) && child.bounded(
            depth + 1,
            width,
            bucket_size,
        ) && child.sorted(),
        _ => true,
    } by {
        match node.slots[i] {
            SlotModel::Child(child) => {
                lemma_shaped_parts(child, depth + 1, width, bucket_size);
            },
            _ => {},
        }
    }
}

/// A well-formed tree has the shape of a tree.
pub proof fn lemma_wf_shaped(node: NodeModel, path: Seq<nat>, width: nat, bucket_size: nat)
    requires
        node.wf(path, width, bucket_size),
    ensures
        node.shaped(path.len(), width, bucket_size),
    decreases node,
{
    assert forall|i: int| 0 <= i < node.slots.len() implies match #[trigger] node.slots[i] {
        SlotModel::Empty => true,
        SlotModel::Bucket(bucket) => spec_bucket_shaped(bucket, path.len(), width, bucket_size),
        SlotModel::Child(child) => spec_can_split(path.len(), width) && child.shaped(
            path.len() + 1,
            width,
            bucket_size,
        ),
    } by {
        let here = path.push(i as nat);
        assert(node.slots[i].wf(here, width, bucket_size));
        match node.slots[i] {
            SlotModel::Empty => {},
            SlotModel::Bucket(bucket) => {
                assert forall|j: int| 0 <= j < bucket.len() implies (
                #[trigger] bucket[j]).digest.len() == 32 by {
                    assert(spec_entry_wf(bucket[j], here, width));
                }
            },
            SlotModel::Child(child) => {
                lemma_wf_shaped(child, here, width, bucket_size);
            },
        }
    }
}

/// In a well-formed tree, a lookup that follows the digest of the key finds what the tree
/// holds for the key.
pub proof fn lemma_find_is_get(
    node: NodeModel,
    path: Seq<nat>,
    width: nat,
    bucket_size: nat,
    key: Seq<u8>,
)
    requires
        node.wf(path, width, bucket_size),
        spec_sha2_256(key).len() == 32,
    ensures
        node.find(key, spec_sha2_256(key), path.len(), width) == Ok::<
            Option<Seq<u8>>,
            HashMapError,
        >(node.get(key, path.len(), width)),
    decreases node,
{
    let digest = spec_sha2_256(key);
    lemma_slot_in_range(digest, path.len(), width);
    let i = spec_slot(digest, path.len(), width) as int;
    assert(node.slots[i].wf(path.push(i as nat), width, bucket_size));
    match node.slots[i] {
        SlotModel::Child(child) => {
            lemma_find_is_get(child, path.push(i as nat), width, bucket_size, key);
        },
        _ => {},
    }
}

/// Every pair of a sorted bucket is the one found under its key.
pub proof fn lemma_bucket_get_at(bucket: Seq<EntryModel>, i: int)
    requires
        spec_bucket_sorted(bucket),
        0 <= i < bucket.len(),
    ensures
        spec_bucket_get(bucket, bucket[i].key) == Some(bucket[i].value),
    decreases bucket.len(),
{
    if i > 0 {
        lemma_key_lt_asymmetric(bucket[0].key, bucket[i].key);
        let rest = bucket.drop_first();
        assert forall|a: int, b: int| 0 <= a < b < rest.len() implies spec_key_lt(
            #[trigger] rest[a].key,
            #[trigger] rest[b].key,
        ) by {
            assert(rest[a] == bucket[a + 1] && rest[b] == bucket[b + 1]);
        }
        lemma_bucket_get_at(rest, i - 1);
    }
}

/// A key that no pair of a bucket has is not found in it.
pub proof fn lemma_bucket_get_none(bucket: Seq<EntryModel>, key: Seq<u8>)
    requires
        forall|j: int| 0 <= j < bucket.len() ==> (#[trigger] bucket[j]).key != key,
    ensures
        spec_bucket_get(bucket, key) is None,
    decreases bucket.len(),
{
    if bucket.len() > 0 {
        let rest = bucket.drop_first();
        assert forall|j: int| 0 <= j < rest.len() implies (#[trigger] rest[j]).key != key by {
            assert(rest[j] == bucket[j + 1]);
        }
        lemma_bucket_get_none(rest, key);
    }
}

/// A key that is found in a bucket is the key of one of its pairs, with the value found.
pub proof fn lemma_bucket_get_some(bucket: Seq<EntryModel>, key: Seq<u8>) -> (j: int)
    requires
        spec_bucket_get(bucket, key) is Some,
    ensures
        0 <= j < bucket.len(),
        bucket[j].key == key,
        spec_bucket_get(bucket, key) == Some(bucket[j].value),
    decreases bucket.len(),
{
    if bucket.first().key == key {
        0
    } else {
        let rest = bucket.drop_first();
        let j = lemma_bucket_get_some(rest, key);
        assert(rest[j] == bucket[j + 1]);
        j + 1
    }
}

/// What a sorted bucket holds for `key` after the pair at `pos` was replaced by one with the
/// same key.
pub proof fn lemma_bucket_update_get(
    bucket: Seq<EntryModel>,
    pos: int,
    entry: EntryModel,
    key: Seq<u8>,
)
    requires
        spec_bucket_sorted(bucket),
        0 <= pos < bucket.len(),
        bucket[pos].key == entry.key,
    ensures
        spec_bucket_get(bucket.update(pos, entry), key) == if key == entry.key {
            Some(entry.value)
        } else {
            spec_bucket_get(bucket, key)
        },
    decreases bucket.len(),
{
    let after = bucket.update(pos, entry);
    if pos == 0 {
        assert(after.drop_first() =~= bucket.drop_first());
    } else {
        let rest = bucket.drop_first();
        assert(after.drop_first() =~= rest.update(pos - 1, entry));
        assert forall|a: int, b: int| 0 <= a < b < rest.len() implies spec_key_lt(
            #[trigger] rest[a].key,
            #[trigger] rest[b].key,
        ) by {
            assert(rest[a] == bucket[a + 1] && rest[b] == bucket[b + 1]);
        }
        lemma_key_lt_asymmetric(bucket[0].key, bucket[pos].key);
        lemma_bucket_update_get(rest, pos - 1, entry, key);
    }
}

/// What a bucket holds for `key` after a pair with a key it did not have was put in at `pos`.
pub proof fn lemma_bucket_insert_get(
    bucket: Seq<EntryModel>,
    pos: int,
    entry: EntryModel,
    key: Seq<u8>,
)
    requires
        0 <= pos <= bucket.len(),
        forall|j: int| 0 <= j < bucket.len() ==> (#[trigger] bucket[j]).key != entry.key,
    ensures
        spec_bucket_get(bucket.insert(pos, entry), key) == if key == entry.key {
            Some(entry.value)
        } else {
            spec_bucket_get(bucket, key)
        },
    decreases bucket.len(),
{
    let after = bucket.insert(pos, entry);
    if pos == 0 {
        assert(after.drop_first() =~= bucket);
    } else {
        let rest = bucket.drop_first();
        assert(after.drop_first() =~= rest.insert(pos - 1, entry));
        assert(after.first() == bucket.first());
        assert forall|j: int| 0 <= j < rest.len() implies (#[trigger] rest[j]).key
            != entry.key by {
            assert(rest[j] == bucket[j + 1]);
        }
        lemma_bucket_insert_get(rest, pos - 1, entry, key);
    }
}

/// A bucket stays sorted when the pair at `pos` is replaced by one with the same key.
pub proof fn lemma_bucket_update_sorted(bucket: Seq<EntryModel>, pos: int, entry: EntryModel)
    requires
        spec_bucket_sorted(bucket),
        0 <= pos < bucket.len(),
        bucket[pos].key == entry.key,
    ensures
        spec_bucket_sorted(bucket.update(pos, entry)),
{
    let after = bucket.update(pos, entry);
    assert forall|a: int, b: int| 0 <= a < b < after.len() implies spec_key_lt(
        #[trigger] after[a].key,
        #[trigger] after[b].key,
    ) by {
        assert(spec_key_lt(bucket[a].key, bucket[b].key));
    }
}

/// A bucket stays sorted when a pair is put in between the keys before it and the keys
/// after it.
pub proof fn lemma_bucket_insert_sorted(bucket: Seq<EntryModel>, pos: int, entry: EntryModel)
    requires
        spec_bucket_sorted(bucket),
        0 <= pos <= bucket.len(),
        forall|j: int| 0 <= j < pos ==> spec_key_lt((#[trigger] bucket[j]).key, entry.key),
        forall|j: int|
            pos <= j < bucket.len() ==> spec_key_lt(entry.key, (#[trigger] bucket[j]).key),
    ensures
        spec_bucket_sorted(bucket.insert(pos, entry)),
        forall|j: int| 0 <= j < bucket.len() ==> (#[trigger] bucket[j]).key != entry.key,
{
    let after = bucket.insert(pos, entry);
    assert forall|a: int, b: int| 0 <= a < b < after.len() implies spec_key_lt(
        #[trigger] after[a].key,
        #[trigger] after[b].key,
    ) by {
        if a < pos && b == pos {
            assert(after[a] == bucket[a]);
        } else if a < pos && b > pos {
            assert(after[a] == bucket[a] && after[b] == bucket[b - 1]);
            if a < b - 1 {
                assert(spec_key_lt(bucket[a].key, bucket[b - 1].key));
            }
        } else if a < pos {
            assert(after[a] == bucket[a] && after[b] == bucket[b]);
            assert(spec_key_lt(bucket[a].key, bucket[b].key));
        } else if a == pos {
            assert(after[b] == bucket[b - 1]);
        } else {
            assert(after[a] == bucket[a - 1] && after[b] == bucket[b - 1]);
            assert(spec_key_lt(bucket[a - 1].key, bucket[b - 1].key));
        }
    }
    assert forall|j: int| 0 <= j < bucket.len() implies (#[trigger] bucket[j]).key
        != entry.key by {
        if j < pos {
            lemma_key_lt_asymmetric(bucket[j].key, entry.key);
        } else {
            lemma_key_lt_asymmetric(entry.key, bucket[j].key);
        }
    }
}

/// Where one node holds what another holds and `key` with `value` besides, every lookup in
/// it gives what the other gives, but for `key`.
pub proof fn lemma_get_after_set(
    before: NodeModel,
    after: NodeModel,
    key: Seq<u8>,
    value: Seq<u8>,
    depth: nat,
    width: nat,
)
    requires
        after.entries(depth, width) == before.entries(depth, width).insert(key, value),
    ensures
        forall|k: Seq<u8>| #[trigger]
            after.get(k, depth, width) == if k == key {
                Some(value)
            } else {
                before.get(k, depth, width)
            },
{
    let have = after.entries(depth, width);
    let old = before.entries(depth, width);
    assert forall|k: Seq<u8>| #[trigger] after.get(k, depth, width) == if k == key {
        Some(value)
    } else {
        before.get(k, depth, width)
    } by {
        assert(have.dom().contains(k) == (after.get(k, depth, width) is Some));
        assert(old.dom().contains(k) == (before.get(k, depth, width) is Some));
        if have.dom().contains(k) {
            assert(have[k] == after.get(k, depth, width)->0);
        }
        if old.dom().contains(k) {
            assert(old[k] == before.get(k, depth, width)->0);
        }
    }
}

/// The mapping of a bucket without its first pair, and that pair put in, is the mapping of
/// the bucket, where no later pair has the first pair's key.
pub proof fn lemma_bucket_map_first(bucket: Seq<EntryModel>)
    requires
        bucket.len() > 0,
    ensures
        spec_bucket_map(bucket) == spec_bucket_map(bucket.drop_first()).insert(
            bucket.first().key,
            bucket.first().value,
        ),
{
    let rest = spec_bucket_map(bucket.drop_first());
    let want = rest.insert(bucket.first().key, bucket.first().value);
    let have = spec_bucket_map(bucket);
    assert forall|k: Seq<u8>| have.dom().contains(k) == want.dom().contains(k) by {
        assert(rest.dom().contains(k) == (spec_bucket_get(bucket.drop_first(), k) is Some));
    }
    assert forall|k: Seq<u8>| have.dom().contains(k) implies have[k] == want[k] by {
        if k != bucket.first().key {
            assert(rest[k] == spec_bucket_get(bucket.drop_first(), k)->0);
        }
    }
    assert(have =~= want);
}

/// A node whose slots are all empty holds nothing.
pub proof fn lemma_empty_entries(node: NodeModel, depth: nat, width: nat)
    requires
        node.is_empty(),
    ensures
        node.entries(depth, width) == Map::<Seq<u8>, Seq<u8>>::empty(),
{
    assert forall|key: Seq<u8>| node.get(key, depth, width) is None by {
        let i = spec_slot(spec_sha2_256(key), depth, width) as int;
        if 0 <= i < node.slots.len() {
            assert(node.slots[i] is Empty);
        }
    }
    assert(node.entries(depth, width) =~= Map::<Seq<u8>, Seq<u8>>::empty());
}

/// What a node holds after one of its slots was replaced by a slot that holds, of the keys
/// that lead to it, what the old slot held and `key` with `value` besides.
pub proof fn lemma_entries_after_set(
    before: NodeModel,
    after: NodeModel,
    i: int,
    key: Seq<u8>,
    value: Seq<u8>,
    depth: nat,
    width: nat,
)
    requires
        0 <= i < before.slots.len(),
        after.slots == before.slots.update(i, after.slots[i]),
        spec_slot(spec_sha2_256(key), depth, width) == i,
        forall|k: Seq<u8>|
            spec_slot(spec_sha2_256(k), depth, width) == i ==> #[trigger] after.slots[i].get(
                k,
                depth,
                width,
            ) == if k == key {
                Some(value)
            } else {
                before.slots[i].get(k, depth, width)
            },
    ensures
        after.entries(depth, width) == before.entries(depth, width).insert(key, value),
{
    let want = before.entries(depth, width).insert(key, value);
    let have = after.entries(depth, width);
    assert(after.slots.len() == before.slots.len());
    assert forall|k: Seq<u8>| #[trigger] after.get(k, depth, width) == if k == key {
        Some(value)
    } else {
        before.get(k, depth, width)
    } by {
        let s = spec_slot(spec_sha2_256(k), depth, width) as int;
        if s == i {
            assert(after.slots[i].get(k, depth, width) == if k == key {
                Some(value)
            } else {
                before.slots[i].get(k, depth, width)
            });
        } else if 0 <= s < before.slots.len() {
            assert(after.slots[s] == before.slots[s]);
        }
    }
    assert forall|k: Seq<u8>| have.dom().contains(k) == want.dom().contains(k) by {
        assert(have.dom().contains(k) == (after.get(k, depth, width) is Some));
    }
    assert forall|k: Seq<u8>| have.dom().contains(k) implies have[k] == want[k] by {
        assert(have[k] == after.get(k, depth, width)->0);
    }
    assert(have =~= want);
}

} // verus!
