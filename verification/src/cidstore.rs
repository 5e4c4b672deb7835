//! Block stores: where the blocks of a tree are kept, each under its identifier.

use vstd::prelude::*;
use crate::cid::Cid;
use crate::error::HashMapError;
use crate::key::{key_order, KeyOrder};

verus! {

/// A store of blocks, each kept under the digest of its identifier.
pub trait CidStore: Sized {
    /// The blocks that the store was given and holds, in the order in which it was given
    /// them.
    spec fn written(&self) -> Seq<BlockModel>;

    /// Whether the store takes every block it is given.
    spec fn reliable(&self) -> bool;

    /// A store that holds nothing.
    fn new() -> (store: Self)
        ensures
            store.written() == Seq::<BlockModel>::empty(),
    ;

    /// The block kept under `cid`.
    fn get(&self, cid: &Cid) -> (block: Option<&Vec<u8>>)
        ensures
            block is Some <==> spec_held(self.written()).contains_key(cid@),
            block matches Some(bytes) ==> bytes@ == spec_held(self.written())[cid@],
    ;

    /// Keeps `block` under `cid`. A store may hand back the block that it kept there before.
    /// A store that fails keeps what it held.
    fn insert(&mut self, cid: &Cid, block: Vec<u8>) -> (previous: Result<
        Option<Vec<u8>>,
        HashMapError,
    >)
        ensures
            old(self).reliable() ==> previous is Ok && final(self).reliable(),
            match previous {
                Ok(before) => {
                    &&& final(self).written() == old(self).written().push(
                        BlockModel { cid: cid@, bytes: block@ },
                    )
                    &&& before matches Some(bytes) ==> spec_held(old(self).written()).contains_key(
                        cid@,
                    ) && bytes@ == spec_held(old(self).written())[cid@]
                },
                Err(_) => final(self).written() == old(self).written(),
            },
    ;

    /// Takes out the block kept under `cid` and hands it back.
    fn remove(&mut self, cid: &Cid) -> (previous: Option<Vec<u8>>)
        ensures
            final(self).written() == spec_without(old(self).written(), cid@),
            final(self).reliable() == old(self).reliable(),
            previous is Some <==> spec_held(old(self).written()).contains_key(cid@),
            previous matches Some(bytes) ==> bytes@ == spec_held(old(self).written())[cid@],
    ;
}

/// One block of a tree: the digest of its identifier, and its bytes.
pub struct BlockModel {
    pub cid: Seq<u8>,
    pub bytes: Seq<u8>,
}

/// What a store holds after the given blocks were put into it in order.
pub open spec fn spec_put_all(held: Map<Seq<u8>, Seq<u8>>, blocks: Seq<BlockModel>) -> Map<
    Seq<u8>,
    Seq<u8>,
>
    decreases blocks.len(),
{
    if blocks.len() == 0 {
        held
    } else {
        spec_put_all(held, blocks.drop_last()).insert(blocks.last().cid, blocks.last().bytes)
    }
}

/// The blocks that a store holds that was given the blocks of a run in order, by the
/// digests of their identifiers: of two blocks given under one identifier, the later.
pub open spec fn spec_held(blocks: Seq<BlockModel>) -> Map<Seq<u8>, Seq<u8>> {
    spec_put_all(Map::empty(), blocks)
}

/// Whether `after` is the run `before` and, behind it, some of the given blocks, in order,
/// and not the last of them.
pub open spec fn spec_put_some(
    before: Seq<BlockModel>,
    blocks: Seq<BlockModel>,
    after: Seq<BlockModel>,
) -> bool {
    exists|k: int| 0 <= k < blocks.len() && after == before + #[trigger] blocks.take(k)
}

/// Putting one run of blocks and then another is putting the two runs joined.
pub proof fn lemma_put_all_add(
    held: Map<Seq<u8>, Seq<u8>>,
    first: Seq<BlockModel>,
    second: Seq<BlockModel>,
)
    ensures
        spec_put_all(held, first + second) == spec_put_all(spec_put_all(held, first), second),
    decreases second.len(),
{
    if second.len() == 0 {
        assert(first + second =~= first);
    } else {
        assert((first + second).drop_last() =~= first + second.drop_last());
        lemma_put_all_add(held, first, second.drop_last());
    }
}

/// A block as a store in memory keeps it.
#[derive(Debug)]
pub struct Stored {
    /// The identifier that the block is kept under.
    pub cid: Cid,
    /// The bytes of the block.
    pub bytes: Vec<u8>,
}

/// Whether no two of the blocks are kept under the same identifier.
pub closed spec fn spec_distinct(entries: Seq<Stored>) -> bool {
    forall|i: int, j: int|
        0 <= i < j < entries.len() ==> (#[trigger] entries[i]).cid@ != (#[trigger] entries[j]).cid@
}

/// Whether a block is kept under the identifier with the given digest at place `i`.
pub closed spec fn spec_kept_at(entries: Seq<Stored>, digest: Seq<u8>, i: int) -> bool {
    0 <= i < entries.len() && entries[i].cid@ == digest
}

/// The blocks that are kept, by the digests of their identifiers.
pub closed spec fn spec_kept(entries: Seq<Stored>) -> Map<Seq<u8>, Seq<u8>> {
    Map::new(
        |digest: Seq<u8>| exists|i: int| spec_kept_at(entries, digest, i),
        |digest: Seq<u8>| entries[choose|i: int| spec_kept_at(entries, digest, i)].bytes@,
    )
}

/// A block store in memory. It takes every block, unless it was made to hold a limited
/// number of them. Its blocks stand in a vector in which no identifier occurs twice: what
/// such a vector holds can be proved, which of a hash map keyed by identifiers it cannot.
pub struct MemStore {
    entries: Vec<Stored>,
    limit: Option<usize>,
    history: Ghost<Seq<BlockModel>>,
}

impl MemStore {
    #[verifier::type_invariant]
    closed spec fn inv(self) -> bool {
        &&& spec_distinct(self.entries@)
        &&& spec_kept(self.entries@) == spec_held(self.history@)
    }

    /// What the store holds: blocks by the digests of their identifiers.
    pub open spec fn blocks(&self) -> Map<Seq<u8>, Seq<u8>> {
        spec_held(self.written())
    }

    /// The number of blocks that the store was made to hold at most.
    pub closed spec fn limit(&self) -> Option<usize> {
        self.limit
    }

    /// A store that holds nothing and takes no new block once it holds `limit` blocks.
    pub fn bounded(limit: usize) -> (store: MemStore)
        ensures
            store.written() == Seq::<BlockModel>::empty(),
            store.limit() == Some(limit),
    {
        proof {
            assert(spec_kept(Seq::<Stored>::empty()) =~= Map::<Seq<u8>, Seq<u8>>::empty());
        }
        MemStore { entries: Vec::new(), limit: Some(limit), history: Ghost(Seq::empty()) }
    }

    /// The place of the block kept under `cid`.
    fn find(&self, cid: &Cid) -> (place: Option<usize>)
        ensures
            match place {
                Some(i) => spec_kept_at(self.entries@, cid@, i as int),
                None => forall|i: int| !spec_kept_at(self.entries@, cid@, i),
            },
    {
        let mut i: usize = 0;
        while i < self.entries.len()
            invariant
                i <= self.entries@.len(),
                forall|j: int| 0 <= j < i ==> self.entries@[j].cid@ != cid@,
            decreases self.entries@.len() - i,
        {
            match key_order(self.entries[i].cid.digest().as_slice(), cid.digest().as_slice()) {
                KeyOrder::Same => {
                    return Some(i);
                },
                _ => {},
            }
            i = i + 1;
        }
        None
    }

    /// Gives up the store and hands out the blocks it kept, each once, in the order in
    /// which their identifiers were first used.
    pub fn into_blocks(self) -> (blocks: Vec<Stored>)
        ensures
            blocks@.len() == self.blocks().dom().len(),
            forall|i: int|
                0 <= i < blocks@.len() ==> self.blocks().contains_key((#[trigger] blocks@[i]).cid@)
                    && self.blocks()[blocks@[i].cid@] == blocks@[i].bytes@,
            forall|digest: Seq<u8>|
                self.blocks().contains_key(digest) ==> exists|i: int|
                    0 <= i < blocks@.len() && (#[trigger] blocks@[i]).cid@ == digest,
    {
        proof {
            use_type_invariant(&self);
            lemma_kept_len(self.entries@);
            assert(self.blocks() == spec_kept(self.entries@));
            assert forall|i: int| 0 <= i < self.entries@.len() implies self.blocks().contains_key(
                (#[trigger] self.entries@[i]).cid@,
            ) && self.blocks()[self.entries@[i].cid@] == self.entries@[i].bytes@ by {
                lemma_kept_at(self.entries@, i);
            }
            assert forall|digest: Seq<u8>| self.blocks().contains_key(digest) implies exists|
                i: int,
            |
                0 <= i < self.entries@.len() && (#[trigger] self.entries@[i]).cid@ == digest by {
                let c = choose|c: int| spec_kept_at(self.entries@, digest, c);
                assert(spec_kept_at(self.entries@, digest, c));
                assert(self.entries@[c].cid@ == digest);
            }
        }
        self.entries
    }

    /// The number of blocks kept.
    pub fn len(&self) -> (count: usize)
        ensures
            count == self.blocks().dom().len(),
            self.blocks().dom().finite(),
    {
        proof {
            use_type_invariant(self);
            lemma_kept_len(self.entries@);
        }
        self.entries.len()
    }
}

/// Where the blocks are kept under distinct identifiers, the block kept under the
/// identifier at a place is the block at that place.
proof fn lemma_kept_at(entries: Seq<Stored>, i: int)
    requires
        spec_distinct(entries),
        0 <= i < entries.len(),
    ensures
        spec_kept(entries).contains_key(entries[i].cid@),
        spec_kept(entries)[entries[i].cid@] == entries[i].bytes@,
{
    let digest = entries[i].cid@;
    assert(spec_kept_at(entries, digest, i));
    let chosen = choose|c: int| spec_kept_at(entries, digest, c);
    if chosen < i {
        assert(entries[chosen].cid@ != entries[i].cid@);
    } else if i < chosen {
        assert(entries[i].cid@ != entries[chosen].cid@);
    }
}

/// As many identifiers are in use as blocks are kept under distinct identifiers.
proof fn lemma_kept_len(entries: Seq<Stored>)
    requires
        spec_distinct(entries),
    ensures
        spec_kept(entries).dom().finite(),
        spec_kept(entries).dom().len() == entries.len(),
    decreases entries.len(),
{
    if entries.len() == 0 {
        assert(spec_kept(entries).dom() =~= Set::<Seq<u8>>::empty());
    } else {
        let shorter = entries.drop_last();
        assert forall|i: int, j: int| 0 <= i < j < shorter.len() implies (
        #[trigger] shorter[i]).cid@ != (#[trigger] shorter[j]).cid@ by {
            assert(shorter[i] == entries[i] && shorter[j] == entries[j]);
        }
        lemma_kept_len(shorter);
        let last = entries.last().cid@;
        assert forall|d: Seq<u8>| spec_kept(entries).dom().contains(d) == spec_kept(
            shorter,
        ).dom().insert(last).contains(d) by {
            if spec_kept(entries).dom().contains(d) {
                let i = choose|i: int| spec_kept_at(entries, d, i);
                if i < shorter.len() {
                    assert(spec_kept_at(shorter, d, i));
                }
            }
            if spec_kept(shorter).dom().contains(d) {
                let i = choose|i: int| spec_kept_at(shorter, d, i);
                assert(spec_kept_at(entries, d, i));
            }
            if d == last {
                assert(spec_kept_at(entries, d, entries.len() - 1));
            }
        }
        assert(spec_kept(entries).dom() =~= spec_kept(shorter).dom().insert(last));
        if spec_kept(shorter).dom().contains(last) {
            let i = choose|i: int| spec_kept_at(shorter, last, i);
            assert(entries[i].cid@ != entries[entries.len() - 1].cid@);
        }
    }
}

/// What the blocks hold after the block at place `i` was replaced by one with the same
/// identifier.
proof fn lemma_kept_replace(before: Seq<Stored>, after: Seq<Stored>, i: int, bytes: Seq<u8>)
    requires
        spec_distinct(before),
        0 <= i < before.len(),
        after.len() == before.len(),
        after[i].cid@ == before[i].cid@,
        after[i].bytes@ == bytes,
        forall|j: int| 0 <= j < before.len() && j != i ==> after[j] == before[j],
    ensures
        spec_distinct(after),
        spec_kept(after) == spec_kept(before).insert(before[i].cid@, bytes),
{
    let digest = before[i].cid@;
    assert forall|a: int, b: int| 0 <= a < b < after.len() implies (#[trigger] after[a]).cid@ != (
    #[trigger] after[b]).cid@ by {
        assert(after[a].cid@ == before[a].cid@);
        assert(after[b].cid@ == before[b].cid@);
        assert(before[a].cid@ != before[b].cid@);
    }
    assert forall|d: Seq<u8>| #[trigger]
        spec_kept(after).dom().contains(d) == spec_kept(before).insert(
            digest,
            bytes,
        ).dom().contains(d) by {
        if spec_kept(after).dom().contains(d) {
            let c = choose|c: int| spec_kept_at(after, d, c);
            assert(after[c].cid@ == before[c].cid@);
            assert(spec_kept_at(before, d, c));
        }
        if spec_kept(before).dom().contains(d) {
            let c = choose|c: int| spec_kept_at(before, d, c);
            assert(after[c].cid@ == before[c].cid@);
            assert(spec_kept_at(after, d, c));
        }
        if d == digest {
            assert(spec_kept_at(after, d, i));
        }
    }
    assert forall|d: Seq<u8>| #[trigger]
        spec_kept(after).dom().contains(d) implies spec_kept(after)[d] == spec_kept(
        before,
    ).insert(digest, bytes)[d] by {
        let c = choose|c: int| spec_kept_at(after, d, c);
        lemma_kept_at(after, c);
        assert(after[c].cid@ == before[c].cid@);
        if d != digest {
            assert(spec_kept_at(before, d, c));
            lemma_kept_at(before, c);
        } else {
            lemma_kept_at(after, i);
        }
    }
    assert(spec_kept(after) =~= spec_kept(before).insert(digest, bytes));
}

/// What the blocks hold after a block with a new identifier was added.
proof fn lemma_kept_push(before: Seq<Stored>, entry: Stored)
    requires
        spec_distinct(before),
        forall|i: int| !spec_kept_at(before, entry.cid@, i),
    ensures
        spec_distinct(before.push(entry)),
        spec_kept(before.push(entry)) == spec_kept(before).insert(entry.cid@, entry.bytes@),
        !spec_kept(before).contains_key(entry.cid@),
{
    let after = before.push(entry);
    let last = after.len() - 1;
    assert forall|a: int, b: int| 0 <= a < b < after.len() implies (#[trigger] after[a]).cid@ != (
    #[trigger] after[b]).cid@ by {
        if b < last {
            assert(after[a] == before[a] && after[b] == before[b]);
            assert(before[a].cid@ != before[b].cid@);
        } else {
            assert(after[a] == before[a]);
            assert(!spec_kept_at(before, entry.cid@, a));
        }
    }
    assert forall|d: Seq<u8>| #[trigger]
        spec_kept(after).dom().contains(d) == spec_kept(before).insert(
            entry.cid@,
            entry.bytes@,
        ).dom().contains(d) by {
        if spec_kept(after).dom().contains(d) {
            let c = choose|c: int| spec_kept_at(after, d, c);
            if c < last {
                assert(spec_kept_at(before, d, c));
            }
        }
        if spec_kept(before).dom().contains(d) {
            let c = choose|c: int| spec_kept_at(before, d, c);
            assert(spec_kept_at(after, d, c));
        }
        if d == entry.cid@ {
            assert(spec_kept_at(after, d, last));
        }
    }
    assert forall|d: Seq<u8>| #[trigger]
        spec_kept(after).dom().contains(d) implies spec_kept(after)[d] == spec_kept(
        before,
    ).insert(entry.cid@, entry.bytes@)[d] by {
        let c = choose|c: int| spec_kept_at(after, d, c);
        lemma_kept_at(after, c);
        if d != entry.cid@ {
            assert(spec_kept_at(before, d, c));
            lemma_kept_at(before, c);
        } else {
            lemma_kept_at(after, last);
        }
    }
    assert(spec_kept(after) =~= spec_kept(before).insert(entry.cid@, entry.bytes@));
    if spec_kept(before).dom().contains(entry.cid@) {
        let c = choose|c: int| spec_kept_at(before, entry.cid@, c);
        assert(spec_kept_at(before, entry.cid@, c));
    }
}

/// What the blocks hold after the block at place `i` was taken out.
proof fn lemma_kept_remove(before: Seq<Stored>, i: int)
    requires
        spec_distinct(before),
        0 <= i < before.len(),
    ensures
        spec_distinct(before.remove(i)),
        spec_kept(before.remove(i)) == spec_kept(before).remove(before[i].cid@),
{
    let after = before.remove(i);
    let digest = before[i].cid@;
    assert forall|a: int, b: int| 0 <= a < b < after.len() implies (#[trigger] after[a]).cid@ != (
    #[trigger] after[b]).cid@ by {
        let a0 = if a < i {
            a
        } else {
            a + 1
        };
        let b0 = if b < i {
            b
        } else {
            b + 1
        };
        assert(after[a] == before[a0] && after[b] == before[b0]);
        assert(before[a0].cid@ != before[b0].cid@);
    }
    assert forall|d: Seq<u8>| #[trigger]
        spec_kept(after).dom().contains(d) == spec_kept(before).remove(digest).dom().contains(
            d,
        ) by {
        if spec_kept(after).dom().contains(d) {
            let c = choose|c: int| spec_kept_at(after, d, c);
            let c0 = if c < i {
                c
            } else {
                c + 1
            };
            assert(after[c] == before[c0]);
            assert(spec_kept_at(before, d, c0));
            if d == digest {
                if c0 < i {
                    assert(before[c0].cid@ != before[i].cid@);
                } else {
                    assert(before[i].cid@ != before[c0].cid@);
                }
            }
        }
        if spec_kept(before).dom().contains(d) && d != digest {
            let c = choose|c: int| spec_kept_at(before, d, c);
            let c1 = if c < i {
                c
            } else {
                c - 1
            };
            assert(after[c1] == before[c]);
            assert(spec_kept_at(after, d, c1));
        }
    }
    assert forall|d: Seq<u8>| #[trigger]
        spec_kept(after).dom().contains(d) implies spec_kept(after)[d] == spec_kept(
        before,
    ).remove(digest)[d] by {
        let c = choose|c: int| spec_kept_at(after, d, c);
        let c0 = if c < i {
            c
        } else {
            c + 1
        };
        assert(after[c] == before[c0]);
        lemma_kept_at(after, c);
        lemma_kept_at(before, c0);
    }
    assert(spec_kept(after) =~= spec_kept(before).remove(digest));
}

/// A store that does not keep a block under an identifier holds none under it.
proof fn lemma_kept_nowhere(entries: Seq<Stored>, digest: Seq<u8>)
    requires
        forall|i: int| !spec_kept_at(entries, digest, i),
    ensures
        !spec_kept(entries).contains_key(digest),
{
    if spec_kept(entries).dom().contains(digest) {
        let c = choose|c: int| spec_kept_at(entries, digest, c);
        assert(spec_kept_at(entries, digest, c));
    }
}

impl CidStore for MemStore {
    closed spec fn written(&self) -> Seq<BlockModel> {
        self.history@
    }

    /// A store in memory takes every block unless it has a limit.
    open spec fn reliable(&self) -> bool {
        self.limit() is None
    }

    fn new() -> (store: Self)
        ensures
            store.limit() is None,
    {
        proof {
            assert(spec_kept(Seq::<Stored>::empty()) =~= Map::<Seq<u8>, Seq<u8>>::empty());
        }
        MemStore { entries: Vec::new(), limit: None, history: Ghost(Seq::empty()) }
    }

    fn get(&self, cid: &Cid) -> (block: Option<&Vec<u8>>) {
        proof {
            use_type_invariant(self);
        }
        match self.find(cid) {
            Some(i) => {
                proof {
                    lemma_kept_at(self.entries@, i as int);
                }
                Some(&self.entries[i].bytes)
            },
            None => {
                proof {
                    lemma_kept_nowhere(self.entries@, cid@);
                }
                None
            },
        }
    }

    fn insert(&mut self, cid: &Cid, block: Vec<u8>) -> (previous: Result<
        Option<Vec<u8>>,
        HashMapError,
    >)
        ensures
            final(self).limit() == old(self).limit(),
            previous is Err <==> !old(self).blocks().contains_key(cid@) && (old(
                self,
            ).limit() matches Some(limit) && old(self).blocks().dom().len() >= limit),
            previous matches Err(error) ==> error == HashMapError::SinkIO,
            previous matches Ok(before) ==> (before is Some <==> old(self).blocks().contains_key(
                cid@,
            )),
    {
        proof {
            use_type_invariant(&*self);
            lemma_kept_len(self.entries@);
            assert(spec_kept(Seq::<Stored>::empty()) =~= Map::<Seq<u8>, Seq<u8>>::empty());
        }
        let ghost before = self.entries@;
        let ghost log = self.history@;
        let ghost model = BlockModel { cid: cid@, bytes: block@ };
        let place = self.find(cid);
        let mut taken = MemStore { entries: Vec::new(), limit: None, history: Ghost(Seq::empty()) };
        core::mem::swap(self, &mut taken);
        let MemStore { entries, limit, history } = taken;
        let mut entries = entries;
        proof {
            assert(log.push(model).drop_last() =~= log);
        }
        match place {
            Some(i) => {
                proof {
                    lemma_kept_at(before, i as int);
                }
                let kept = entries[i].bytes.clone();
                assert(kept@ =~= before[i as int].bytes@);
                entries.set(i, Stored { cid: cid.clone(), bytes: block });
                proof {
                    lemma_kept_replace(before, entries@, i as int, model.bytes);
                }
                *self = MemStore { entries, limit, history: Ghost(log.push(model)) };
                Ok(Some(kept))
            },
            None => {
                proof {
                    lemma_kept_nowhere(before, cid@);
                }
                let full = match limit {
                    Some(most) => entries.len() >= most,
                    None => false,
                };
                if full {
                    *self = MemStore { entries, limit, history };
                    return Err(HashMapError::SinkIO);
                }
                let entry = Stored { cid: cid.clone(), bytes: block };
                proof {
                    lemma_kept_push(before, entry);
                }
                entries.push(entry);
                *self = MemStore { entries, limit, history: Ghost(log.push(model)) };
                Ok(None)
            },
        }
    }

    fn remove(&mut self, cid: &Cid) -> (previous: Option<Vec<u8>>)
        ensures
            final(self).limit() == old(self).limit(),
    {
        proof {
            use_type_invariant(&*self);
            assert(spec_kept(Seq::<Stored>::empty()) =~= Map::<Seq<u8>, Seq<u8>>::empty());
        }
        let ghost before = self.entries@;
        let ghost log = self.history@;
        let place = self.find(cid);
        let mut taken = MemStore { entries: Vec::new(), limit: None, history: Ghost(Seq::empty()) };
        core::mem::swap(self, &mut taken);
        let MemStore { entries, limit, history } = taken;
        let mut entries = entries;
        proof {
            lemma_put_all_without(log, cid@);
        }
        match place {
            Some(i) => {
                proof {
                    lemma_kept_at(before, i as int);
                    lemma_kept_remove(before, i as int);
                }
                let gone = entries.remove(i);
                *self = MemStore { entries, limit, history: Ghost(spec_without(log, cid@)) };
                Some(gone.bytes)
            },
            None => {
                proof {
                    lemma_kept_nowhere(before, cid@);
                    assert(spec_kept(before) =~= spec_kept(before).remove(cid@));
                }
                *self = MemStore { entries, limit, history: Ghost(spec_without(log, cid@)) };
                None
            },
        }
    }
}

/// The blocks of a run without those under the identifier with the given digest.
pub open spec fn spec_without(blocks: Seq<BlockModel>, digest: Seq<u8>) -> Seq<BlockModel>
    decreases blocks.len(),
{
    if blocks.len() == 0 {
        Seq::empty()
    } else if blocks.last().cid == digest {
        spec_without(blocks.drop_last(), digest)
    } else {
        spec_without(blocks.drop_last(), digest).push(blocks.last())
    }
}

/// A store into which a run of blocks was put, without those under an identifier, holds
/// what a store holds into which the whole run was put and from which the block under that
/// identifier was taken out.
pub proof fn lemma_put_all_without(blocks: Seq<BlockModel>, digest: Seq<u8>)
    ensures
        spec_put_all(Map::empty(), spec_without(blocks, digest)) == spec_put_all(
            Map::empty(),
            blocks,
        ).remove(digest),
    decreases blocks.len(),
{
    let empty = Map::<Seq<u8>, Seq<u8>>::empty();
    if blocks.len() == 0 {
        assert(empty.remove(digest) =~= empty);
    } else {
        lemma_put_all_without(blocks.drop_last(), digest);
        let shorter = spec_put_all(empty, blocks.drop_last());
        let last = blocks.last();
        if last.cid == digest {
            assert(shorter.insert(digest, last.bytes).remove(digest) =~= shorter.remove(digest));
        } else {
            let kept = spec_without(blocks.drop_last(), digest).push(last);
            assert(kept.drop_last() =~= spec_without(blocks.drop_last(), digest));
            assert(shorter.remove(digest).insert(last.cid, last.bytes) =~= shorter.insert(
                last.cid,
                last.bytes,
            ).remove(digest));
        }
    }
}

/// The blocks of a run of stored blocks as plain values.
pub open spec fn spec_models(entries: Seq<Stored>) -> Seq<BlockModel> {
    Seq::new(entries.len(), |i: int| BlockModel { cid: entries[i].cid@, bytes: entries[i].bytes@ })
}

/// A block store in memory that keeps every block it is given, in the order in which they
/// come. Writing to it takes the same time however many blocks it holds.
#[derive(Debug)]
pub struct BlockLog {
    entries: Vec<Stored>,
}

impl BlockLog {
    /// The number of blocks that were written.
    pub fn len(&self) -> (count: usize)
        ensures
            count == self.written().len(),
    {
        self.entries.len()
    }

    /// Gives up the log and hands out the blocks in the order in which they were written.
    pub fn into_blocks(self) -> (blocks: Vec<Stored>)
        ensures
            spec_models(blocks@) == self.written(),
    {
        self.entries
    }
}

impl CidStore for BlockLog {
    closed spec fn written(&self) -> Seq<BlockModel> {
        spec_models(self.entries@)
    }

    /// A log takes every block.
    open spec fn reliable(&self) -> bool {
        true
    }

    fn new() -> (store: Self) {
        let store = BlockLog { entries: Vec::new() };
        proof {
            assert(store.written() =~= Seq::<BlockModel>::empty());
        }
        store
    }

    fn get(&self, cid: &Cid) -> (block: Option<&Vec<u8>>) {
        let ghost all = self.written();
        let ghost empty = Map::<Seq<u8>, Seq<u8>>::empty();
        let mut i: usize = self.entries.len();
        proof {
            assert(all.take(i as int) =~= all);
        }
        while i > 0
            invariant
                i <= self.entries@.len(),
                all == self.written(),
                all.len() == self.entries@.len(),
                empty == Map::<Seq<u8>, Seq<u8>>::empty(),
                spec_put_all(empty, all).contains_key(cid@) == spec_put_all(
                    empty,
                    all.take(i as int),
                ).contains_key(cid@),
                spec_put_all(empty, all).contains_key(cid@) ==> spec_put_all(empty, all)[cid@]
                    == spec_put_all(empty, all.take(i as int))[cid@],
            decreases i,
        {
            proof {
                assert(all.take(i as int).drop_last() =~= all.take(i - 1));
                assert(all.take(i as int).last() == all[i - 1]);
            }
            i = i - 1;
            match key_order(self.entries[i].cid.digest().as_slice(), cid.digest().as_slice()) {
                KeyOrder::Same => {
                    return Some(&self.entries[i].bytes);
                },
                _ => {},
            }
        }
        proof {
            assert(all.take(0) =~= Seq::<BlockModel>::empty());
        }
        None
    }

    fn insert(&mut self, cid: &Cid, block: Vec<u8>) -> (previous: Result<
        Option<Vec<u8>>,
        HashMapError,
    >)
        ensures
            previous == Ok::<Option<Vec<u8>>, HashMapError>(None),
    {
        let ghost before = self.written();
        let ghost model = BlockModel { cid: cid@, bytes: block@ };
        self.entries.push(Stored { cid: cid.clone(), bytes: block });
        proof {
            assert(self.written() =~= before.push(model));
            assert(self.written().drop_last() =~= before);
        }
        Ok(None)
    }

    fn remove(&mut self, cid: &Cid) -> (previous: Option<Vec<u8>>) {
        let found = match self.get(cid) {
            Some(bytes) => {
                let copy = bytes.clone();
                assert(copy@ =~= bytes@);
                Some(copy)
            },
            None => None,
        };
        let ghost before = self.written();
        let mut kept: Vec<Stored> = Vec::new();
        let mut i: usize = 0;
        proof {
            assert(before.take(0) =~= Seq::<BlockModel>::empty());
            assert(spec_models(kept@) =~= Seq::<BlockModel>::empty());
        }
        while i < self.entries.len()
            invariant
                i <= self.entries@.len(),
                before == self.written(),
                before.len() == self.entries@.len(),
                spec_models(kept@) == spec_without(before.take(i as int), cid@),
            decreases self.entries@.len() - i,
        {
            proof {
                assert(before.take(i + 1).drop_last() =~= before.take(i as int));
                assert(before.take(i + 1).last() == before[i as int]);
            }
            match key_order(self.entries[i].cid.digest().as_slice(), cid.digest().as_slice()) {
                KeyOrder::Same => {},
                _ => {
                    let copy = self.entries[i].cid.clone();
                    let bytes = self.entries[i].bytes.clone();
                    let ghost so_far = spec_models(kept@);
                    proof {
                        assert(bytes@ =~= self.entries@[i as int].bytes@);
                    }
                    kept.push(Stored { cid: copy, bytes });
                    proof {
                        assert(spec_models(kept@) =~= so_far.push(before[i as int]));
                    }
                },
            }
            i = i + 1;
        }
        proof {
            assert(before.take(i as int) =~= before);
            lemma_put_all_without(before, cid@);
        }
        self.entries = kept;
        found
    }
}

} // verus!
