//! The tree: a root node with the parameters it was made with.

use vstd::prelude::*;
use crate::bits::{fanout, spec_fanout};
use crate::block::{spec_encode_root, BlockElement, BlockSlot, MapBlock};
use crate::cid::{spec_block_cid, Cid};
use crate::cidstore::{
    lemma_put_all_add, spec_held, spec_put_all, spec_put_some, BlockModel, CidStore,
};
use crate::error::HashMapError;
use crate::hash::{sha2_256, SHA2_256_CODE};
use crate::model::{lemma_empty_entries, spec_path, spec_single_child, NodeModel};
use crate::node::Node;
use crate::options::HashMapOptions;

verus! {

/// A hash array-mapped trie from byte-string keys to content identifiers.
#[derive(Debug)]
pub struct IpldHashMap {
    root: Node,
    options: HashMapOptions,
}

/// Turns a boxed slice into a vector, with `<[u8]>::into_vec` of the standard library.
///
/// Trusted: the vector holds the bytes of the slice.
#[verifier::external_body]
fn boxed_into_vec(bytes: Box<[u8]>) -> (vector: Vec<u8>)
    ensures
        vector@ == bytes@,
{
    bytes.into_vec()
}

/// The root node of a tree stitched from subtrees: every slot holds the link to one.
pub open spec fn spec_stitched(subtrees: Seq<Seq<u8>>) -> Seq<BlockSlot> {
    Seq::new(subtrees.len(), |i: int| BlockSlot::Link(subtrees[i]))
}

/// The digests of a run of identifiers.
pub open spec fn spec_digests(cids: Seq<Cid>) -> Seq<Seq<u8>> {
    Seq::new(cids.len(), |i: int| cids[i]@)
}

impl View for IpldHashMap {
    type V = Map<Seq<u8>, Seq<u8>>;

    /// The mapping that the tree holds: from each key to the digest of its value's
    /// identifier.
    closed spec fn view(&self) -> Map<Seq<u8>, Seq<u8>> {
        self.root@.entries(0, self.options.bit_width as nat)
    }
}

impl IpldHashMap {
    /// The parameters of the tree.
    pub closed spec fn options(&self) -> HashMapOptions {
        self.options
    }

    /// The root node.
    pub closed spec fn root(&self) -> NodeModel {
        self.root@
    }

    /// Whether the tree is well formed: its parameters are in range, every node and bucket
    /// obeys them, and it holds finitely many keys.
    pub open spec fn wf(&self) -> bool {
        &&& self.options().wf()
        &&& self.root().wf(
            Seq::empty(),
            self.options().bit_width as nat,
            self.options().bucket_size as nat,
        )
        &&& self@.dom().finite()
        &&& self@ == self.root().entries(0, self.options().bit_width as nat)
    }

    /// The bytes of the root block.
    pub open spec fn root_bytes(&self) -> Seq<u8> {
        spec_encode_root(
            self.root().block(),
            self.options().hash_alg,
            spec_fanout(self.options().bit_width as nat) as u64,
        )
    }

    /// The digest of the identifier of the root block.
    pub open spec fn root_cid(&self) -> Seq<u8> {
        spec_block_cid(self.root_bytes())
    }

    /// The blocks of the tree in the order they are written: the blocks of every child
    /// before the block of its parent, the root block last.
    pub open spec fn blocks(&self) -> Seq<BlockModel> {
        self.root().child_blocks(self.root().slots.len()).push(
            BlockModel { cid: self.root_cid(), bytes: self.root_bytes() },
        )
    }

    /// The parameters of the tree.
    pub fn parameters(&self) -> (options: HashMapOptions)
        ensures
            options == self.options(),
    {
        self.options
    }

    /// An empty tree that consumes `width` bits of the digest at each level and splits a
    /// bucket that holds `bucket_size` pairs.
    pub fn new(width: usize, bucket_size: usize) -> (tree: IpldHashMap)
        requires
            1 <= width <= 8,
            1 <= bucket_size,
        ensures
            tree.wf(),
            tree@ == Map::<Seq<u8>, Seq<u8>>::empty(),
            tree.options().bit_width == width,
            tree.options().bucket_size == bucket_size,
            tree.root().is_empty(),
    {
        let root = Node::new(width);
        let options = HashMapOptions { hash_alg: SHA2_256_CODE, bucket_size, bit_width: width };
        proof {
            lemma_empty_entries(root@, 0, width as nat);
            assert(root@.is_empty());
            assert forall|i: int| 0 <= i < root@.slots.len() implies (#[trigger] root@.slots[i]).wf(
                Seq::<nat>::empty().push(i as nat),
                width as nat,
                bucket_size as nat,
            ) by {
                assert(root@.slots[i] is Empty);
            }
            let path = Seq::<nat>::empty();
            assert((path.len() + 1) * (width as nat) <= 256) by (nonlinear_arith)
                requires
                    path.len() == 0,
                    width <= 8,
            ;
            assert(root@.wf(path, width as nat, bucket_size as nat));
        }
        let tree = IpldHashMap { root, options };
        assert(tree@.dom().finite());
        tree
    }

    /// The value stored for `key`.
    pub fn get(&self, key: &[u8]) -> (value: Option<&Cid>)
        requires
            self.wf(),
        ensures
            value is Some <==> self@.contains_key(key@),
            value matches Some(cid) ==> cid@ == self@[key@],
    {
        let digest = sha2_256(key);
        proof {
            assert(spec_path(digest@, 0, self.options.bit_width as nat) =~= Seq::<nat>::empty());
        }
        match self.root.get(key, digest.as_slice(), 0, &self.options) {
            Ok(value) => value,
            Err(_) => None,
        }
    }

    /// Stores `value` under `key`. A value already stored under the key is replaced.
    pub fn set(&mut self, key: Box<[u8]>, value: Cid) -> (done: Result<(), HashMapError>)
        requires
            old(self).wf(),
        ensures
            done is Ok,
            final(self).wf(),
            final(self).options() == old(self).options(),
            final(self)@ == old(self)@.insert(key@, value@),
    {
        self.put(boxed_into_vec(key), value)
    }

    /// Stores `value` under the key that the vector holds.
    pub(crate) fn put(&mut self, key: Vec<u8>, value: Cid) -> (done: Result<(), HashMapError>)
        requires
            old(self).wf(),
        ensures
            done is Ok,
            final(self).wf(),
            final(self).options() == old(self).options(),
            final(self)@ == old(self)@.insert(key@, value@),
    {
        let digest = sha2_256(key.as_slice());
        proof {
            assert(spec_path(digest@, 0, self.options.bit_width as nat) =~= Seq::<nat>::empty());
        }
        self.root.set(key, value, digest, 0, &self.options)
    }

    /// Writes every block of the tree into `store`, the blocks of every child before the
    /// block of its parent and the root block last, and gives the identifier of the root
    /// block. Stops at the first block that the store does not take.
    pub fn collapse<S: CidStore>(&self, store: &mut S) -> (root: Result<Cid, HashMapError>)
        requires
            self.wf(),
        ensures
            old(store).reliable() ==> root is Ok && final(store).reliable(),
            match root {
                Ok(cid) => {
                    &&& cid@ == self.root_cid()
                    &&& final(store).written() == old(store).written() + self.blocks()
                    &&& spec_held(final(store).written()) == spec_put_all(
                        spec_held(old(store).written()),
                        self.blocks(),
                    )
                },
                Err(error) => {
                    &&& error == HashMapError::SinkIO
                    &&& spec_put_some(old(store).written(), self.blocks(), final(store).written())
                },
            },
    {
        let ghost held = store.written();
        let block = match self.root.collapse_children(store) {
            Ok(block) => block,
            Err(error) => {
                proof {
                    let children = self.root().child_blocks(self.root().slots.len());
                    let k = choose|k: int|
                        0 <= k < children.len() && store.written() == held
                            + #[trigger] children.take(k);
                    assert(self.blocks().take(k) =~= children.take(k));
                }
                return Err(error);
            },
        };
        let slots = fanout(self.options.bit_width);
        let bytes = block.encode_root(self.options.hash_alg, slots as u64);
        let cid = Cid::of_block(bytes.as_slice());
        match store.insert(&cid, bytes) {
            Ok(_) => {
                proof {
                    assert(store.written() =~= held + self.blocks());
                    lemma_put_all_add(Map::empty(), held, self.blocks());
                }
                Ok(cid)
            },
            Err(_) => {
                proof {
                    let children = self.root().child_blocks(self.root().slots.len());
                    assert(self.blocks().take(children.len() as int) =~= children);
                }
                Err(HashMapError::SinkIO)
            },
        }
    }

    /// Writes the blocks of a shard into `store` and gives the identifier of the shard's
    /// subtree. A shard is a tree whose root has one child and nothing else; of any other
    /// tree nothing is written.
    pub fn collapse_partial<S: CidStore>(&self, store: &mut S) -> (shard: Result<
        Cid,
        HashMapError,
    >)
        requires
            self.wf(),
        ensures
            match spec_single_child(self.root()) {
                None => {
                    &&& shard == Err::<Cid, HashMapError>(HashMapError::ShardShape)
                    &&& final(store).written() == old(store).written()
                    &&& final(store).reliable() == old(store).reliable()
                },
                Some(i) => {
                    &&& old(store).reliable() ==> shard is Ok && final(store).reliable()
                    &&& match shard {
                        Ok(cid) => {
                            &&& cid@ == self.root().slots[i]->Child_0.cid()
                            &&& final(store).written() == old(store).written()
                                + self.root().slots[i].blocks()
                        },
                        Err(error) => {
                            &&& error == HashMapError::SinkIO
                            &&& spec_put_some(
                                old(store).written(),
                                self.root().slots[i].blocks(),
                                final(store).written(),
                            )
                        },
                    }
                },
            },
    {
        match self.root.single_child() {
            None => Err(HashMapError::ShardShape),
            Some(child) => child.collapse(store),
        }
    }

    /// Writes into `store` the root block of the tree whose root holds, in slot order, the
    /// links to the given subtrees, and gives its identifier. The subtrees must be as many
    /// as a node has slots.
    pub fn serialize_root_of_subtrees<S: CidStore>(
        &self,
        store: &mut S,
        subtrees: Vec<Cid>,
    ) -> (root: Result<Cid, HashMapError>)
        requires
            self.wf(),
        ensures
            subtrees@.len() != spec_fanout(self.options().bit_width as nat) ==> {
                &&& root == Err::<Cid, HashMapError>(HashMapError::StitchArity)
                &&& final(store).written() == old(store).written()
                &&& final(store).reliable() == old(store).reliable()
            },
            subtrees@.len() == spec_fanout(self.options().bit_width as nat) ==> {
                let bytes = spec_encode_root(
                    spec_stitched(spec_digests(subtrees@)),
                    self.options().hash_alg,
                    spec_fanout(self.options().bit_width as nat) as u64,
                );
                &&& old(store).reliable() ==> root is Ok && final(store).reliable()
                &&& match root {
                    Ok(cid) => {
                        &&& cid@ == spec_block_cid(bytes)
                        &&& final(store).written() == old(store).written().push(
                            BlockModel { cid: cid@, bytes },
                        )
                    },
                    Err(error) => {
                        &&& error == HashMapError::SinkIO
                        &&& final(store).written() == old(store).written()
                    },
                }
            },
    {
        let slots = fanout(self.options.bit_width);
        if subtrees.len() != slots {
            return Err(HashMapError::StitchArity);
        }
        let ghost digests = spec_digests(subtrees@);
        let mut block = MapBlock { elements: Vec::new() };
        let mut i: usize = 0;
        while i < subtrees.len()
            invariant
                i <= subtrees@.len(),
                digests == spec_digests(subtrees@),
                block.elements@.len() == i,
                block@ == spec_stitched(digests).take(i as int),
            decreases subtrees@.len() - i,
        {
            let cid = subtrees[i].clone();
            block.elements.push(Some(BlockElement::Node(cid)));
            proof {
                assert(block@ =~= spec_stitched(digests).take(i + 1));
            }
            i = i + 1;
        }
        proof {
            assert(block@ =~= spec_stitched(digests));
        }
        let bytes = block.encode_root(self.options.hash_alg, slots as u64);
        let cid = Cid::of_block(bytes.as_slice());
        match store.insert(&cid, bytes) {
            Ok(_) => Ok(cid),
            Err(_) => Err(HashMapError::SinkIO),
        }
    }
}

} // verus!
