//! A tree together with the store that its blocks go to.

use vstd::prelude::*;
use crate::cid::Cid;
use crate::cidstore::{spec_put_some, CidStore};
use crate::error::HashMapError;
use crate::nodestate::{Complete, Edit, HashMapState};
use crate::options::HashMapOptions;
use crate::tree::IpldHashMap;

verus! {

/// A tree, the stage it is in, and the store that its blocks are written to.
#[derive(Debug)]
pub struct HashMap<S: HashMapState, T: CidStore> {
    tree: IpldHashMap,
    state: S,
    store: T,
}

impl<S: HashMapState, T: CidStore> View for HashMap<S, T> {
    type V = Map<Seq<u8>, Seq<u8>>;

    /// The mapping that the tree holds.
    closed spec fn view(&self) -> Map<Seq<u8>, Seq<u8>> {
        self.tree@
    }
}

impl<S: HashMapState, T: CidStore> HashMap<S, T> {
    /// The tree.
    pub closed spec fn tree(&self) -> IpldHashMap {
        self.tree
    }

    /// The store that the blocks are written to.
    pub closed spec fn blocks_store(&self) -> T {
        self.store
    }

    /// The stage the tree is in.
    pub closed spec fn stage(&self) -> S {
        self.state
    }

    /// The store that the blocks are written to.
    pub fn store(&self) -> (store: &T)
        ensures
            *store == self.blocks_store(),
    {
        &self.store
    }

    /// Gives up the tree and hands out the store.
    pub fn into_store(self) -> (store: T)
        ensures
            store == self.blocks_store(),
    {
        self.store
    }

    /// Whether the tree is well formed.
    pub open spec fn wf(&self) -> bool {
        self.tree().wf() && self@ == self.tree()@
    }

    /// The parameters of the tree.
    pub fn parameters(&self) -> (options: HashMapOptions)
        ensures
            options == self.tree().options(),
    {
        self.tree.parameters()
    }

    /// The value stored for `key`.
    pub fn get(&self, key: Vec<u8>) -> (value: Result<Option<&Cid>, HashMapError>)
        requires
            self.wf(),
        ensures
            value matches Ok(found) && (found is Some <==> self@.contains_key(key@)) && (
            found matches Some(cid) ==> cid@ == self@[key@]),
    {
        Ok(self.tree.get(key.as_slice()))
    }

    /// Stores `value` under `key`. A value already stored under the key is replaced.
    pub fn insert(&mut self, key: Vec<u8>, value: Cid) -> (done: Result<(), HashMapError>)
        requires
            old(self).wf(),
        ensures
            done is Ok,
            final(self).wf(),
            final(self).tree().options() == old(self).tree().options(),
            final(self)@ == old(self)@.insert(key@, value@),
            final(self).blocks_store() == old(self).blocks_store(),
            final(self).stage() == old(self).stage(),
    {
        self.tree.put(key, value)
    }

    /// Writes the blocks of the tree into the store and gives the identifier of the root
    /// block. Stops at the first block that the store does not take.
    pub fn cid(&mut self) -> (root: Result<Cid, HashMapError>)
        requires
            old(self).wf(),
        ensures
            final(self).tree() == old(self).tree(),
            final(self).stage() == old(self).stage(),
            final(self).wf(),
            old(self).blocks_store().reliable() ==> root is Ok,
            old(self).blocks_store().reliable() ==> final(self).blocks_store().reliable(),
            match root {
                Ok(cid) => {
                    &&& cid@ == old(self).tree().root_cid()
                    &&& final(self).blocks_store().written() == old(
                        self,
                    ).blocks_store().written() + old(self).tree().blocks()
                },
                Err(error) => {
                    &&& error == HashMapError::SinkIO
                    &&& spec_put_some(
                        old(self).blocks_store().written(),
                        old(self).tree().blocks(),
                        final(self).blocks_store().written(),
                    )
                },
            },
    {
        self.tree.collapse(&mut self.store)
    }

    /// Writes the blocks of the tree into the store. Stops at the first block that the
    /// store does not take.
    pub fn collapse(&mut self) -> (done: Result<(), HashMapError>)
        requires
            old(self).wf(),
        ensures
            final(self).tree() == old(self).tree(),
            final(self).stage() == old(self).stage(),
            final(self).wf(),
            old(self).blocks_store().reliable() ==> done is Ok,
            old(self).blocks_store().reliable() ==> final(self).blocks_store().reliable(),
            match done {
                Ok(_) => final(self).blocks_store().written() == old(
                    self,
                ).blocks_store().written() + old(self).tree().blocks(),
                Err(error) => {
                    &&& error == HashMapError::SinkIO
                    &&& spec_put_some(
                        old(self).blocks_store().written(),
                        old(self).tree().blocks(),
                        final(self).blocks_store().written(),
                    )
                },
            },
    {
        match self.tree.collapse(&mut self.store) {
            Ok(_) => Ok(()),
            Err(error) => Err(error),
        }
    }
}

impl<T: CidStore> HashMap<Complete, T> {
    /// An empty tree over `store` that consumes five bits of the digest at each level and
    /// splits a bucket that holds three pairs.
    pub fn new(store: T) -> (map: HashMap<Complete, T>)
        ensures
            map.wf(),
            map@ == Map::<Seq<u8>, Seq<u8>>::empty(),
            map.tree().options().bit_width == 5,
            map.tree().options().bucket_size == 3,
            map.blocks_store() == store,
    {
        HashMap { tree: IpldHashMap::new(5, 3), state: Complete, store }
    }

    /// The tree in the stage in which it takes new pairs.
    pub fn edit(self) -> (map: HashMap<Edit, T>)
        ensures
            map.tree() == self.tree(),
            map@ == self@,
            map.blocks_store() == self.blocks_store(),
    {
        HashMap { tree: self.tree, state: Edit, store: self.store }
    }
}

} // verus!
