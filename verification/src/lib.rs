//! A content-addressed hash array-mapped trie from byte-string keys to content identifiers.
//!
//! A tree is built in memory with `IpldHashMap::set`, and written out block by block with
//! `IpldHashMap::collapse`, which gives the identifier of its root block. The shape of a tree,
//! and with it the root identifier, is decided by what the tree holds and not by the order in
//! which it was put in. A tree can be built in shards, one for each slot of the root, and
//! stitched together. A key is looked up in a written tree by walking from block to block.

pub mod bits;
pub mod block;
pub mod car;
pub mod cbor;
pub mod cid;
pub mod cidstore;
pub mod decode;
pub mod error;
pub mod hamt;
pub mod hash;
pub mod key;
pub mod laws;
pub mod model;
pub mod node;
pub mod nodestate;
pub mod options;
pub mod order;
pub mod query;
pub mod tree;

pub use crate::bits::to_int;
pub use crate::cid::Cid;
pub use crate::tree::IpldHashMap;
