//! The ways an operation on a tree can fail.

use vstd::prelude::*;

verus! {

/// Why an operation failed.
#[derive(Debug, Clone, Copy, PartialEq, Eq, Structural)]
pub enum HashMapError {
    /// A slot index was beyond the slots of the node.
    OutOfBounds,
    /// The digest has no bits left for the depth that was reached.
    BadDigest,
    /// A block does not have the shape of a node or of a root.
    BadBlock,
    /// A shard does not consist of exactly one child node under its root.
    ShardShape,
    /// The number of subtrees handed over is not the number of slots of the root.
    StitchArity,
    /// The block store did not take a block.
    SinkIO,
}

impl HashMapError {
    /// A short description of the failure.
    pub open spec fn spec_message(self) -> Seq<char> {
        match self {
            HashMapError::OutOfBounds => "index was out of bounds of the node"@,
            HashMapError::BadDigest => "the digest has too few bits"@,
            HashMapError::BadBlock => "the block is not well formed"@,
            HashMapError::ShardShape => "the shard is not a single subtree"@,
            HashMapError::StitchArity => "subtree count does not match width of tree"@,
            HashMapError::SinkIO => "the block store failed"@,
        }
    }

    /// A short description of the failure.
    pub fn message(&self) -> (text: &'static str)
        ensures
            text@ == self.spec_message(),
    {
        match self {
            HashMapError::OutOfBounds => "index was out of bounds of the node",
            HashMapError::BadDigest => "the digest has too few bits",
            HashMapError::BadBlock => "the block is not well formed",
            HashMapError::ShardShape => "the shard is not a single subtree",
            HashMapError::StitchArity => "subtree count does not match width of tree",
            HashMapError::SinkIO => "the block store failed",
        }
    }
}

} // verus!
