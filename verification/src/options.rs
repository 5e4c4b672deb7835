//! The parameters of a tree, fixed when it is made.

use vstd::prelude::*;
use crate::hash::SHA2_256_CODE;

verus! {

/// The parameters of a tree.
#[derive(Debug, Clone, Copy, PartialEq, Eq, Structural)]
pub struct HashMapOptions {
    /// The multihash code of the hash that keys are digested with.
    pub hash_alg: u64,
    /// The number of pairs a bucket takes before it is split.
    pub bucket_size: usize,
    /// The number of digest bits consumed at each level.
    pub bit_width: usize,
}

impl HashMapOptions {
    /// Whether the parameters are ones a tree can have: one to eight bits a level, a bucket
    /// size of at least one, and SHA-256.
    pub open spec fn wf(&self) -> bool {
        &&& 1 <= self.bit_width <= 8
        &&& 1 <= self.bucket_size
        &&& self.hash_alg == SHA2_256_CODE
    }

    /// The parameters for the given width and bucket size, if they are in range.
    pub fn new(bit_width: usize, bucket_size: usize) -> (options: Option<HashMapOptions>)
        ensures
            options is Some <==> 1 <= bit_width <= 8 && 1 <= bucket_size,
            options matches Some(o) ==> o.wf() && o.bit_width == bit_width && o.bucket_size
                == bucket_size,
    {
        if 1 <= bit_width && bit_width <= 8 && 1 <= bucket_size {
            Some(HashMapOptions { hash_alg: SHA2_256_CODE, bucket_size, bit_width })
        } else {
            None
        }
    }
}

} // verus!
