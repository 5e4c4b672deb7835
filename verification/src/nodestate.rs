//! The stages in the life of a tree.

use vstd::prelude::*;

verus! {

/// A stage in the life of a tree.
pub trait HashMapState {

}

/// The tree was read back and checked.
#[derive(Debug, Clone, Copy, PartialEq, Eq, Structural)]
pub struct Valid;

impl HashMapState for Valid {

}

/// The tree takes new pairs.
#[derive(Debug, Clone, Copy, PartialEq, Eq, Structural)]
pub struct Edit;

impl HashMapState for Edit {

}

/// The tree is complete and can be written out.
#[derive(Debug, Clone, Copy, PartialEq, Eq, Structural)]
pub struct Complete;

impl HashMapState for Complete {

}

} // verus!
