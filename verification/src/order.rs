//! Identifiers are equal where their digests are, and ordered as their digests are, byte by
//! byte.

use std::cmp::Ordering;
use vstd::prelude::*;
use vstd::std_specs::cmp::{PartialEqSpecImpl, PartialOrdSpecImpl};
use crate::cid::Cid;
use crate::key::{key_order, spec_key_lt, KeyOrder};

verus! {

impl PartialEq for Cid {
    fn eq(&self, other: &Self) -> (same: bool) {
        match key_order(self.digest().as_slice(), other.digest().as_slice()) {
            KeyOrder::Same => true,
            _ => false,
        }
    }
}

impl PartialEqSpecImpl for Cid {
    open spec fn obeys_eq_spec() -> bool {
        true
    }

    /// Two identifiers are equal where their digests are.
    open spec fn eq_spec(&self, other: &Self) -> bool {
        self@ == other@
    }
}

impl Eq for Cid {

}

impl PartialOrd for Cid {
    fn partial_cmp(&self, other: &Self) -> (order: Option<Ordering>) {
        match key_order(self.digest().as_slice(), other.digest().as_slice()) {
            KeyOrder::Before => Some(Ordering::Less),
            KeyOrder::Same => Some(Ordering::Equal),
            KeyOrder::After => Some(Ordering::Greater),
        }
    }
}

impl PartialOrdSpecImpl for Cid {
    open spec fn obeys_partial_cmp_spec() -> bool {
        true
    }

    /// Identifiers are ordered as their digests are, byte by byte.
    open spec fn partial_cmp_spec(&self, other: &Self) -> Option<Ordering> {
        if self@ == other@ {
            Some(Ordering::Equal)
        } else if spec_key_lt(self@, other@) {
            Some(Ordering::Less)
        } else {
            Some(Ordering::Greater)
        }
    }
}

} // verus!
