//! The order of the nodes of a prefix tree by their significance.

use crate::prefix::Node;
use core::cmp::Ordering;
use vstd::prelude::*;
use vstd::std_specs::cmp::{PartialEqSpecImpl, PartialOrdSpecImpl};

verus! {

impl PartialEq for Node {
    /// Nodes are equal where their significance is.
    fn eq(&self, other: &Self) -> (r: bool) {
        self.significance == other.significance
    }
}

impl PartialEqSpecImpl for Node {
    open spec fn obeys_eq_spec() -> bool {
        true
    }

    open spec fn eq_spec(&self, other: &Self) -> bool {
        self.significance == other.significance
    }
}

impl PartialOrd for Node {
    /// Nodes are ordered by their significance, and nodes of one
    /// significance by the length of their codes.
    fn partial_cmp(&self, other: &Self) -> (r: Option<Ordering>) {
        if self.significance < other.significance {
            Some(Ordering::Less)
        } else if self.significance > other.significance {
            Some(Ordering::Greater)
        } else if self.code.length < other.code.length {
            Some(Ordering::Less)
        } else if self.code.length > other.code.length {
            Some(Ordering::Greater)
        } else {
            Some(Ordering::Equal)
        }
    }
}

impl PartialOrdSpecImpl for Node {
    open spec fn obeys_partial_cmp_spec() -> bool {
        true
    }

    open spec fn partial_cmp_spec(&self, other: &Self) -> Option<Ordering> {
        if self.significance < other.significance {
            Some(Ordering::Less)
        } else if self.significance > other.significance {
            Some(Ordering::Greater)
        } else if self.code.length < other.code.length {
            Some(Ordering::Less)
        } else if self.code.length > other.code.length {
            Some(Ordering::Greater)
        } else {
            Some(Ordering::Equal)
        }
    }
}

} // verus!
