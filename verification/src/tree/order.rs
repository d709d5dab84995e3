//! Comparing nodes: larger nodes come first; equal nodes have the same size and
//! the same name.

use vstd::prelude::*;
use std::cmp::Ordering;
use crate::tree::node::TreeNode;

verus! {

impl PartialEq for TreeNode {
    fn eq(&self, other: &Self) -> (r: bool) {
        self.total_size == other.total_size && self.name == other.name
    }
}

impl vstd::std_specs::cmp::PartialEqSpecImpl for TreeNode {
    open spec fn obeys_eq_spec() -> bool {
        true
    }

    open spec fn eq_spec(&self, other: &Self) -> bool {
        self.total_size == other.total_size && self.name@ == other.name@
    }
}

impl Eq for TreeNode {
}

impl PartialOrd for TreeNode {
    fn partial_cmp(&self, other: &Self) -> (r: Option<Ordering>) {
        if other.total_size < self.total_size {
            Some(Ordering::Less)
        } else if other.total_size == self.total_size {
            Some(Ordering::Equal)
        } else {
            Some(Ordering::Greater)
        }
    }
}

impl vstd::std_specs::cmp::PartialOrdSpecImpl for TreeNode {
    open spec fn obeys_partial_cmp_spec() -> bool {
        true
    }

    open spec fn partial_cmp_spec(&self, other: &Self) -> Option<Ordering> {
        if other.total_size < self.total_size {
            Some(Ordering::Less)
        } else if other.total_size == self.total_size {
            Some(Ordering::Equal)
        } else {
            Some(Ordering::Greater)
        }
    }
}

} // verus!
