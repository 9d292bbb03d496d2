//! B-tree index. So far only the shape of its nodes is laid down.

use vstd::prelude::*;

verus! {

/// Largest number of children of a node.
pub const BTREE_ORDER: usize = 64;

/// A node of the tree: its keys in order, and the subtrees between them.
pub struct Node {
    pub keys: Vec<Vec<u8>>,
    pub children: Vec<Node>,
}

} // verus!
