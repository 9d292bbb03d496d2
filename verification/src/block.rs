//! Blocks: page-sized buffers as the relational operators see them.

use vstd::prelude::*;

verus! {

/// Number of bytes in every block.
pub const BLOCK_SIZE: usize = 4096;

/// A block-sized buffer with its fill level and pin count.
pub struct Block {
    pub data: [u8; BLOCK_SIZE],
    pub used_space: usize,
    pub pinned: usize,
}

impl Block {
    /// An empty block: zero-filled, nothing used, not pinned.
    pub fn new() -> (b: Block)
        ensures
            b.data@ == Seq::new(BLOCK_SIZE as nat, |i: int| 0u8),
            b.used_space == 0,
            b.pinned == 0,
    {
        return Block { data: [0; BLOCK_SIZE], used_space: 0, pinned: 0 };
    }

    /// Tuples are not laid out in blocks yet: this does nothing.
    pub fn add_tuple() {
    }

    /// Blocks are written out by the buffer pool, not by themselves: this
    /// does nothing, whatever `file` names.
    pub fn write_to_disk(&self, file: &str) {
    }
}

} // verus!
