//! Pages: the fixed-size unit that the buffer pool caches.

use vstd::prelude::*;

verus! {

/// Number of bytes in every page.
pub const PAGE_SIZE: usize = 4096;

/// Identifier of a page in the page store.
pub type PageID = usize;

/// A page-sized buffer together with its bookkeeping.
pub struct Page {
    pub id: PageID,
    pub dirty: bool,
    pub used_space: usize,
    pub pin_count: usize,
    pub data: [u8; PAGE_SIZE],
}

/// The contents of a page that holds only zero bytes.
pub open spec fn zeroed_data() -> Seq<u8> {
    Seq::new(PAGE_SIZE as nat, |i: int| 0u8)
}

impl Default for Page {
    /// An unbound frame: identifier 0, clean, unpinned, zero-filled.
    fn default() -> (p: Self)
        ensures
            p.id == 0,
            !p.dirty,
            p.used_space == 0,
            p.pin_count == 0,
            p.data@ == zeroed_data(),
    {
        Self { id: 0, dirty: false, used_space: 0, pin_count: 0, data: [0; PAGE_SIZE] }
    }
}

impl Page {
    /// A fresh page for `id`: zero-filled, clean, and pinned once on behalf of
    /// whoever asked for it.
    pub fn new(id: PageID) -> (p: Self)
        ensures
            p.id == id,
            !p.dirty,
            p.used_space == 0,
            p.pin_count == 1,
            p.data@ == zeroed_data(),
    {
        Self { id, dirty: false, used_space: 0, pin_count: 1, data: [0; PAGE_SIZE] }
    }

    /// Tuples are not laid out in pages yet: this does nothing.
    pub fn add_tuple() {
    }

    /// Pages are written out by the buffer pool, not by themselves: this
    /// does nothing, whatever `file` names.
    pub fn write_to_disk(&self, file: &str) {
    }
}

} // verus!
