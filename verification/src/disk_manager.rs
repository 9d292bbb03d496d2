//! The page store's bookkeeping: which identifiers are taken, and where in
//! the backing file each page lies.
//!
//! The backing file is one flat run of page-sized slots, page `id` at byte
//! `id * PAGE_SIZE`. Reading and writing the file is the caller's part; what
//! is decided here is the layout and the identifiers.

use vstd::prelude::*;
use crate::page::{PageID, PAGE_SIZE};

verus! {

/// Allocates page identifiers for one backing file and places pages in it.
pub struct DiskManager {
    next_page_id: PageID,
    filename: String,
}

/// Byte offset of page `page` in the backing file.
pub open spec fn offset_of(page: PageID) -> int {
    page * PAGE_SIZE
}

impl DiskManager {
    /// The identifier that the next allocation returns. Every identifier
    /// below it has been handed out; none at or above it has.
    pub closed spec fn next_page_id(&self) -> PageID {
        self.next_page_id
    }

    /// Name of the backing file.
    pub closed spec fn filename(&self) -> Seq<char> {
        self.filename@
    }

    /// A store over the file `db_file_name` in which no page is allocated yet.
    pub fn new(db_file_name: &str) -> (dm: Self)
        ensures
            dm.next_page_id() == 0,
            dm.filename() == db_file_name@,
    {
        Self { next_page_id: 0, filename: db_file_name.to_owned() }
    }

    /// Name of the backing file.
    pub fn file_name(&self) -> (name: &str)
        ensures
            name@ == self.filename(),
    {
        self.filename.as_str()
    }

    /// Number of identifiers handed out so far.
    pub fn allocated(&self) -> (n: PageID)
        ensures
            n == self.next_page_id(),
    {
        self.next_page_id
    }

    /// Hands out the next unused identifier. Identifiers rise by one from
    /// zero and are never handed out twice.
    pub fn allocate_page(&mut self) -> (id: PageID)
        requires
            old(self).next_page_id() < usize::MAX,
        ensures
            id == old(self).next_page_id(),
            final(self).next_page_id() == id + 1,
            final(self).filename() == old(self).filename(),
    {
        let id = self.next_page_id;
        self.next_page_id += 1;
        id
    }

    /// Gives an identifier back. Space is not reclaimed: this does nothing.
    pub fn deallocate_page(page: PageID) {
    }

    /// Where page `page` starts in the backing file, or `None` where that
    /// offset cannot be held in a `u64`.
    pub fn page_offset(page: PageID) -> (offset: Option<u64>)
        ensures
            offset_of(page) <= u64::MAX ==> offset == Some(offset_of(page) as u64),
            offset_of(page) > u64::MAX ==> offset is None,
    {
        if page as u128 * PAGE_SIZE as u128 <= u64::MAX as u128 {
            Some((page as u128 * PAGE_SIZE as u128) as u64)
        } else {
            None
        }
    }
}

} // verus!
