//! Nested-loop join. So far only the output page is set up.

use vstd::prelude::*;
use crate::buffer_manager::{BufferManager, NewPage};
use crate::page::Page;

verus! {

/// Starts a join by taking a fresh page of `mm` for the output. The page is
/// handed back pinned, together with the write that the pool may owe the
/// page store for the page that made room for it; `None` where the pool is
/// exhausted.
pub fn join(mm: &mut BufferManager) -> (output_page: Option<NewPage>)
    requires
        old(mm).wf(),
        old(mm).next_page_id() < usize::MAX,
    ensures
        old(mm).allocated(final(mm), output_page),
{
    let output_page = mm.new_page();
    output_page
}

/// Joins the tuples of two pages on one attribute of each into `out`.
/// Tuples are not laid out in pages yet, so no page holds any: `out` is left
/// as it is.
#[allow(dead_code)]
fn join_pages(p1: &Page, p2: &Page, left_attr: usize, right_attr: usize, out: &mut Page)
    ensures
        *final(out) == *old(out),
{
}

/// Joins two tuples. Tuples are not laid out yet: this does nothing.
#[allow(dead_code)]
fn join_tuples() {
}

} // verus!
