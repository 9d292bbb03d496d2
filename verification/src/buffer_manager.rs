//! The buffer pool: a fixed number of frame slots that hold pages of the
//! page store, with pinning, eviction and write-back.
//!
//! The pool decides; the caller moves the bytes. Where a dirty page leaves
//! the pool, the call that made it leave hands it back as a [`WriteBack`],
//! and the caller writes it to the page store. Where a page has to come in
//! from the page store, [`BufferManager::fetch_page`] says so, the caller
//! reads it, and [`BufferManager::load_page`] puts it into a frame.

use std::collections::{HashMap, VecDeque};
use vstd::prelude::*;
use vstd::std_specs::hash::*;
use crate::clock_replacer::ClockReplacer;
use crate::disk_manager::DiskManager;
use crate::page::{zeroed_data, Page, PageID, PAGE_SIZE};
use crate::replacer::{lemma_slots_below, FrameID, Replacer};

verus! {

broadcast use group_hash_axioms;

/// A dirty page that has left its frame, or was flushed: the caller owes the
/// page store a write of `data` at page `page`.
pub struct WriteBack {
    pub page: PageID,
    pub data: [u8; PAGE_SIZE],
}

/// What a fetch found.
pub enum Fetch {
    /// The page is resident in this frame, and has been pinned once more.
    Hit(FrameID),
    /// The page is not resident, and a frame stands free for it. The caller
    /// writes the page it is handed, if any, reads the page that it asked
    /// for, and hands the bytes to `load_page`.
    Miss(Option<WriteBack>),
    /// The page is not resident and every frame is pinned.
    Exhausted,
}

/// A freshly allocated page, pinned in its frame.
pub struct NewPage {
    pub frame: FrameID,
    pub page: PageID,
    pub write_back: Option<WriteBack>,
}

/// Why the pool refused a request.
#[derive(Clone, Copy, PartialEq, Eq, Structural, Debug)]
pub enum BufferError {
    /// The page is not resident, or was never allocated.
    UnknownPage,
    /// The page's pin count is already zero.
    NotPinned,
    /// The page is resident already.
    AlreadyResident,
    /// No frame is free.
    NoFreeFrame,
    /// The bytes would run past the end of the page.
    OutOfRange,
}

/// The write that the page store is owed when `p` leaves its frame.
pub open spec fn write_back_for(p: Page) -> Option<WriteBack> {
    if p.dirty {
        Some(WriteBack { page: p.id, data: p.data })
    } else {
        None
    }
}

/// `p` is the page `id` as it stands right after `data` was put into a
/// frame for it: clean and pinned once.
pub open spec fn just_loaded(p: Page, id: PageID, data: Seq<u8>) -> bool {
    &&& p.id == id
    &&& !p.dirty
    &&& p.used_space == 0
    &&& p.pin_count == 1
    &&& p.data@ == data
}

/// `after` holds the same pages as `before` in every frame but `f`.
pub open spec fn same_but(before: Seq<Page>, after: Seq<Page>, f: FrameID) -> bool {
    &&& after.len() == before.len()
    &&& forall|g: int| 0 <= g < before.len() && g != f ==> #[trigger] after[g] == before[g]
}

/// The page whose identifier frame `f` holds is resident there.
pub open spec fn resident_in(frames: Seq<Page>, table: Map<PageID, FrameID>, f: FrameID) -> bool {
    &&& table.contains_key(frames[f as int].id)
    &&& table[frames[f as int].id] == f
}

/// Frame `f` is free, or it holds a resident page.
pub open spec fn slot_ok(
    frames: Seq<Page>,
    table: Map<PageID, FrameID>,
    free: Seq<FrameID>,
    f: FrameID,
) -> bool {
    free.contains(f) || resident_in(frames, table, f)
}

/// The pool's bookkeeping is sound: every frame is either free or holds
/// exactly one resident page, a page is resident in at most one frame, only
/// allocated pages are resident, and the frames that may be victims are
/// exactly those that are free or hold an unpinned page.
pub open spec fn pool_ok(
    capacity: nat,
    frames: Seq<Page>,
    table: Map<PageID, FrameID>,
    free: Seq<FrameID>,
    next_id: PageID,
    unpinned: Set<FrameID>,
) -> bool {
    &&& frames.len() == capacity
    &&& free.no_duplicates()
    &&& forall|i: int| 0 <= i < free.len() ==> (#[trigger] free[i]) < capacity
    &&& forall|p: PageID| #[trigger]
        table.contains_key(p) ==> {
            &&& table[p] < capacity
            &&& frames[table[p] as int].id == p
            &&& !free.contains(table[p])
            &&& p < next_id
        }
    &&& forall|f: FrameID| f < capacity ==> #[trigger] slot_ok(frames, table, free, f)
    &&& forall|f: FrameID| #[trigger]
        unpinned.contains(f) <==> f < capacity && (free.contains(f) || frames[f as int].pin_count
            == 0)
}

/// Changing the page of one occupied frame without changing which page it
/// is keeps the bookkeeping sound, so long as the frame may be a victim
/// afterwards exactly when its page is unpinned.
proof fn lemma_page_changed(
    capacity: nat,
    before: Seq<Page>,
    after: Seq<Page>,
    table: Map<PageID, FrameID>,
    free: Seq<FrameID>,
    next_id: PageID,
    unpinned_before: Set<FrameID>,
    unpinned_after: Set<FrameID>,
    f: FrameID,
)
    requires
        pool_ok(capacity, before, table, free, next_id, unpinned_before),
        f < capacity,
        !free.contains(f),
        same_but(before, after, f),
        after[f as int].id == before[f as int].id,
        unpinned_after == if after[f as int].pin_count == 0 {
            unpinned_before.insert(f)
        } else {
            unpinned_before.remove(f)
        },
    ensures
        pool_ok(capacity, after, table, free, next_id, unpinned_after),
{
    assert forall|g: FrameID| g < capacity implies #[trigger] slot_ok(after, table, free, g) by {
        assert(slot_ok(before, table, free, g));
    }
    assert forall|g: FrameID| #[trigger]
        unpinned_after.contains(g) <==> g < capacity && (free.contains(g) || after[g as int].pin_count
            == 0) by {
        assert(unpinned_before.contains(g) <==> g < capacity && (free.contains(g)
            || before[g as int].pin_count == 0));
    }
}

/// The Buffer Manager keeps pages in memory and keeps track of which are
/// pinned. All other parts of the engine get their page buffers from here.
pub struct BufferManager<R = ClockReplacer> where R: Replacer {
    max_pages: usize,
    pages: Vec<Page>,
    page_table: HashMap<PageID, FrameID>,
    free_list: VecDeque<FrameID>,
    replacer: R,
    disk_manager: DiskManager,
}

impl<R: Replacer> BufferManager<R> {
    /// Number of frame slots.
    pub closed spec fn capacity(&self) -> nat {
        self.max_pages as nat
    }

    /// What each frame slot holds. A free slot holds what was last in it.
    pub closed spec fn frames(&self) -> Seq<Page> {
        self.pages@
    }

    /// The frame of each resident page.
    pub closed spec fn page_table(&self) -> Map<PageID, FrameID> {
        self.page_table@
    }

    /// The free frame slots, the one that is handed out next first.
    pub closed spec fn free_list(&self) -> Seq<FrameID> {
        self.free_list@
    }

    /// The replacement policy's state.
    pub closed spec fn replacer(&self) -> R {
        self.replacer
    }

    /// The identifier that the next new page gets.
    pub closed spec fn next_page_id(&self) -> PageID {
        self.disk_manager.next_page_id()
    }

    /// The page whose identifier frame `f` holds is resident there.
    pub open spec fn resident_in(&self, f: FrameID) -> bool {
        resident_in(self.frames(), self.page_table(), f)
    }

    /// The pool's invariant: that of its replacement policy, and sound
    /// bookkeeping.
    pub open spec fn wf(&self) -> bool {
        &&& self.replacer().wf()
        &&& self.replacer().capacity() == self.capacity()
        &&& pool_ok(
            self.capacity(),
            self.frames(),
            self.page_table(),
            self.free_list(),
            self.next_page_id(),
            self.replacer().unpinned(),
        )
    }

    /// The frame whose page must leave before another page can come in:
    /// none while a frame is free.
    pub open spec fn victim(&self) -> Option<FrameID> {
        if self.free_list().len() > 0 {
            None
        } else {
            self.replacer().next_victim()
        }
    }

    /// Whether another page can come in: a frame is free, or some resident
    /// page is unpinned.
    pub open spec fn has_room(&self) -> bool {
        self.free_list().len() > 0 || self.replacer().next_victim() is Some
    }

    /// The frames once room has been made: the victim's page is clean.
    pub open spec fn room_frames(&self) -> Seq<Page> {
        match self.victim() {
            Some(v) => self.frames().update(
                v as int,
                Page { dirty: false, ..self.frames()[v as int] },
            ),
            None => self.frames(),
        }
    }

    /// The resident pages once room has been made: the victim's page is gone.
    pub open spec fn room_table(&self) -> Map<PageID, FrameID> {
        match self.victim() {
            Some(v) => self.page_table().remove(self.frames()[v as int].id),
            None => self.page_table(),
        }
    }

    /// The free frames once room has been made: the victim's frame is free.
    pub open spec fn room_free(&self) -> Seq<FrameID> {
        match self.victim() {
            Some(v) => seq![v],
            None => self.free_list(),
        }
    }

    /// The write that making room asks of the caller.
    pub open spec fn room_write_back(&self) -> Option<WriteBack> {
        match self.victim() {
            Some(v) => write_back_for(self.frames()[v as int]),
            None => None,
        }
    }

    /// `post` is this pool after room has been made in it: where no frame
    /// was free and a victim existed, the victim's page is out and its frame
    /// free; otherwise nothing has changed.
    pub open spec fn with_room(&self, post: &Self) -> bool {
        &&& post.wf()
        &&& post.capacity() == self.capacity()
        &&& post.next_page_id() == self.next_page_id()
        &&& post.store_name() == self.store_name()
        &&& post.replacer().unpinned() == self.replacer().unpinned()
        &&& self.asked_for_room(post.replacer())
        &&& post.frames() == self.room_frames()
        &&& post.page_table() == self.room_table()
        &&& post.free_list() == self.room_free()
    }

    /// `after` is the replacement policy once room has been made: it was
    /// asked for a victim where no frame was free, and not touched
    /// otherwise.
    pub open spec fn asked_for_room(&self, after: R) -> bool {
        if self.free_list().len() > 0 {
            after == self.replacer()
        } else {
            self.replacer().after_pick(&after)
        }
    }

    /// What `fetch_page` does: a resident page is pinned once more; for any
    /// other page room is made.
    pub open spec fn fetched(&self, page: PageID, post: &Self, r: Fetch) -> bool {
        if self.page_table().contains_key(page) {
            let f = self.page_table()[page];
            &&& post.wf()
            &&& r == Fetch::Hit(f)
            &&& post.capacity() == self.capacity()
            &&& post.next_page_id() == self.next_page_id()
            &&& post.page_table() == self.page_table()
            &&& post.free_list() == self.free_list()
            &&& post.frames() == self.frames().update(
                f as int,
                Page {
                    pin_count: (self.frames()[f as int].pin_count + 1) as usize,
                    ..self.frames()[f as int]
                },
            )
            &&& post.replacer().unpinned() == self.replacer().unpinned().remove(f)
            &&& self.replacer().after_pin(f, &post.replacer())
            &&& post.store_name() == self.store_name()
        } else {
            &&& self.with_room(post)
            &&& r == if self.has_room() {
                Fetch::Miss(self.room_write_back())
            } else {
                Fetch::Exhausted
            }
        }
    }

    /// Whether `load_page` takes the page: it was allocated, is not resident,
    /// and a frame is free.
    pub open spec fn load_error(&self, page: PageID) -> Option<BufferError> {
        if page >= self.next_page_id() {
            Some(BufferError::UnknownPage)
        } else if self.page_table().contains_key(page) {
            Some(BufferError::AlreadyResident)
        } else if self.free_list().len() == 0 {
            Some(BufferError::NoFreeFrame)
        } else {
            None
        }
    }

    /// Whether `write_data` takes the bytes: the page is resident and pinned,
    /// and the bytes fit.
    pub open spec fn write_error(&self, page: PageID, offset: usize, len: nat) -> Option<BufferError> {
        if !self.page_table().contains_key(page) {
            Some(BufferError::UnknownPage)
        } else if self.frames()[self.page_table()[page] as int].pin_count == 0 {
            Some(BufferError::NotPinned)
        } else if offset + len > PAGE_SIZE {
            Some(BufferError::OutOfRange)
        } else {
            None
        }
    }

    /// What `new_page` does.
    pub open spec fn allocated(&self, post: &Self, r: Option<NewPage>) -> bool {
        &&& post.wf()
        &&& post.capacity() == self.capacity()
        &&& post.page_table() == if self.has_room() {
            self.room_table().insert(self.next_page_id(), self.room_free()[0])
        } else {
            self.page_table()
        }
        &&& post.free_list() == if self.has_room() {
            self.room_free().drop_first()
        } else {
            self.free_list()
        }
        &&& post.replacer().unpinned() == if self.has_room() {
            self.replacer().unpinned().remove(self.room_free()[0])
        } else {
            self.replacer().unpinned()
        }
        &&& if self.has_room() {
            exists|mid: R|
                self.asked_for_room(mid) && #[trigger] mid.after_pin(
                    self.room_free()[0],
                    &post.replacer(),
                )
        } else {
            self.asked_for_room(post.replacer())
        }
        &&& post.store_name() == self.store_name()
        &&& post.next_page_id() == if self.has_room() {
            self.next_page_id() + 1
        } else {
            self.next_page_id() as int
        }
        &&& if self.has_room() {
            &&& same_but(self.room_frames(), post.frames(), self.room_free()[0])
            &&& just_loaded(
                post.frames()[self.room_free()[0] as int],
                self.next_page_id(),
                zeroed_data(),
            )
        } else {
            post.frames() == self.frames()
        }
        &&& r == if self.has_room() {
            Some(
                NewPage {
                    frame: self.room_free()[0],
                    page: self.next_page_id(),
                    write_back: self.room_write_back(),
                },
            )
        } else {
            None
        }
    }

    /// A pool of `capacity` frames, all free, over a page store in which no
    /// page is allocated.
    pub fn new(capacity: usize) -> (bm: BufferManager<R>)
        ensures
            bm.wf(),
            bm.capacity() == capacity,
            bm.page_table() == Map::<PageID, FrameID>::empty(),
            bm.free_list() == Seq::new(capacity as nat, |i: int| i as FrameID),
            bm.next_page_id() == 0,
            bm.store_name() == "xxxx.tmp"@,
            bm.replacer().unpinned() == Set::new(|f: FrameID| f < capacity),
            bm.replacer().fresh(capacity),
    {
        let mut pages: Vec<Page> = Vec::with_capacity(capacity);
        let mut free_list: VecDeque<FrameID> = VecDeque::with_capacity(capacity);
        let mut i: usize = 0;
        while i < capacity
            invariant
                i <= capacity,
                pages.len() == i,
                free_list@ == Seq::new(i as nat, |j: int| j as FrameID),
            decreases capacity - i,
        {
            pages.push(Page::default());
            free_list.push_back(i);
            i += 1;
            assert(free_list@ =~= Seq::new(i as nat, |j: int| j as FrameID));
        }
        let bm = BufferManager {
            max_pages: capacity,
            pages,
            page_table: HashMap::with_capacity(capacity),
            free_list,
            replacer: R::new(capacity),
            disk_manager: DiskManager::new("xxxx.tmp"),
        };
        proof {
            assert forall|f: FrameID| f < capacity implies bm.free_list().contains(f) by {
                assert(bm.free_list()[f as int] == f);
            }
        }
        bm
    }

    /// Name of the backing file of the page store.
    pub closed spec fn store_name(&self) -> Seq<char> {
        self.disk_manager.filename()
    }

    /// Name of the backing file of the page store.
    pub fn file_name(&self) -> (name: &str)
        ensures
            name@ == self.store_name(),
    {
        self.disk_manager.file_name()
    }

    /// Number of pages allocated so far, which is the identifier that the
    /// next new page gets.
    pub fn pages_allocated(&self) -> (n: PageID)
        ensures
            n == self.next_page_id(),
    {
        self.disk_manager.allocated()
    }

    /// The frame in which the page `page` is resident, if it is.
    pub fn frame_of(&self, page: PageID) -> (r: Option<FrameID>)
        ensures
            r == if self.page_table().contains_key(page) {
                Some(self.page_table()[page])
            } else {
                None
            },
    {
        match self.page_table.get(&page) {
            Some(f) => Some(*f),
            None => None,
        }
    }

    /// Number of frames currently free, that is, holding no resident page.
    pub fn pages_free(&self) -> (n: usize)
        ensures
            n == self.free_list().len(),
    {
        self.free_list.len()
    }

    /// Every frame is in exactly one of two states: it is on the free list,
    /// or it holds a resident page. And a page is resident in exactly the
    /// frame that the page table names for it.
    pub proof fn lemma_free_or_resident(&self, f: FrameID)
        requires
            self.wf(),
            f < self.capacity(),
        ensures
            self.free_list().contains(f) != self.resident_in(f),
            forall|p: PageID|
                self.page_table().contains_key(p) && self.page_table()[p] == f ==> p
                    == self.frames()[f as int].id,
    {
        assert(slot_ok(self.frames(), self.page_table(), self.free_list(), f));
    }

    /// Only an unpinned page is ever put out: the frame that must give up
    /// its page holds a resident page whose pin count is zero. Room can be
    /// made exactly when a frame is free or some resident page is unpinned.
    pub proof fn lemma_victim_resident(&self)
        requires
            self.wf(),
        ensures
            self.victim() matches Some(v) ==> {
                &&& v < self.capacity()
                &&& self.resident_in(v)
                &&& self.frames()[v as int].pin_count == 0
            },
            self.has_room() <==> self.replacer().unpinned().len() > 0,
            self.has_room() <==> self.free_list().len() > 0 || exists|f: FrameID|
                f < self.capacity() && self.resident_in(f) && (#[trigger] self.frames()[f as int]).pin_count
                    == 0,
    {
        if !self.has_room() && exists|f: FrameID|
            f < self.capacity() && self.resident_in(f) && (#[trigger] self.frames()[f as int]).pin_count
                == 0 {
            let f = choose|f: FrameID|
                f < self.capacity() && self.resident_in(f) && (#[trigger] self.frames()[f as int]).pin_count
                    == 0;
            self.replacer().lemma_victim_is_unpinned();
            assert(self.replacer().unpinned().contains(f));
        }
        self.replacer().lemma_victim_is_unpinned();
        if let Some(v) = self.victim() {
            assert(self.replacer().unpinned().contains(v));
            assert(slot_ok(self.frames(), self.page_table(), self.free_list(), v));
            assert(!self.free_list().contains(v));
        }
        if self.free_list().len() > 0 {
            let f = self.free_list()[0];
            assert(self.free_list().contains(f));
            assert(self.replacer().unpinned().contains(f));
        }
    }

    /// Finds the frame that the next page goes into: the first of the free
    /// list, after an unpinned page has been put out where no frame is free.
    /// The frame stays on the free list. `None` where every frame is pinned.
    fn find_free_page(&mut self) -> (r: Option<(FrameID, Option<WriteBack>)>)
        requires
            old(self).wf(),
        ensures
            old(self).with_room(final(self)),
            r == if old(self).has_room() {
                Some((old(self).room_free()[0], old(self).room_write_back()))
            } else {
                None
            },
    {
        proof {
            self.lemma_victim_resident();
        }
        if self.free_list.len() > 0 {
            proof {
                assert(self.free_list@.contains(self.free_list@[0]));
            }
            return Some((self.free_list[0], None));
        }
        match self.replacer.pick_victim() {
            None => None,
            Some(frame) => {
                let id = self.pages[frame].id;
                let wb = if self.pages[frame].dirty {
                    Some(WriteBack { page: id, data: self.pages[frame].data })
                } else {
                    None
                };
                self.pages[frame].dirty = false;
                self.page_table.remove(&id);
                self.free_list.push_back(frame);
                proof {
                    let pre = old(self);
                    let frames = self.frames();
                    let table = self.page_table();
                    let free = self.free_list();
                    assert(frames =~= pre.room_frames());
                    assert(free =~= seq![frame]);
                    assert(free[0] == frame);
                    assert forall|p: PageID| #[trigger] table.contains_key(p) implies {
                        &&& table[p] < self.capacity()
                        &&& frames[table[p] as int].id == p
                        &&& !free.contains(table[p])
                        &&& p < self.next_page_id()
                    } by {
                        assert(pre.page_table().contains_key(p));
                        assert(pre.page_table()[p] != frame);
                    }
                    assert forall|f: FrameID| f < self.capacity() implies #[trigger] slot_ok(
                        frames,
                        table,
                        free,
                        f,
                    ) by {
                        assert(slot_ok(pre.frames(), pre.page_table(), pre.free_list(), f));
                        if f != frame {
                            assert(pre.frames()[f as int].id != id);
                        }
                    }
                }
                Some((frame, wb))
            },
        }
    }

    /// Allocates a new, zero-filled page and pins it in a frame. `None`
    /// where every frame is pinned.
    pub fn new_page(&mut self) -> (r: Option<NewPage>)
        requires
            old(self).wf(),
            old(self).next_page_id() < usize::MAX,
        ensures
            old(self).allocated(final(self), r),
            r is Some ==> final(self).free_list().len() == old(self).free_list().len() + (
            if old(self).victim() is Some {
                1int
            } else {
                0int
            }) - 1,
            r is None ==> final(self).free_list().len() == old(self).free_list().len(),
    {
        match self.find_free_page() {
            None => None,
            Some((frame, write_back)) => {
                let ghost mid = *self;
                proof {
                    assert(mid.free_list().contains(frame));
                }
                self.free_list.pop_front();
                let id = self.disk_manager.allocate_page();
                self.pages[frame] = Page::new(id);
                self.page_table.insert(id, frame);
                self.replacer.pin(frame);
                proof {
                    self.lemma_installed(mid, frame, id);
                    assert(mid.replacer().after_pin(frame, &self.replacer()));
                }
                Some(NewPage { frame, page: id, write_back })
            },
        }
    }

    /// Fetches the page `page`. Where it is resident it is pinned once more
    /// and its frame returned. Where it is not, room is made for it and the
    /// caller is told to bring it in; where that cannot be done because every
    /// frame is pinned, the caller is told so.
    pub fn fetch_page(&mut self, page: PageID) -> (r: Fetch)
        requires
            old(self).wf(),
            old(self).page_table().contains_key(page) ==> old(self).frames()[old(
                self,
            ).page_table()[page] as int].pin_count < usize::MAX,
        ensures
            old(self).fetched(page, final(self), r),
            final(self).free_list().len() == old(self).free_list().len() + (if !old(
                self,
            ).page_table().contains_key(page) && old(self).victim() is Some {
                1int
            } else {
                0int
            }),
    {
        let found = match self.page_table.get(&page) {
            Some(f) => Some(*f),
            None => None,
        };
        match found {
            Some(frame) => {
                self.pages[frame].pin_count += 1;
                self.replacer.pin(frame);
                proof {
                    let pre = old(self);
                    assert(self.frames() =~= pre.frames().update(
                        frame as int,
                        Page {
                            pin_count: (pre.frames()[frame as int].pin_count + 1) as usize,
                            ..pre.frames()[frame as int]
                        },
                    ));
                    lemma_page_changed(
                        pre.capacity(),
                        pre.frames(),
                        self.frames(),
                        pre.page_table(),
                        pre.free_list(),
                        pre.next_page_id(),
                        pre.replacer().unpinned(),
                        self.replacer().unpinned(),
                        frame,
                    );
                }
                Fetch::Hit(frame)
            },
            None => match self.find_free_page() {
                None => Fetch::Exhausted,
                Some((_, write_back)) => Fetch::Miss(write_back),
            },
        }
    }

    /// Puts the bytes `data` of the page `page`, as they were read from the
    /// page store, into the first free frame, and pins the page there.
    pub fn load_page(&mut self, page: PageID, data: [u8; PAGE_SIZE]) -> (r: Result<
        FrameID,
        BufferError,
    >)
        requires
            old(self).wf(),
        ensures
            final(self).wf(),
            r is Ok ==> final(self).free_list().len() == old(self).free_list().len() - 1,
            match old(self).load_error(page) {
                Some(e) => r == Err::<FrameID, BufferError>(e) && *final(self) == *old(self),
                None => {
                    &&& r == Ok::<FrameID, BufferError>(old(self).free_list()[0])
                    &&& final(self).capacity() == old(self).capacity()
                    &&& final(self).next_page_id() == old(self).next_page_id()
                    &&& final(self).free_list() == old(self).free_list().drop_first()
                    &&& final(self).page_table() == old(self).page_table().insert(
                        page,
                        old(self).free_list()[0],
                    )
                    &&& same_but(old(self).frames(), final(self).frames(), old(self).free_list()[0])
                    &&& just_loaded(
                        final(self).frames()[old(self).free_list()[0] as int],
                        page,
                        data@,
                    )
                    &&& final(self).replacer().unpinned() == old(self).replacer().unpinned().remove(
                        old(self).free_list()[0],
                    )
                    &&& old(self).replacer().after_pin(
                        old(self).free_list()[0],
                        &final(self).replacer(),
                    )
                    &&& final(self).store_name() == old(self).store_name()
                },
            },
    {
        if page >= self.disk_manager.allocated() {
            return Err(BufferError::UnknownPage);
        }
        if self.page_table.contains_key(&page) {
            return Err(BufferError::AlreadyResident);
        }
        if self.free_list.len() == 0 {
            return Err(BufferError::NoFreeFrame);
        }
        let ghost mid = *self;
        let frame = self.free_list[0];
        proof {
            assert(mid.free_list().contains(frame));
        }
        self.free_list.pop_front();
        self.pages[frame] = Page { id: page, dirty: false, used_space: 0, pin_count: 1, data };
        self.page_table.insert(page, frame);
        self.replacer.pin(frame);
        proof {
            self.lemma_installed(mid, frame, page);
        }
        Ok(frame)
    }

    /// Releases one pin of the page `page`, and marks the page dirty where
    /// `is_dirty` says that it was changed. A page whose last pin goes may be
    /// chosen as a victim from then on. Refused, with nothing changed, where
    /// the page is not resident or not pinned.
    pub fn unpin_page(&mut self, page: PageID, is_dirty: bool) -> (r: Result<(), BufferError>)
        requires
            old(self).wf(),
        ensures
            final(self).wf(),
            !old(self).page_table().contains_key(page) ==> r == Err::<(), BufferError>(
                BufferError::UnknownPage,
            ),
            old(self).page_table().contains_key(page) && old(self).frames()[old(
                self,
            ).page_table()[page] as int].pin_count == 0 ==> r == Err::<(), BufferError>(
                BufferError::NotPinned,
            ),
            r is Err ==> *final(self) == *old(self),
            old(self).page_table().contains_key(page) && old(self).frames()[old(
                self,
            ).page_table()[page] as int].pin_count > 0 ==> {
                let f = old(self).page_table()[page];
                let before = old(self).frames()[f as int];
                &&& r is Ok
                &&& final(self).capacity() == old(self).capacity()
                &&& final(self).next_page_id() == old(self).next_page_id()
                &&& final(self).page_table() == old(self).page_table()
                &&& final(self).free_list() == old(self).free_list()
                &&& final(self).frames() == old(self).frames().update(
                    f as int,
                    Page {
                        pin_count: (before.pin_count - 1) as usize,
                        dirty: before.dirty || is_dirty,
                        ..before
                    },
                )
                &&& final(self).replacer().unpinned() == if before.pin_count == 1 {
                    old(self).replacer().unpinned().insert(f)
                } else {
                    old(self).replacer().unpinned()
                }
                &&& if before.pin_count == 1 {
                    old(self).replacer().after_unpin(f, &final(self).replacer())
                } else {
                    final(self).replacer() == old(self).replacer()
                }
                &&& final(self).store_name() == old(self).store_name()
            },
    {
        let found = match self.page_table.get(&page) {
            Some(f) => Some(*f),
            None => None,
        };
        match found {
            None => Err(BufferError::UnknownPage),
            Some(frame) => {
                if self.pages[frame].pin_count == 0 {
                    return Err(BufferError::NotPinned);
                }
                if is_dirty {
                    self.pages[frame].dirty = true;
                }
                self.pages[frame].pin_count -= 1;
                if self.pages[frame].pin_count == 0 {
                    self.replacer.unpin(frame);
                }
                proof {
                    let pre = old(self);
                    let before = pre.frames()[frame as int];
                    assert(self.frames() =~= pre.frames().update(
                        frame as int,
                        Page {
                            pin_count: (before.pin_count - 1) as usize,
                            dirty: before.dirty || is_dirty,
                            ..before
                        },
                    ));
                    if before.pin_count != 1 {
                        assert(!pre.replacer().unpinned().contains(frame));
                        assert(pre.replacer().unpinned() =~= pre.replacer().unpinned().remove(frame));
                    }
                    lemma_page_changed(
                        pre.capacity(),
                        pre.frames(),
                        self.frames(),
                        pre.page_table(),
                        pre.free_list(),
                        pre.next_page_id(),
                        pre.replacer().unpinned(),
                        self.replacer().unpinned(),
                        frame,
                    );
                }
                Ok(())
            },
        }
    }

    /// Flushes the page `page`: where it is dirty, the caller is handed its
    /// bytes to write to the page store, and the page is clean from then on.
    /// An unpinned page leaves the pool with this and its frame becomes
    /// free; a pinned page stays where it is. Refused where the page is not
    /// resident.
    pub fn flush_page(&mut self, page: PageID) -> (r: Result<Option<WriteBack>, BufferError>)
        requires
            old(self).wf(),
        ensures
            final(self).wf(),
            !old(self).page_table().contains_key(page) ==> r == Err::<
                Option<WriteBack>,
                BufferError,
            >(BufferError::UnknownPage) && *final(self) == *old(self),
            final(self).free_list().len() == old(self).free_list().len() + (if old(
                self,
            ).page_table().contains_key(page) && old(self).frames()[old(
                self,
            ).page_table()[page] as int].pin_count == 0 {
                1int
            } else {
                0int
            }),
            old(self).page_table().contains_key(page) ==> {
                let f = old(self).page_table()[page];
                let before = old(self).frames()[f as int];
                &&& r == Ok::<Option<WriteBack>, BufferError>(write_back_for(before))
                &&& final(self).capacity() == old(self).capacity()
                &&& final(self).next_page_id() == old(self).next_page_id()
                &&& final(self).replacer() == old(self).replacer()
                &&& final(self).store_name() == old(self).store_name()
                &&& final(self).frames() == old(self).frames().update(
                    f as int,
                    Page { dirty: false, ..before },
                )
                &&& final(self).page_table() == if before.pin_count == 0 {
                    old(self).page_table().remove(page)
                } else {
                    old(self).page_table()
                }
                &&& final(self).free_list() == if before.pin_count == 0 {
                    old(self).free_list().push(f)
                } else {
                    old(self).free_list()
                }
            },
    {
        let found = match self.page_table.get(&page) {
            Some(f) => Some(*f),
            None => None,
        };
        match found {
            None => Err(BufferError::UnknownPage),
            Some(frame) => {
                let wb = if self.pages[frame].dirty {
                    Some(WriteBack { page, data: self.pages[frame].data })
                } else {
                    None
                };
                self.pages[frame].dirty = false;
                if self.pages[frame].pin_count == 0 {
                    self.page_table.remove(&page);
                    self.free_list.push_back(frame);
                }
                proof {
                    let pre = old(self);
                    let before = pre.frames()[frame as int];
                    let frames = self.frames();
                    let table = self.page_table();
                    let free = self.free_list();
                    assert(frames =~= pre.frames().update(
                        frame as int,
                        Page { dirty: false, ..before },
                    ));
                    if before.pin_count == 0 {
                        assert(free[free.len() - 1] == frame);
                        assert forall|g: FrameID| free.contains(g) <==> (pre.free_list().contains(g)
                            || g == frame) by {
                            if free.contains(g) {
                                let i = choose|i: int| 0 <= i < free.len() && free[i] == g;
                                if i < pre.free_list().len() {
                                    assert(pre.free_list()[i] == g);
                                }
                            }
                            if pre.free_list().contains(g) {
                                let i = choose|i: int|
                                    0 <= i < pre.free_list().len() && pre.free_list()[i] == g;
                                assert(free[i] == g);
                            }
                        }
                        assert forall|i: int, j: int|
                            0 <= i < free.len() && 0 <= j < free.len() && i != j implies free[i]
                            != free[j] by {
                            if i < pre.free_list().len() {
                                assert(pre.free_list().contains(free[i]));
                            }
                            if j < pre.free_list().len() {
                                assert(pre.free_list().contains(free[j]));
                            }
                        }
                    }
                    assert forall|p: PageID| #[trigger] table.contains_key(p) implies {
                        &&& table[p] < self.capacity()
                        &&& frames[table[p] as int].id == p
                        &&& !free.contains(table[p])
                        &&& p < self.next_page_id()
                    } by {
                        assert(pre.page_table().contains_key(p));
                        if before.pin_count == 0 {
                            assert(pre.page_table()[p] != frame);
                        }
                    }
                    assert forall|f: FrameID| f < self.capacity() implies #[trigger] slot_ok(
                        frames,
                        table,
                        free,
                        f,
                    ) by {
                        assert(slot_ok(pre.frames(), pre.page_table(), pre.free_list(), f));
                        if f != frame && before.pin_count == 0 {
                            if !pre.free_list().contains(f) {
                                assert(pre.frames()[f as int].id != page);
                            }
                        }
                    }
                    assert forall|f: FrameID| #[trigger]
                        self.replacer().unpinned().contains(f) <==> f < self.capacity() && (
                        free.contains(f) || frames[f as int].pin_count == 0) by {
                        assert(pre.replacer().unpinned().contains(f) <==> f < pre.capacity() && (
                        pre.free_list().contains(f) || pre.frames()[f as int].pin_count == 0));
                    }
                }
                Ok(wb)
            },
        }
    }

    /// Deleting pages is not offered: the page stays as it is.
    pub fn delete_page(&mut self, page: PageID)
        requires
            old(self).page_table().contains_key(page),
        ensures
            *final(self) == *old(self),
    {
    }

    /// The page that frame `frame` holds, where it holds a resident one.
    pub fn page(&self, frame: FrameID) -> (r: Option<&Page>)
        requires
            self.wf(),
        ensures
            r == if frame < self.capacity() && self.resident_in(frame) {
                Some(&self.frames()[frame as int])
            } else {
                None
            },
    {
        if frame >= self.pages.len() {
            return None;
        }
        let found = match self.page_table.get(&self.pages[frame].id) {
            Some(f) => Some(*f),
            None => None,
        };
        if found == Some(frame) {
            Some(&self.pages[frame])
        } else {
            None
        }
    }

    /// Writes `bytes` into the resident, pinned page `page`, starting at byte
    /// `offset`. The page is not marked dirty by this: its holder says so
    /// when it unpins the page.
    pub fn write_data(&mut self, page: PageID, offset: usize, bytes: &[u8]) -> (r: Result<
        (),
        BufferError,
    >)
        requires
            old(self).wf(),
        ensures
            final(self).wf(),
            match old(self).write_error(page, offset, bytes@.len()) {
                Some(e) => r == Err::<(), BufferError>(e) && *final(self) == *old(self),
                None => {
                    let f = old(self).page_table()[page];
                    let before = old(self).frames()[f as int];
                    let after = final(self).frames()[f as int];
                    &&& r is Ok
                    &&& final(self).capacity() == old(self).capacity()
                    &&& final(self).next_page_id() == old(self).next_page_id()
                    &&& final(self).page_table() == old(self).page_table()
                    &&& final(self).free_list() == old(self).free_list()
                    &&& final(self).replacer() == old(self).replacer()
                    &&& final(self).store_name() == old(self).store_name()
                    &&& same_but(old(self).frames(), final(self).frames(), f)
                    &&& after.id == before.id
                    &&& after.dirty == before.dirty
                    &&& after.used_space == before.used_space
                    &&& after.pin_count == before.pin_count
                    &&& after.data@ == before.data@.subrange(0, offset as int) + bytes@
                        + before.data@.subrange(offset + bytes@.len(), PAGE_SIZE as int)
                },
            },
    {
        let found = match self.page_table.get(&page) {
            Some(f) => Some(*f),
            None => None,
        };
        match found {
            None => Err(BufferError::UnknownPage),
            Some(frame) => {
                if self.pages[frame].pin_count == 0 {
                    return Err(BufferError::NotPinned);
                }
                if bytes.len() > PAGE_SIZE || offset > PAGE_SIZE - bytes.len() {
                    return Err(BufferError::OutOfRange);
                }
                let ghost before = self.pages@[frame as int];
                let mut i: usize = 0;
                while i < bytes.len()
                    invariant
                        i <= bytes.len(),
                        offset + bytes.len() <= PAGE_SIZE,
                        frame < self.pages.len(),
                        self.max_pages == old(self).max_pages,
                        self.page_table == old(self).page_table,
                        self.free_list == old(self).free_list,
                        self.replacer == old(self).replacer,
                        self.disk_manager == old(self).disk_manager,
                        same_but(old(self).pages@, self.pages@, frame),
                        self.pages[frame as int].id == before.id,
                        self.pages[frame as int].dirty == before.dirty,
                        self.pages[frame as int].used_space == before.used_space,
                        self.pages[frame as int].pin_count == before.pin_count,
                        self.pages[frame as int].data@ == before.data@.subrange(0, offset as int)
                            + bytes@.subrange(0, i as int) + before.data@.subrange(
                            offset + i,
                            PAGE_SIZE as int,
                        ),
                    decreases bytes.len() - i,
                {
                    let ghost prev = self.pages[frame as int].data@;
                    self.pages[frame].data[offset + i] = bytes[i];
                    i += 1;
                    proof {
                        assert(self.pages[frame as int].data@ =~= before.data@.subrange(
                            0,
                            offset as int,
                        ) + bytes@.subrange(0, i as int) + before.data@.subrange(
                            offset + i,
                            PAGE_SIZE as int,
                        ));
                    }
                }
                proof {
                    let pre = old(self);
                    assert(bytes@.subrange(0, i as int) =~= bytes@);
                    assert(!pre.replacer().unpinned().contains(frame));
                    assert(pre.replacer().unpinned() =~= pre.replacer().unpinned().remove(frame));
                    lemma_page_changed(
                        pre.capacity(),
                        pre.frames(),
                        self.frames(),
                        pre.page_table(),
                        pre.free_list(),
                        pre.next_page_id(),
                        pre.replacer().unpinned(),
                        self.replacer().unpinned(),
                        frame,
                    );
                }
                Ok(())
            },
        }
    }

    /// Number of bytes in the free frames, or `None` where that number is
    /// too large for a `usize`.
    pub fn bytes_free(&self) -> (n: Option<usize>)
        ensures
            n == if self.free_list().len() * PAGE_SIZE <= usize::MAX {
                Some((self.free_list().len() * PAGE_SIZE) as usize)
            } else {
                None
            },
    {
        self.free_list.len().checked_mul(PAGE_SIZE)
    }

    /// Every frame that is not free holds a page that is pinned exactly once,
    /// and `used` frames are not free.
    pub open spec fn all_pinned_once(&self, used: nat) -> bool {
        &&& self.wf()
        &&& self.free_list().len() + used == self.capacity()
        &&& forall|f: FrameID|
            f < self.capacity() && !self.free_list().contains(f) ==> self.resident_in(f) && (
            #[trigger] self.frames()[f as int]).pin_count == 1
    }

    /// One allocation in a pool whose resident pages are all pinned once:
    /// it succeeds while a frame is free and takes that frame, and it is
    /// refused, with nothing changed, once none is.
    proof fn lemma_allocate_step(pre: Self, post: Self, r: Option<NewPage>, used: nat)
        requires
            pre.all_pinned_once(used),
            pre.allocated(&post, r),
        ensures
            used < pre.capacity() ==> r is Some && post.all_pinned_once(used + 1),
            used == pre.capacity() ==> r is None && post.all_pinned_once(used),
    {
        pre.replacer().lemma_victim_is_unpinned();
        let free = pre.free_list();
        if free.len() > 0 {
            let f0 = free[0];
            assert(free.contains(f0));
            assert(pre.victim() is None);
            assert(post.free_list() == free.drop_first());
            assert forall|g: FrameID| post.free_list().contains(g) <==> (free.contains(g) && g
                != f0) by {
                if post.free_list().contains(g) {
                    let i = choose|i: int|
                        0 <= i < post.free_list().len() && post.free_list()[i] == g;
                    assert(free[i + 1] == g);
                }
                if free.contains(g) && g != f0 {
                    let i = choose|i: int| 0 <= i < free.len() && free[i] == g;
                    assert(post.free_list()[i - 1] == g);
                }
            }
            assert forall|f: FrameID|
                f < post.capacity() && !post.free_list().contains(f) implies post.resident_in(f) && (
            #[trigger] post.frames()[f as int]).pin_count == 1 by {
                assert(slot_ok(post.frames(), post.page_table(), post.free_list(), f));
                if f != f0 {
                    assert(post.frames()[f as int] == pre.frames()[f as int]);
                }
            }
        } else {
            assert(pre.replacer().unpinned() =~= Set::<FrameID>::empty()) by {
                assert forall|f: FrameID| !pre.replacer().unpinned().contains(f) by {
                    if f < pre.capacity() {
                        assert(pre.frames()[f as int].pin_count == 1);
                    }
                }
            }
            assert(pre.replacer().next_victim() is None);
            assert(!pre.has_room());
        }
    }

    /// Allocating into an empty pool over and over: the first `capacity`
    /// allocations succeed, each taking one free frame, and the one after
    /// them is refused while every page is still resident and pinned.
    ///
    /// `states` are the pool before the first allocation, between the
    /// allocations and after the last, and `results` what each returned.
    pub proof fn lemma_fills_then_refuses(states: Seq<Self>, results: Seq<Option<NewPage>>)
        requires
            results.len() == states[0].capacity() + 1,
            states.len() == results.len() + 1,
            states[0].wf(),
            states[0].page_table() == Map::<PageID, FrameID>::empty(),
            forall|i: int|
                0 <= i < results.len() ==> states[i].allocated(
                    &states[i + 1],
                    #[trigger] results[i],
                ),
        ensures
            forall|i: int|
                0 <= i < states[0].capacity() ==> (#[trigger] results[i]) is Some
                    && states[i + 1].free_list().len() == states[0].capacity() - i - 1,
            results[states[0].capacity() as int] is None,
            states[states.len() - 1].all_pinned_once(states[0].capacity()),
    {
        let c = states[0].capacity();
        let first = states[0];
        assert(first.all_pinned_once(0)) by {
            assert forall|f: FrameID| f < c implies first.free_list().contains(f) by {
                assert(slot_ok(first.frames(), first.page_table(), first.free_list(), f));
            }
            lemma_slots_below(c);
            first.free_list().unique_seq_to_set();
            assert(first.free_list().to_set() =~= Set::new(|f: FrameID| f < c)) by {
                assert forall|f: FrameID| first.free_list().contains(f) implies f < c by {
                    let i = choose|i: int|
                        0 <= i < first.free_list().len() && first.free_list()[i] == f;
                    assert(first.free_list()[i] < c);
                }
            }
        }
        Self::lemma_fill_from(states, results, c as int);
        Self::lemma_allocate_step(states[c as int], states[c as int + 1], results[c as int], c);
    }

    /// The first `k` allocations into an empty pool succeed.
    proof fn lemma_fill_from(states: Seq<Self>, results: Seq<Option<NewPage>>, k: int)
        requires
            0 <= k <= states[0].capacity(),
            results.len() == states[0].capacity() + 1,
            states.len() == results.len() + 1,
            states[0].all_pinned_once(0),
            forall|i: int|
                0 <= i < results.len() ==> states[i].allocated(
                    &states[i + 1],
                    #[trigger] results[i],
                ),
        ensures
            states[k].all_pinned_once(k as nat),
            states[k].capacity() == states[0].capacity(),
            forall|i: int|
                0 <= i < k ==> (#[trigger] results[i]) is Some && states[i + 1].free_list().len()
                    == states[0].capacity() - i - 1,
        decreases k,
    {
        if k > 0 {
            Self::lemma_fill_from(states, results, k - 1);
            assert(states[k - 1].allocated(&states[k - 1 + 1], results[k - 1]));
            Self::lemma_allocate_step(states[k - 1], states[k], results[k - 1], (k - 1) as nat);
        }
    }

    /// Putting a page that is not resident into the first free frame, pinned
    /// once, keeps the pool's invariant.
    proof fn lemma_installed(&self, mid: Self, frame: FrameID, id: PageID)
        requires
            mid.wf(),
            mid.free_list().len() > 0,
            frame == mid.free_list()[0],
            !mid.page_table().contains_key(id),
            id < self.next_page_id(),
            mid.next_page_id() <= self.next_page_id(),
            self.capacity() == mid.capacity(),
            self.replacer().wf(),
            self.replacer().capacity() == mid.replacer().capacity(),
            self.replacer().unpinned() == mid.replacer().unpinned().remove(frame),
            self.free_list() == mid.free_list().subrange(1, mid.free_list().len() as int),
            self.page_table() == mid.page_table().insert(id, frame),
            same_but(mid.frames(), self.frames(), frame),
            self.frames()[frame as int].id == id,
            self.frames()[frame as int].pin_count > 0,
        ensures
            self.wf(),
            self.free_list() == mid.free_list().drop_first(),
    {
        let fl = mid.free_list();
        assert(self.free_list() =~= fl.drop_first());
        assert(fl.contains(frame));
        assert forall|i: int| 0 <= i < self.free_list().len() implies (
        #[trigger] self.free_list()[i]) < self.capacity() && self.free_list()[i] != frame by {
            assert(self.free_list()[i] == fl[i + 1]);
        }
        assert forall|g: FrameID| self.free_list().contains(g) <==> (fl.contains(g) && g != frame) by {
            if self.free_list().contains(g) {
                let i = choose|i: int| 0 <= i < self.free_list().len() && self.free_list()[i] == g;
                assert(fl[i + 1] == g);
            }
            if fl.contains(g) && g != frame {
                let i = choose|i: int| 0 <= i < fl.len() && fl[i] == g;
                assert(self.free_list()[i - 1] == g);
            }
        }
        assert(self.free_list().no_duplicates());
        assert forall|p: PageID| #[trigger] self.page_table().contains_key(p) implies {
            &&& self.page_table()[p] < self.capacity()
            &&& self.frames()[self.page_table()[p] as int].id == p
            &&& !self.free_list().contains(self.page_table()[p])
            &&& p < self.next_page_id()
        } by {
            if p != id {
                assert(mid.page_table().contains_key(p));
                assert(mid.page_table()[p] != frame);
            }
        }
        assert forall|f: FrameID| f < self.capacity() implies #[trigger] slot_ok(
            self.frames(),
            self.page_table(),
            self.free_list(),
            f,
        ) by {
            assert(slot_ok(mid.frames(), mid.page_table(), mid.free_list(), f));
            if f != frame {
                if !fl.contains(f) {
                    assert(mid.frames()[f as int].id != id);
                }
            }
        }
        assert forall|f: FrameID| #[trigger]
            self.replacer().unpinned().contains(f) <==> f < self.capacity() && (
            self.free_list().contains(f) || self.frames()[f as int].pin_count == 0) by {
            assert(mid.replacer().unpinned().contains(f) <==> f < mid.capacity() && (
            mid.free_list().contains(f) || mid.frames()[f as int].pin_count == 0));
        }
    }
}

} // verus!
