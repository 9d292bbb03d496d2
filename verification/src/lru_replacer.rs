//! The least-recently-used replacement policy.

use vstd::prelude::*;
use vstd::arithmetic::div_mod::{lemma_mod_self_0, lemma_small_mod};
use crate::replacer::{lemma_slots_below, FrameID, Replacer};

verus! {

/// Links of one slot in the recency ring.
#[derive(Clone, Copy)]
struct LRUFrame {
    prev: FrameID,
    next: FrameID,
    linked: bool,
}

/// Least-recently-used replacement: the victimizable slots stand in a ring
/// in the order in which they were unpinned, and the victim is always the
/// one that has waited longest.
pub struct LRUReplacer {
    frames: Vec<LRUFrame>,
    head: FrameID,
    tail: FrameID,
    num_unpinned: usize,
    order: Ghost<Seq<FrameID>>,
}

/// The order `s` with the slot `f` taken out of it.
pub open spec fn without(s: Seq<FrameID>, f: FrameID) -> Seq<FrameID> {
    if s.contains(f) {
        s.remove(s.index_of(f))
    } else {
        s
    }
}

/// The order `s` after its first slot has gone to the back.
pub open spec fn rotated(s: Seq<FrameID>) -> Seq<FrameID> {
    if s.len() > 0 {
        s.drop_first().push(s[0])
    } else {
        s
    }
}

/// Taking a slot out of an order without repeats leaves an order without
/// repeats that holds every other slot, and the slot no more.
pub proof fn lemma_without(s: Seq<FrameID>, f: FrameID)
    requires
        s.no_duplicates(),
    ensures
        without(s, f).no_duplicates(),
        !without(s, f).contains(f),
        without(s, f).to_set() =~= s.to_set().remove(f),
        s.contains(f) ==> without(s, f).len() == s.len() - 1,
        forall|g: FrameID| g != f ==> (without(s, f).contains(g) <==> s.contains(g)),
{
    if s.contains(f) {
        let i = s.index_of(f);
        let r = s.remove(i);
        assert forall|a: int, b: int| 0 <= a < r.len() && 0 <= b < r.len() && a != b implies r[a]
            != r[b] by {
            let a0 = if a < i { a } else { a + 1 };
            let b0 = if b < i { b } else { b + 1 };
            assert(r[a] == s[a0] && r[b] == s[b0]);
        }
        assert forall|g: FrameID| r.contains(g) <==> (s.contains(g) && g != f) by {
            if r.contains(g) {
                let a = choose|a: int| 0 <= a < r.len() && r[a] == g;
                let a0 = if a < i { a } else { a + 1 };
                assert(s[a0] == g);
            }
            if s.contains(g) && g != f {
                let a0 = choose|a0: int| 0 <= a0 < s.len() && s[a0] == g;
                let a = if a0 < i { a0 } else { a0 - 1 };
                assert(r[a] == g);
            }
        }
    }
}

/// The slots of `o` are distinct, and they are exactly the linked ones.
spec fn ring_members(frames: Seq<LRUFrame>, o: Seq<FrameID>) -> bool {
    &&& frames.len() <= usize::MAX
    &&& o.no_duplicates()
    &&& forall|i: int| 0 <= i < o.len() ==> (#[trigger] o[i]) < frames.len()
    &&& forall|i: int| 0 <= i < o.len() ==> frames[(#[trigger] o[i]) as int].linked
    &&& forall|f: int|
        0 <= f < frames.len() && (#[trigger] frames[f]).linked ==> o.contains(f as FrameID)
}

/// Each slot of `o` points forward to the one after it.
spec fn ring_next(frames: Seq<LRUFrame>, o: Seq<FrameID>) -> bool {
    forall|i: int, j: int|
        0 <= i && j == i + 1 && j < o.len() ==> frames[(#[trigger] o[i]) as int].next
            == #[trigger] o[j]
}

/// Each slot of `o` points back to the one before it.
spec fn ring_prev(frames: Seq<LRUFrame>, o: Seq<FrameID>) -> bool {
    forall|i: int, j: int|
        0 <= i && j == i + 1 && j < o.len() ==> frames[(#[trigger] o[j]) as int].prev
            == #[trigger] o[i]
}

/// `head` and `tail` are the ends of `o`, and the ends point at each other.
spec fn ring_ends(frames: Seq<LRUFrame>, o: Seq<FrameID>, head: FrameID, tail: FrameID) -> bool {
    let n = o.len() as int;
    n > 0 ==> {
        &&& head == o[0]
        &&& tail == o[n - 1]
        &&& frames[o[n - 1] as int].next == o[0]
        &&& frames[o[0] as int].prev == o[n - 1]
    }
}

/// The links in `frames` make a ring of exactly the slots of `o`, in that
/// order, from `head` to `tail`.
spec fn ring(frames: Seq<LRUFrame>, o: Seq<FrameID>, head: FrameID, tail: FrameID) -> bool {
    &&& ring_members(frames, o)
    &&& ring_next(frames, o)
    &&& ring_prev(frames, o)
    &&& ring_ends(frames, o, head, tail)
}

/// What taking `frame` out of the ring does to the links: its neighbours
/// are joined, and it stands alone.
spec fn unlinked(before: Seq<LRUFrame>, after: Seq<LRUFrame>, frame: FrameID) -> bool {
    let p = before[frame as int].prev;
    let nx = before[frame as int].next;
    &&& after.len() == before.len()
    &&& forall|f: int|
        0 <= f < after.len() ==> {
            &&& (#[trigger] after[f]).linked == (before[f].linked && f != frame)
            &&& f != frame ==> after[f].next == (if f == p { nx } else { before[f].next })
            &&& f != frame ==> after[f].prev == (if f == nx { p } else { before[f].prev })
        }
}

/// The neighbours of the slot at `idx` of a ring.
proof fn lemma_neighbours(
    frames: Seq<LRUFrame>,
    o: Seq<FrameID>,
    head: FrameID,
    tail: FrameID,
    idx: int,
)
    requires
        ring(frames, o, head, tail),
        0 <= idx < o.len(),
    ensures
        frames[o[idx] as int].prev == (if idx > 0 { o[idx - 1] } else { o[o.len() - 1] }),
        frames[o[idx] as int].next == (if idx < o.len() - 1 { o[idx + 1] } else { o[0] }),
{
    if idx > 0 {
        assert(frames[o[idx] as int].prev == o[idx - 1]);
    }
    if idx < o.len() - 1 {
        assert(frames[o[idx] as int].next == o[idx + 1]);
    }
}

proof fn lemma_unlink_members(
    before: Seq<LRUFrame>,
    after: Seq<LRUFrame>,
    o: Seq<FrameID>,
    frame: FrameID,
)
    requires
        ring_members(before, o),
        o.contains(frame),
        unlinked(before, after, frame),
    ensures
        ring_members(after, without(o, frame)),
{
    lemma_without(o, frame);
    let idx = o.index_of(frame);
    let r = o.remove(idx);
    assert forall|i: int| 0 <= i < r.len() implies (#[trigger] r[i]) < after.len() && after[r[i] as int].linked by {
        let j = if i < idx { i } else { i + 1 };
        assert(r[i] == o[j]);
        assert(o[j] != o[idx]);
    }
    assert forall|f: int| 0 <= f < after.len() && (#[trigger] after[f]).linked implies r.contains(
        f as FrameID,
    ) by {
        assert(before[f].linked);
        assert(o.contains(f as FrameID));
        assert(f as FrameID != frame);
    }
}

proof fn lemma_unlink_next(
    before: Seq<LRUFrame>,
    after: Seq<LRUFrame>,
    o: Seq<FrameID>,
    head: FrameID,
    tail: FrameID,
    frame: FrameID,
)
    requires
        ring(before, o, head, tail),
        o.contains(frame),
        unlinked(before, after, frame),
    ensures
        ring_next(after, without(o, frame)),
{
    let n = o.len() as int;
    let idx = o.index_of(frame);
    let p = before[frame as int].prev;
    let nx = before[frame as int].next;
    let r = o.remove(idx);
    lemma_neighbours(before, o, head, tail, idx);
    assert forall|i: int, j: int| 0 <= i && j == i + 1 && j < r.len() implies after[(
        #[trigger] r[i]) as int].next == #[trigger] r[j] by {
        let i0 = if i < idx { i } else { i + 1 };
        let j0 = if j < idx { j } else { j + 1 };
        assert(r[i] == o[i0] && r[j] == o[j0]);
        assert(o[i0] != o[idx]);
        if i0 + 1 == j0 {
            assert(before[o[i0] as int].next == o[j0]);
            if o[i0] == p {
                if idx > 0 {
                    assert(o[i0] == o[idx - 1]);
                } else {
                    assert(o[i0] == o[n - 1]);
                }
            }
        } else {
            assert(i0 == idx - 1 && j0 == idx + 1);
        }
    }
}

proof fn lemma_unlink_prev(
    before: Seq<LRUFrame>,
    after: Seq<LRUFrame>,
    o: Seq<FrameID>,
    head: FrameID,
    tail: FrameID,
    frame: FrameID,
)
    requires
        ring(before, o, head, tail),
        o.contains(frame),
        unlinked(before, after, frame),
    ensures
        ring_prev(after, without(o, frame)),
{
    let n = o.len() as int;
    let idx = o.index_of(frame);
    let p = before[frame as int].prev;
    let nx = before[frame as int].next;
    let r = o.remove(idx);
    lemma_neighbours(before, o, head, tail, idx);
    assert forall|i: int, j: int| 0 <= i && j == i + 1 && j < r.len() implies after[(
        #[trigger] r[j]) as int].prev == #[trigger] r[i] by {
        let i0 = if i < idx { i } else { i + 1 };
        let j0 = if j < idx { j } else { j + 1 };
        assert(r[i] == o[i0] && r[j] == o[j0]);
        assert(o[j0] != o[idx]);
        if i0 + 1 == j0 {
            assert(before[o[j0] as int].prev == o[i0]);
            if o[j0] == nx {
                if idx < n - 1 {
                    assert(o[j0] == o[idx + 1]);
                } else {
                    assert(o[j0] == o[0]);
                }
            }
        } else {
            assert(i0 == idx - 1 && j0 == idx + 1);
        }
    }
}

proof fn lemma_unlink_ends(
    before: Seq<LRUFrame>,
    after: Seq<LRUFrame>,
    o: Seq<FrameID>,
    head: FrameID,
    tail: FrameID,
    frame: FrameID,
)
    requires
        ring(before, o, head, tail),
        o.contains(frame),
        unlinked(before, after, frame),
    ensures
        ring_ends(
            after,
            without(o, frame),
            if frame == head { before[frame as int].next } else { head },
            if frame != head && frame == tail { before[frame as int].prev } else { tail },
        ),
{
    let n = o.len() as int;
    let idx = o.index_of(frame);
    let p = before[frame as int].prev;
    let nx = before[frame as int].next;
    let r = o.remove(idx);
    lemma_neighbours(before, o, head, tail, idx);
    if r.len() > 0 {
        let first = if 0 < idx { 0int } else { 1int };
        let last = if idx < n - 1 { n - 1 } else { n - 2 };
        assert(r[0] == o[first]);
        assert(r[r.len() - 1] == o[last]);
        assert(o[first] != o[idx] && o[last] != o[idx]);
        lemma_neighbours(before, o, head, tail, first);
        lemma_neighbours(before, o, head, tail, last);
        if idx != 0 && idx != n - 1 {
            if o[last] == p {
                assert(o[last] == o[idx - 1]);
            }
            if o[first] == nx {
                assert(o[first] == o[idx + 1]);
            }
        }
    }
}

/// Joining the neighbours of a slot of the ring leaves a ring of the other
/// slots, in their old order.
proof fn lemma_unlink(
    before: Seq<LRUFrame>,
    after: Seq<LRUFrame>,
    o: Seq<FrameID>,
    head: FrameID,
    tail: FrameID,
    frame: FrameID,
)
    requires
        ring(before, o, head, tail),
        o.contains(frame),
        unlinked(before, after, frame),
    ensures
        ring(
            after,
            without(o, frame),
            if frame == head { before[frame as int].next } else { head },
            if frame != head && frame == tail { before[frame as int].prev } else { tail },
        ),
{
    lemma_unlink_members(before, after, o, frame);
    lemma_unlink_next(before, after, o, head, tail, frame);
    lemma_unlink_prev(before, after, o, head, tail, frame);
    lemma_unlink_ends(before, after, o, head, tail, frame);
}

impl LRUReplacer {
    /// The victimizable slots, the one that has waited longest first.
    pub closed spec fn order(&self) -> Seq<FrameID> {
        self.order@
    }

    /// Number of slots, as the ring's arena holds them.
    pub closed spec fn slots(&self) -> nat {
        self.frames.len() as nat
    }

    /// The ring's links agree with the order.
    spec fn ring_ok(&self) -> bool {
        &&& self.order@.len() == self.num_unpinned
        &&& ring(self.frames@, self.order@, self.head, self.tail)
    }

    /// The order has as many slots as there are victimizable ones, each below
    /// the capacity.
    proof fn lemma_order_bounded(&self)
        requires
            self.ring_ok(),
        ensures
            self.order@.to_set().finite(),
            self.order@.to_set().len() == self.order@.len(),
            self.order@.len() <= self.frames.len(),
            forall|f: FrameID| self.order@.contains(f) ==> f < self.frames.len(),
    {
        let o = self.order@;
        o.unique_seq_to_set();
        lemma_slots_below(self.frames.len() as nat);
        assert forall|f: FrameID| o.contains(f) implies f < self.frames.len() by {
            let i = choose|i: int| 0 <= i < o.len() && o[i] == f;
            assert(o[i] < self.frames.len());
        }
        vstd::set_lib::lemma_len_subset(o.to_set(), Set::new(|f: FrameID| f < self.frames.len()));
    }

    /// Takes `frame`, which is in the ring, out of it.
    fn remove(&mut self, frame: FrameID)
        requires
            old(self).ring_ok(),
            old(self).order@.contains(frame),
        ensures
            final(self).ring_ok(),
            final(self).frames.len() == old(self).frames.len(),
            final(self).order@ == without(old(self).order@, frame),
    {
        proof {
            self.lemma_order_bounded();
            lemma_without(self.order@, frame);
        }
        let ghost before = self.frames@;
        let p = self.frames[frame].prev;
        let nx = self.frames[frame].next;
        proof {
            let o = self.order@;
            let n = o.len() as int;
            let idx = o.index_of(frame);
            assert(0 <= idx < n && o[idx] == frame);
            if idx > 0 {
                assert(before[o[idx] as int].prev == o[idx - 1]);
            }
            if idx < n - 1 {
                assert(before[o[idx] as int].next == o[idx + 1]);
            }
            assert(p == (if idx > 0 { o[idx - 1] } else { o[n - 1] }));
            assert(nx == (if idx < n - 1 { o[idx + 1] } else { o[0] }));
            assert(p < self.frames.len() && nx < self.frames.len());
        }
        self.frames[p].next = nx;
        self.frames[nx].prev = p;
        self.frames[frame].linked = false;
        assert(unlinked(before, self.frames@, frame));
        if frame == self.head {
            self.head = nx;
        } else if frame == self.tail {
            self.tail = p;
        }
        self.num_unpinned -= 1;
        proof {
            lemma_unlink(before, self.frames@, old(self).order@, old(self).head, old(self).tail, frame);
            self.order@ = without(old(self).order@, frame);
        }
    }

    /// Puts `frame`, which is not in the ring, at its back.
    fn push_back(&mut self, frame: FrameID)
        requires
            old(self).ring_ok(),
            frame < old(self).frames.len(),
            !old(self).order@.contains(frame),
        ensures
            final(self).ring_ok(),
            final(self).frames.len() == old(self).frames.len(),
            final(self).order@ == old(self).order@.push(frame),
    {
        let ghost o = self.order@;
        let ghost n = o.len() as int;
        proof {
            self.lemma_order_bounded();
            lemma_slots_below(self.frames.len() as nat);
            assert(o.push(frame).no_duplicates()) by {
                assert forall|i: int, j: int|
                    0 <= i < n + 1 && 0 <= j < n + 1 && i != j implies o.push(frame)[i] != o.push(
                    frame,
                )[j] by {
                    if i < n {
                        assert(o.contains(o[i]));
                    }
                    if j < n {
                        assert(o.contains(o[j]));
                    }
                }
            }
            o.push(frame).unique_seq_to_set();
            assert forall|f: FrameID| o.push(frame).contains(f) implies f < self.frames.len() by {
                let i = choose|i: int| 0 <= i < n + 1 && o.push(frame)[i] == f;
                if i < n {
                    assert(o[i] < self.frames.len());
                }
            }
            vstd::set_lib::lemma_len_subset(
                o.push(frame).to_set(),
                Set::new(|f: FrameID| f < self.frames.len()),
            );
        }
        if self.num_unpinned == 0 {
            self.frames[frame].prev = frame;
            self.frames[frame].next = frame;
            self.head = frame;
        } else {
            let t = self.tail;
            let n = self.frames[t].next;
            assert(n == self.head);
            assert(!self.frames[frame as int].linked);
            self.frames[t].next = frame;
            self.frames[n].prev = frame;
            self.frames[frame].prev = t;
            self.frames[frame].next = n;
        }
        self.frames[frame].linked = true;
        self.tail = frame;
        self.num_unpinned += 1;
        proof {
            self.order@ = o.push(frame);
            let r = self.order@;
            assert forall|i: int| 0 <= i < n implies #[trigger] r[i] != frame && r[i] == o[i] by {
                assert(o.contains(o[i]));
            }
            assert forall|f: int|
                0 <= f < self.frames.len() && (#[trigger] self.frames[f]).linked implies r.contains(
                f as FrameID,
            ) by {
                if f == frame {
                    assert(r[n] == frame);
                } else {
                    assert(old(self).frames[f].linked);
                    let i = choose|i: int| 0 <= i < n && o[i] == f as FrameID;
                    assert(r[i] == f as FrameID);
                }
            }
            assert forall|i: int, j: int| 0 <= i && j == i + 1 && j < r.len() implies self.frames[(
                #[trigger] r[i]) as int].next == #[trigger] r[j] by {
                assert(r[i] == o[i]);
                if j < n {
                    assert(r[j] == o[j]);
                    assert(old(self).frames[o[i] as int].next == o[j]);
                }
            }
            assert forall|i: int, j: int| 0 <= i && j == i + 1 && j < r.len() implies self.frames[(
                #[trigger] r[j]) as int].prev == #[trigger] r[i] by {
                assert(r[i] == o[i]);
                if j < n {
                    assert(r[j] == o[j]);
                    assert(old(self).frames[o[j] as int].prev == o[i]);
                }
            }
        }
    }
}

impl Replacer for LRUReplacer {
    closed spec fn wf(&self) -> bool {
        self.ring_ok()
    }

    open spec fn capacity(&self) -> nat {
        self.slots()
    }

    open spec fn unpinned(&self) -> Set<FrameID> {
        self.order().to_set()
    }

    open spec fn next_victim(&self) -> Option<FrameID> {
        if self.order().len() > 0 {
            Some(self.order()[0])
        } else {
            None
        }
    }

    open spec fn fresh(&self, capacity: usize) -> bool {
        self.slots() == capacity && self.order() == Seq::new(capacity as nat, |i: int| i as FrameID)
    }

    open spec fn after_pick(&self, after: &Self) -> bool {
        after.slots() == self.slots() && after.order() == rotated(self.order())
    }

    open spec fn after_pin(&self, frame: FrameID, after: &Self) -> bool {
        after.slots() == self.slots() && after.order() == without(self.order(), frame)
    }

    open spec fn after_unpin(&self, frame: FrameID, after: &Self) -> bool {
        after.slots() == self.slots() && after.order() == without(self.order(), frame).push(frame)
    }

    proof fn lemma_victim_is_unpinned(&self) {
        self.lemma_order_bounded();
        if self.order@.len() > 0 {
            assert(self.order@.contains(self.order@[0]));
        }
    }

    fn new(capacity: usize) -> (r: Self) {
        let mut frames: Vec<LRUFrame> = Vec::with_capacity(capacity);
        let mut i: usize = 0;
        while i < capacity
            invariant
                i <= capacity,
                frames.len() == i,
                forall|f: int|
                    0 <= f < i ==> {
                        &&& (#[trigger] frames[f]).linked
                        &&& frames[f].next == (if f + 1 == capacity { 0 } else { f + 1 })
                        &&& frames[f].prev == (if f == 0 { capacity - 1 } else { f - 1 })
                    },
            decreases capacity - i,
        {
            proof {
                if i + 1 < capacity {
                    lemma_small_mod((i + 1) as nat, capacity as nat);
                } else {
                    lemma_mod_self_0(capacity as int);
                }
                if i > 0 {
                    lemma_small_mod((i - 1) as nat, capacity as nat);
                }
            }
            let next = (i + 1) % capacity;
            let prev = if i == 0 { capacity - 1 } else { (i - 1) % capacity };
            frames.push(LRUFrame { prev, next, linked: true });
            i += 1;
        }
        let tail = if capacity == 0 { 0 } else { capacity - 1 };
        let ghost order = Seq::new(capacity as nat, |i: int| i as FrameID);
        let r = Self { frames, head: 0, tail, num_unpinned: capacity, order: Ghost(order) };
        proof {
            assert forall|f: int|
                0 <= f < r.frames.len() && (#[trigger] r.frames[f]).linked implies order.contains(
                f as FrameID,
            ) by {
                assert(order[f] == f as FrameID);
            }
            assert(order.to_set() =~= Set::new(|f: FrameID| f < capacity)) by {
                assert forall|f: FrameID| f < capacity implies order.to_set().contains(f) by {
                    assert(order[f as int] == f);
                }
            }
        }
        r
    }

    fn pick_victim(&mut self) -> (v: Option<FrameID>) {
        proof {
            self.lemma_order_bounded();
        }
        if self.len() == 0 {
            return None;
        }
        let h = self.head;
        if self.len() > 1 {
            proof {
                let o = self.order@;
                assert(o.contains(o[0]));
                assert(o.index_of(h) == 0);
                assert(o.remove(0) =~= o.drop_first());
            }
            self.unpin(h);
        } else {
            assert(rotated(self.order@) =~= self.order@);
        }
        proof {
            let o = old(self).order@;
            assert(o.contains(o[0]));
            assert(rotated(o).to_set() =~= o.to_set()) by {
                assert forall|f: FrameID| o.contains(f) implies rotated(o).contains(f) by {
                    let i = choose|i: int| 0 <= i < o.len() && o[i] == f;
                    if i == 0 {
                        assert(rotated(o)[o.len() - 1] == f);
                    } else {
                        assert(rotated(o)[i - 1] == f);
                    }
                }
                assert forall|f: FrameID| rotated(o).contains(f) implies o.contains(f) by {
                    let i = choose|i: int| 0 <= i < rotated(o).len() && rotated(o)[i] == f;
                    if i == o.len() - 1 {
                        assert(o[0] == f);
                    } else {
                        assert(o[i + 1] == f);
                    }
                }
            }
        }
        Some(h)
    }

    fn pin(&mut self, frame: FrameID) {
        proof {
            lemma_without(self.order@, frame);
        }
        if self.frames[frame].linked {
            self.remove(frame);
        } else {
            proof {
                if self.order@.contains(frame) {
                    let i = choose|i: int| 0 <= i < self.order@.len() && self.order@[i] == frame;
                    assert(self.frames[self.order@[i] as int].linked);
                }
            }
        }
    }

    fn unpin(&mut self, frame: FrameID) {
        proof {
            lemma_without(self.order@, frame);
        }
        if self.frames[frame].linked {
            self.remove(frame);
        } else {
            proof {
                if self.order@.contains(frame) {
                    let i = choose|i: int| 0 <= i < self.order@.len() && self.order@[i] == frame;
                    assert(self.frames[self.order@[i] as int].linked);
                }
            }
        }
        self.push_back(frame);
        proof {
            let w = without(old(self).order@, frame);
            assert(w.push(frame).to_set() =~= old(self).order@.to_set().insert(frame)) by {
                assert forall|g: FrameID| w.push(frame).contains(g) <==> (w.contains(g) || g == frame) by {
                    if w.contains(g) {
                        let i = choose|i: int| 0 <= i < w.len() && w[i] == g;
                        assert(w.push(frame)[i] == g);
                    }
                    if g == frame {
                        assert(w.push(frame)[w.len() as int] == g);
                    }
                }
            }
        }
    }

    fn len(&self) -> (n: usize)
        ensures
            n == self.order().len(),
    {
        proof {
            self.lemma_order_bounded();
        }
        self.num_unpinned
    }
}

} // verus!
