//! The Clock ("second chance") replacement policy.

use vstd::prelude::*;
use vstd::arithmetic::div_mod::{lemma_mod_self_0, lemma_small_mod};
use vstd::string::StringExecFns;
use crate::replacer::{lemma_slots_below, ring_distance, ring_step, FrameID, Replacer};
use crate::text::{decimal, decimal_text};

verus! {

/// Per-slot state of the clock.
#[derive(Clone, Copy)]
pub struct ClockFrame {
    pub pinned: bool,
    pub used: bool,
}

/// Clock replacement: a hand walks round the slots; a slot that is pinned or
/// marked used is passed over, losing its used mark, and the first slot that
/// is neither becomes the victim.
pub struct ClockReplacer {
    frames: Vec<ClockFrame>,
    hand: FrameID,
    num_unpinned: usize,
    unpinned: Ghost<Set<FrameID>>,
}

/// A slot that the hand stops at: neither pinned nor marked used.
pub open spec fn eligible(frames: Seq<ClockFrame>, f: int) -> bool {
    0 <= f < frames.len() && !frames[f].pinned && !frames[f].used
}

/// A slot that is not pinned.
pub open spec fn free_to_go(frames: Seq<ClockFrame>, f: int) -> bool {
    0 <= f < frames.len() && !frames[f].pinned
}

/// `v` is the first eligible slot that the hand meets, starting at `hand`
/// itself.
pub open spec fn first_eligible(frames: Seq<ClockFrame>, hand: int, v: int) -> bool {
    &&& eligible(frames, v)
    &&& forall|f: int| #[trigger]
        eligible(frames, f) ==> ring_distance(hand, v, frames.len() as int) <= ring_distance(
            hand,
            f,
            frames.len() as int,
        )
}

/// `v` is the first unpinned slot that the hand meets, starting at `hand`
/// itself.
pub open spec fn first_unpinned(frames: Seq<ClockFrame>, hand: int, v: int) -> bool {
    &&& free_to_go(frames, v)
    &&& forall|f: int| #[trigger]
        free_to_go(frames, f) ==> ring_distance(hand, v, frames.len() as int) <= ring_distance(
            hand,
            f,
            frames.len() as int,
        )
}

/// The victim of a clock in the given state: the first eligible slot from
/// the hand on; where every unpinned slot is marked used, the first unpinned
/// slot from the hand on (the hand has then gone once round and taken all
/// marks away); none where every slot is pinned.
pub open spec fn clock_victim(frames: Seq<ClockFrame>, hand: int) -> Option<FrameID> {
    if exists|v: FrameID| first_eligible(frames, hand, v as int) {
        Some(choose|v: FrameID| first_eligible(frames, hand, v as int))
    } else if exists|v: FrameID| first_unpinned(frames, hand, v as int) {
        Some(choose|v: FrameID| first_unpinned(frames, hand, v as int))
    } else {
        None
    }
}

/// The used marks that are left once the hand has stopped at the victim `v`:
/// where `v` was eligible, the slots that the hand passed on its way have
/// lost theirs; otherwise the hand went all the way round and none is left.
pub open spec fn marks_after_pick(frames: Seq<ClockFrame>, hand: int, v: int) -> Seq<bool> {
    Seq::new(
        frames.len(),
        |f: int|
            frames[f].used && first_eligible(frames, hand, v) && ring_distance(
                hand,
                f,
                frames.len() as int,
            ) >= ring_distance(hand, v, frames.len() as int),
    )
}

/// Two slots at the same distance from the hand are the same slot.
proof fn lemma_ring_distance_injective(hand: int, a: int, b: int, n: int)
    requires
        0 <= hand < n,
        0 <= a < n,
        0 <= b < n,
        ring_distance(hand, a, n) == ring_distance(hand, b, n),
    ensures
        a == b,
{
}

/// One slot as the clock's description shows it: its number, `p` where it
/// is pinned, `*` where it is marked used, and a comma.
pub open spec fn frame_text(i: nat, f: ClockFrame) -> Seq<char> {
    decimal(i) + (if f.pinned {
        "p"@
    } else {
        Seq::<char>::empty()
    }) + (if f.used {
        "*"@
    } else {
        Seq::<char>::empty()
    }) + ", "@
}

/// The first `upto` slots as the clock's description shows them.
pub open spec fn frames_text(frames: Seq<ClockFrame>, upto: nat) -> Seq<char>
    decreases upto,
{
    if upto == 0 {
        Seq::<char>::empty()
    } else {
        frames_text(frames, (upto - 1) as nat) + frame_text(
            (upto - 1) as nat,
            frames[upto - 1],
        )
    }
}

/// The clock's description: its slots in order, and where the hand is.
pub open spec fn clock_text(frames: Seq<ClockFrame>, hand: nat) -> Seq<char> {
    frames_text(frames, frames.len()) + " (h="@ + decimal(hand) + ")"@
}

impl ClockReplacer {
    /// Describes the clock in one line, for a reader who follows its moves:
    /// every slot with its marks, then the hand, as in `0p, 1*, 2,  (h=1)`.
    pub fn describe(&self) -> (line: String)
        ensures
            line@ == clock_text(self.frames(), self.hand() as nat),
    {
        let mut line = String::new();
        let mut i: usize = 0;
        while i < self.frames.len()
            invariant
                i <= self.frames.len(),
                line@ == frames_text(self.frames@, i as nat),
            decreases self.frames.len() - i,
        {
            let ghost before = line@;
            line.append(decimal_text(i).as_str());
            if self.frames[i].pinned {
                line.append("p");
            }
            if self.frames[i].used {
                line.append("*");
            }
            line.append(", ");
            proof {
                assert(line@ =~= before + frame_text(i as nat, self.frames@[i as int]));
            }
            i += 1;
        }
        line.append(" (h=");
        line.append(decimal_text(self.hand).as_str());
        line.append(")");
        line
    }

    /// The slots' flags, by slot index.
    pub closed spec fn frames(&self) -> Seq<ClockFrame> {
        self.frames@
    }

    /// The slot that the hand points at.
    pub closed spec fn hand(&self) -> int {
        self.hand as int
    }

    /// At most one slot is the first eligible one from the hand on.
    proof fn lemma_first_eligible_unique(frames: Seq<ClockFrame>, hand: int, a: int, b: int)
        requires
            0 <= hand < frames.len(),
            first_eligible(frames, hand, a),
            first_eligible(frames, hand, b),
        ensures
            a == b,
    {
        assert(eligible(frames, a));
        assert(eligible(frames, b));
        lemma_ring_distance_injective(hand, a, b, frames.len() as int);
    }

    /// At most one slot is the first unpinned one from the hand on.
    proof fn lemma_first_unpinned_unique(frames: Seq<ClockFrame>, hand: int, a: int, b: int)
        requires
            0 <= hand < frames.len(),
            first_unpinned(frames, hand, a),
            first_unpinned(frames, hand, b),
        ensures
            a == b,
    {
        assert(free_to_go(frames, a));
        assert(free_to_go(frames, b));
        lemma_ring_distance_injective(hand, a, b, frames.len() as int);
    }

    /// Among the slots at distance below `k` from the hand, the nearest
    /// unpinned one, if there is any.
    spec fn nearest_unpinned(frames: Seq<ClockFrame>, hand: int, k: int) -> Option<int>
        decreases k,
    {
        if k <= 0 {
            None
        } else {
            match Self::nearest_unpinned(frames, hand, k - 1) {
                Some(v) => Some(v),
                None => {
                    let f = ring_step(hand, k - 1, frames.len() as int);
                    if !frames[f].pinned {
                        Some(f)
                    } else {
                        None
                    }
                },
            }
        }
    }

    proof fn lemma_nearest_unpinned(frames: Seq<ClockFrame>, hand: int, k: int)
        requires
            0 <= hand < frames.len(),
            0 <= k <= frames.len(),
        ensures
            match Self::nearest_unpinned(frames, hand, k) {
                Some(v) => {
                    &&& free_to_go(frames, v)
                    &&& ring_distance(hand, v, frames.len() as int) < k
                    &&& forall|f: int| #[trigger]
                        free_to_go(frames, f) ==> ring_distance(hand, v, frames.len() as int)
                            <= ring_distance(hand, f, frames.len() as int)
                },
                None => forall|f: int| #[trigger]
                    free_to_go(frames, f) ==> ring_distance(hand, f, frames.len() as int) >= k,
            },
        decreases k,
    {
        if k > 0 {
            Self::lemma_nearest_unpinned(frames, hand, k - 1);
            let n = frames.len() as int;
            let g = ring_step(hand, k - 1, n);
            assert(ring_distance(hand, g, n) == k - 1);
            if Self::nearest_unpinned(frames, hand, k - 1) is None {
                assert forall|f: int| #[trigger] free_to_go(frames, f) && f != g implies ring_distance(
                    hand,
                    f,
                    n,
                ) >= k by {
                    if free_to_go(frames, f) && f != g {
                        if ring_distance(hand, f, n) == k - 1 {
                            lemma_ring_distance_injective(hand, f, g, n);
                        }
                    }
                }
            }
        }
    }

    /// Where a slot is unpinned, the clock has a victim, and it is unpinned.
    proof fn lemma_clock_victim(frames: Seq<ClockFrame>, hand: int)
        requires
            0 <= hand < frames.len() || frames.len() == 0,
            frames.len() <= usize::MAX,
        ensures
            clock_victim(frames, hand) is Some <==> exists|f: int| free_to_go(frames, f),
            clock_victim(frames, hand) matches Some(v) ==> free_to_go(frames, v as int),
    {
        if exists|v: FrameID| first_eligible(frames, hand, v as int) {
            let v = choose|v: FrameID| first_eligible(frames, hand, v as int);
            assert(eligible(frames, v as int));
            assert(free_to_go(frames, v as int));
        } else if exists|v: FrameID| first_unpinned(frames, hand, v as int) {
            let v = choose|v: FrameID| first_unpinned(frames, hand, v as int);
            assert(free_to_go(frames, v as int));
        } else {
            if exists|f: int| free_to_go(frames, f) {
                let f = choose|f: int| free_to_go(frames, f);
                Self::lemma_nearest_unpinned(frames, hand, frames.len() as int);
                match Self::nearest_unpinned(frames, hand, frames.len() as int) {
                    Some(v) => {
                        assert(first_unpinned(frames, hand, (v as FrameID) as int));
                        assert(false);
                    },
                    None => {
                        assert(free_to_go(frames, f));
                        assert(false);
                    },
                }
            }
        }
    }
}

impl Replacer for ClockReplacer {
    closed spec fn wf(&self) -> bool {
        &&& self.frames.len() == 0 ==> self.hand == 0
        &&& self.frames.len() > 0 ==> self.hand < self.frames.len()
        &&& self.unpinned@.finite()
        &&& self.unpinned@.len() == self.num_unpinned
        &&& forall|f: FrameID| #[trigger]
            self.unpinned@.contains(f) <==> f < self.frames.len() && !self.frames[f as int].pinned
    }

    open spec fn capacity(&self) -> nat {
        self.frames().len()
    }

    closed spec fn unpinned(&self) -> Set<FrameID> {
        self.unpinned@
    }

    open spec fn next_victim(&self) -> Option<FrameID> {
        clock_victim(self.frames(), self.hand())
    }

    open spec fn fresh(&self, capacity: usize) -> bool {
        &&& self.hand() == 0
        &&& self.frames().len() == capacity
        &&& forall|f: int|
            0 <= f < capacity ==> !(#[trigger] self.frames()[f]).pinned && !self.frames()[f].used
    }

    open spec fn after_pick(&self, after: &Self) -> bool {
        match self.next_victim() {
            None => after.frames() == self.frames() && after.hand() == self.hand(),
            Some(v) => {
                &&& after.hand() == ring_step(v as int, 1, self.frames().len() as int)
                &&& after.frames().len() == self.frames().len()
                &&& forall|g: int|
                    0 <= g < self.frames().len() ==> (#[trigger] after.frames()[g]).pinned
                        == self.frames()[g].pinned && after.frames()[g].used == marks_after_pick(
                        self.frames(),
                        self.hand(),
                        v as int,
                    )[g]
            },
        }
    }

    open spec fn after_pin(&self, frame: FrameID, after: &Self) -> bool {
        &&& after.hand() == self.hand()
        &&& after.frames() == self.frames().update(
            frame as int,
            ClockFrame { pinned: true, used: self.frames()[frame as int].used },
        )
    }

    open spec fn after_unpin(&self, frame: FrameID, after: &Self) -> bool {
        &&& after.hand() == self.hand()
        &&& after.frames() == self.frames().update(
            frame as int,
            ClockFrame { pinned: false, used: true },
        )
    }

    proof fn lemma_victim_is_unpinned(&self) {
        Self::lemma_clock_victim(self.frames@, self.hand as int);
        if self.unpinned@.len() > 0 {
            let f = self.unpinned@.choose();
            assert(self.unpinned@.contains(f));
            assert(free_to_go(self.frames@, f as int));
        }
        if exists|f: int| free_to_go(self.frames@, f) {
            let f = choose|f: int| free_to_go(self.frames@, f);
            let g = f as FrameID;
            assert(self.unpinned@.contains(g));
        }
        if let Some(v) = self.next_victim() {
            assert(free_to_go(self.frames@, v as int));
        }
    }

    fn new(capacity: usize) -> (r: Self) {
        let mut frames: Vec<ClockFrame> = Vec::with_capacity(capacity);
        let ghost mut unpinned: Set<FrameID> = Set::empty();
        let mut i: usize = 0;
        while i < capacity
            invariant
                i <= capacity,
                frames.len() == i,
                unpinned.finite(),
                unpinned.len() == i,
                forall|f: FrameID| unpinned.contains(f) <==> f < i,
                forall|f: int| 0 <= f < i ==> !(#[trigger] frames[f]).pinned && !frames[f].used,
            decreases capacity - i,
        {
            frames.push(ClockFrame { pinned: false, used: false });
            proof {
                unpinned = unpinned.insert(i);
            }
            i += 1;
        }
        Self { frames, hand: 0, num_unpinned: capacity, unpinned: Ghost(unpinned) }
    }

    fn pick_victim(&mut self) -> (v: Option<FrameID>)
        ensures
            v is None ==> *final(self) == *old(self),
    {
        proof {
            self.lemma_victim_is_unpinned();
        }
        if self.len() == 0 {
            return None;
        }
        let n = self.frames.len();
        let ghost frames0 = self.frames@;
        let ghost hand0 = self.hand as int;
        let ghost w: FrameID = self.unpinned@.choose();
        let ghost mut k: int = 0;
        assert(self.unpinned@.contains(w));
        while self.frames[self.hand].pinned || self.frames[self.hand].used
            invariant
                n == self.frames.len(),
                n == frames0.len(),
                n > 0,
                0 <= hand0 < n,
                w < n,
                !frames0[w as int].pinned,
                self.hand < n,
                self.num_unpinned == old(self).num_unpinned,
                self.unpinned == old(self).unpinned,
                0 <= k <= n + ring_distance(hand0, w as int, n as int),
                k < n ==> self.hand == ring_step(hand0, k, n as int),
                k >= n ==> self.hand == ring_step(hand0, k - n, n as int),
                forall|f: int| 0 <= f < n ==> (#[trigger] self.frames[f]).pinned == frames0[f].pinned,
                forall|f: int|
                    0 <= f < n ==> (#[trigger] self.frames[f]).used == (frames0[f].used
                        && ring_distance(hand0, f, n as int) >= k),
                forall|f: int|
                    0 <= f < n && ring_distance(hand0, f, n as int) < k ==> (#[trigger] frames0[f]).pinned
                        || frames0[f].used,
                forall|f: int|
                    0 <= f < n && ring_distance(hand0, f, n as int) < k - n
                        ==> (#[trigger] frames0[f]).pinned,
            decreases n + ring_distance(hand0, w as int, n as int) - k,
        {
            let h = self.hand;
            self.frames[h].used = false;
            proof {
                if h + 1 < n {
                    lemma_small_mod((h + 1) as nat, n as nat);
                } else {
                    lemma_mod_self_0(n as int);
                }
            }
            self.hand = (self.hand + 1) % n;
            proof {
                k = k + 1;
            }
        }
        let h = self.hand;
        proof {
            if h + 1 < n {
                lemma_small_mod((h + 1) as nat, n as nat);
            } else {
                lemma_mod_self_0(n as int);
            }
            let d = ring_distance(hand0, h as int, n as int);
            if k < n {
                assert(d == k);
                assert(eligible(frames0, h as int));
                assert forall|f: int| #[trigger] eligible(frames0, f) implies d <= ring_distance(
                    hand0,
                    f,
                    n as int,
                ) by {}
                assert(first_eligible(frames0, hand0, h as int));
                assert forall|v: FrameID| first_eligible(frames0, hand0, v as int) implies v == h by {
                    Self::lemma_first_eligible_unique(frames0, hand0, v as int, h as int);
                }
            } else {
                assert(d == k - n);
                assert forall|v: FrameID| !first_eligible(frames0, hand0, v as int) by {
                    if eligible(frames0, v as int) {
                        assert(ring_distance(hand0, v as int, n as int) < k);
                    }
                }
                assert(free_to_go(frames0, h as int));
                assert forall|f: int| #[trigger] free_to_go(frames0, f) implies d <= ring_distance(
                    hand0,
                    f,
                    n as int,
                ) by {}
                assert(first_unpinned(frames0, hand0, h as int));
                assert forall|v: FrameID| first_unpinned(frames0, hand0, v as int) implies v == h by {
                    Self::lemma_first_unpinned_unique(frames0, hand0, v as int, h as int);
                }
            }
            assert(clock_victim(frames0, hand0) == Some(h));
        }
        self.hand = (self.hand + 1) % n;
        Some(h)
    }

    fn pin(&mut self, frame: FrameID) {
        if !self.frames[frame].pinned {
            assert(self.unpinned@.contains(frame));
            self.frames[frame].pinned = true;
            self.num_unpinned -= 1;
            proof {
                self.unpinned@ = self.unpinned@.remove(frame);
            }
        }
        proof {
            assert(self.unpinned@ =~= old(self).unpinned@.remove(frame));
            assert(self.frames@ =~= old(self).frames@.update(
                frame as int,
                ClockFrame { pinned: true, used: old(self).frames@[frame as int].used },
            ));
        }
    }

    fn unpin(&mut self, frame: FrameID) {
        let was_pinned = self.frames[frame].pinned;
        self.frames[frame].pinned = false;
        self.frames[frame].used = true;
        if was_pinned {
            proof {
                lemma_slots_below(old(self).frames.len() as nat);
                vstd::set_lib::lemma_len_subset(
                    old(self).unpinned@.insert(frame),
                    Set::new(|f: FrameID| f < old(self).frames.len()),
                );
            }
            self.num_unpinned += 1;
            proof {
                self.unpinned@ = self.unpinned@.insert(frame);
            }
        }
        proof {
            assert(self.unpinned@ =~= old(self).unpinned@.insert(frame));
            assert(self.frames@ =~= old(self).frames@.update(
                frame as int,
                ClockFrame { pinned: false, used: true },
            ));
        }
    }

    fn len(&self) -> (n: usize) {
        self.num_unpinned
    }
}

} // verus!
