//! The replacement policy: which frame slot gives up its page when the pool
//! is full.

use vstd::prelude::*;

verus! {

/// Index of a frame slot in the pool.
pub type FrameID = usize;

/// A replacement policy over a fixed number of frame slots.
///
/// Every slot is either pinned or victimizable. The policy chooses victims
/// among the victimizable slots only, and keeps count of them.
pub trait Replacer: Sized {
    /// The policy's internal invariant.
    spec fn wf(&self) -> bool;

    /// Number of frame slots the policy was made for.
    spec fn capacity(&self) -> nat;

    /// The slots that may be chosen as victims.
    spec fn unpinned(&self) -> Set<FrameID>;

    /// The slot that `pick_victim` returns in this state.
    spec fn next_victim(&self) -> Option<FrameID>;

    /// This policy is as `new(capacity)` makes it.
    spec fn fresh(&self, capacity: usize) -> bool;

    /// `after` is what `pick_victim` leaves of this policy.
    spec fn after_pick(&self, after: &Self) -> bool;

    /// `after` is what `pin(frame)` leaves of this policy.
    spec fn after_pin(&self, frame: FrameID, after: &Self) -> bool;

    /// `after` is what `unpin(frame)` leaves of this policy.
    spec fn after_unpin(&self, frame: FrameID, after: &Self) -> bool;

    /// Only slots below the capacity are tracked, and a victim exists exactly
    /// when some slot is victimizable; it is then one of them.
    proof fn lemma_victim_is_unpinned(&self)
        requires
            self.wf(),
        ensures
            self.unpinned().finite(),
            forall|f: FrameID| self.unpinned().contains(f) ==> f < self.capacity(),
            self.next_victim() is Some <==> self.unpinned().len() > 0,
            self.next_victim() matches Some(v) ==> self.unpinned().contains(v),
    ;

    /// A policy for `capacity` slots, all of them victimizable.
    fn new(capacity: usize) -> (r: Self)
        ensures
            r.wf(),
            r.capacity() == capacity,
            r.unpinned() =~= Set::new(|f: FrameID| f < capacity),
            r.fresh(capacity),
    ;

    /// Chooses the next victim, if there is one. Which slots are pinned does
    /// not change.
    fn pick_victim(&mut self) -> (v: Option<FrameID>)
        requires
            old(self).wf(),
        ensures
            final(self).wf(),
            final(self).capacity() == old(self).capacity(),
            final(self).unpinned() == old(self).unpinned(),
            old(self).after_pick(final(self)),
            v == old(self).next_victim(),
            v is Some <==> old(self).unpinned().len() > 0,
            v matches Some(f) ==> old(self).unpinned().contains(f),
    ;

    /// Takes `frame` out of the victimizable slots.
    fn pin(&mut self, frame: FrameID)
        requires
            old(self).wf(),
            frame < old(self).capacity(),
        ensures
            final(self).wf(),
            final(self).capacity() == old(self).capacity(),
            final(self).unpinned() == old(self).unpinned().remove(frame),
            old(self).after_pin(frame, final(self)),
    ;

    /// Makes `frame` victimizable again.
    fn unpin(&mut self, frame: FrameID)
        requires
            old(self).wf(),
            frame < old(self).capacity(),
        ensures
            final(self).wf(),
            final(self).capacity() == old(self).capacity(),
            final(self).unpinned() == old(self).unpinned().insert(frame),
            old(self).after_unpin(frame, final(self)),
    ;

    /// Number of victimizable slots.
    fn len(&self) -> (n: usize)
        requires
            self.wf(),
        ensures
            n == self.unpinned().len(),
    ;
}

/// Steps a hand takes from slot `from` to reach slot `to`, walking upwards
/// round a ring of `n` slots.
pub open spec fn ring_distance(from: int, to: int, n: int) -> int {
    if to >= from {
        to - from
    } else {
        to - from + n
    }
}

/// The slot reached from `from` after `steps` steps round a ring of `n`
/// slots, for fewer than `n` steps.
pub open spec fn ring_step(from: int, steps: int, n: int) -> int {
    if from + steps < n {
        from + steps
    } else {
        from + steps - n
    }
}

/// The slots below `n` are `n` in number.
pub proof fn lemma_slots_below(n: nat)
    requires
        n <= usize::MAX,
    ensures
        Set::new(|f: FrameID| f < n).finite(),
        Set::new(|f: FrameID| f < n).len() == n,
    decreases n,
{
    let s = Set::new(|f: FrameID| f < n);
    if n == 0 {
        assert(s =~= Set::<FrameID>::empty());
    } else {
        let m = (n - 1) as nat;
        lemma_slots_below(m);
        let t = Set::new(|f: FrameID| f < m);
        assert(s =~= t.insert(m as FrameID));
    }
}

} // verus!
