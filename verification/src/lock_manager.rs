//! Shared and exclusive locks on objects named by number.

use std::collections::HashMap;
use vstd::prelude::*;
use vstd::std_specs::hash::*;

verus! {

broadcast use group_hash_axioms;

/// How an object is locked.
#[derive(PartialEq, Eq)]
pub enum Lock {
    /// Held by this many readers.
    Shared(usize),
    /// Held by one writer.
    Exclusive,
}

/// Keeps the lock of every locked object.
pub struct LockManager {
    locks: HashMap<usize, Lock>,
}

impl LockManager {
    /// The lock of each locked object. An object that is not locked has no
    /// entry.
    pub closed spec fn locks(&self) -> Map<usize, Lock> {
        self.locks@
    }

    /// No object is held by zero readers.
    pub open spec fn wf(&self) -> bool {
        forall|id: usize| #[trigger]
            self.locks().contains_key(id) ==> (self.locks()[id] matches Lock::Shared(n) ==> n >= 1)
    }

    /// A manager in which nothing is locked.
    pub fn new() -> (lm: Self)
        ensures
            lm.wf(),
            lm.locks() == Map::<usize, Lock>::empty(),
    {
        Self { locks: HashMap::new() }
    }

    /// Acquires a shared (read-only) lock on `id`. Fails, with nothing
    /// changed, exactly when the object is locked exclusively.
    pub fn lock_shared(&mut self, id: usize) -> (ok: bool)
        requires
            old(self).wf(),
            old(self).locks().contains_key(id) ==> (old(self).locks()[id] matches Lock::Shared(n)
                ==> n < usize::MAX),
        ensures
            final(self).wf(),
            ok == !(old(self).locks().contains_key(id) && old(self).locks()[id] is Exclusive),
            final(self).locks() == if !old(self).locks().contains_key(id) {
                old(self).locks().insert(id, Lock::Shared(1))
            } else {
                match old(self).locks()[id] {
                    Lock::Shared(n) => old(self).locks().insert(id, Lock::Shared((n + 1) as usize)),
                    Lock::Exclusive => old(self).locks(),
                }
            },
    {
        let readers = match self.locks.get(&id) {
            Some(Lock::Exclusive) => { return false; },
            Some(Lock::Shared(n)) => *n + 1,
            None => 1,
        };
        self.locks.insert(id, Lock::Shared(readers));
        true
    }

    /// Acquires an exclusive (read/write) lock on `id`. Fails, with nothing
    /// changed, exactly when the object is locked already, shared or
    /// exclusive.
    pub fn lock_exclusive(&mut self, id: usize) -> (ok: bool)
        requires
            old(self).wf(),
        ensures
            final(self).wf(),
            ok == !old(self).locks().contains_key(id),
            final(self).locks() == if ok {
                old(self).locks().insert(id, Lock::Exclusive)
            } else {
                old(self).locks()
            },
    {
        if self.locks.get(&id).is_some() {
            return false;
        }
        self.locks.insert(id, Lock::Exclusive);
        true
    }

    /// Releases one lock on `id`: one reader fewer where several hold it,
    /// and no lock at all otherwise.
    pub fn unlock(&mut self, id: usize)
        requires
            old(self).wf(),
        ensures
            final(self).wf(),
            final(self).locks() == if old(self).locks().contains_key(id) {
                match old(self).locks()[id] {
                    Lock::Shared(n) if n > 1 => old(self).locks().insert(
                        id,
                        Lock::Shared((n - 1) as usize),
                    ),
                    _ => old(self).locks().remove(id),
                }
            } else {
                old(self).locks()
            },
    {
        let readers = match self.locks.get(&id) {
            Some(Lock::Shared(n)) => *n,
            _ => 0,
        };
        if readers > 1 {
            self.locks.insert(id, Lock::Shared(readers - 1));
            return;
        }
        self.locks.remove(&id);
        proof {
            if !old(self).locks().contains_key(id) {
                assert(self.locks() =~= old(self).locks());
            }
        }
    }
}

} // verus!
