//! Sorting a file that does not fit into memory: sorted runs are made of as
//! many blocks as memory holds, and the runs are then merged byte by byte.
//!
//! Reading and writing the files is the caller's part. What is decided here
//! is how many runs there are, what a sorted run holds, and, in the merge,
//! which byte goes out next and when a block has to be read or written.

use vstd::prelude::*;

verus! {

/// Number of bytes in a block.
pub const BLOCK: usize = 4096;

/// Size of the file to sort, in blocks.
pub const B: usize = 36;

/// Number of blocks that fit into memory.
pub const M: usize = 8;

/// Largest number of runs that can be merged: one block of memory per run,
/// and one for the output.
pub const MAX_RUNS: usize = 7;

/// The bytes of `blocks`, one block after the other.
pub open spec fn flat(blocks: Seq<[u8; BLOCK]>) -> Seq<u8> {
    Seq::new(
        blocks.len() * (BLOCK as nat),
        |k: int| blocks[k / (BLOCK as int)]@[k % (BLOCK as int)],
    )
}

/// `s` is in ascending order.
pub open spec fn ascending(s: Seq<u8>) -> bool {
    forall|i: int, j: int| 0 <= i <= j < s.len() ==> s[i] <= s[j]
}

/// Number of sorted runs that a file of `blocks` blocks is cut into when
/// `memory` blocks fit into memory: each run but the last fills the memory.
pub open spec fn runs_of(blocks: nat, memory: nat) -> nat {
    ((blocks + memory - 1) / (memory as int)) as nat
}

/// Number of runs that a file of `blocks` blocks is cut into with `memory`
/// blocks of memory, or `None` where the file is too large for a multi-way
/// merge sort: the runs must leave one block of memory for the output.
pub fn number_of_runs(blocks: usize, memory: usize) -> (runs: Option<usize>)
    requires
        memory >= 1,
        blocks + memory <= usize::MAX,
    ensures
        runs == if runs_of(blocks as nat, memory as nat) > memory - 1 {
            None
        } else {
            Some(runs_of(blocks as nat, memory as nat) as usize)
        },
{
    let runs = (blocks + memory - 1) / memory;
    if runs > memory - 1 {
        None
    } else {
        Some(runs)
    }
}

/// `slice::sort` of the standard library, on bytes: afterwards the vector
/// holds the bytes that it held, in ascending order.
#[verifier::external_body]
fn sort_bytes(v: &mut Vec<u8>)
    ensures
        final(v)@.to_multiset() == old(v)@.to_multiset(),
        ascending(final(v)@),
{
    v.sort();
}

/// One sorted run: all bytes of the blocks in memory, in ascending order.
pub fn sort_run(buffers: &[[u8; BLOCK]; M]) -> (sorted: Vec<u8>)
    ensures
        sorted@.to_multiset() == flat(buffers@).to_multiset(),
        ascending(sorted@),
        sorted@.len() == M * BLOCK,
{
    let mut sorted: Vec<u8> = Vec::new();
    let mut b: usize = 0;
    while b < M
        invariant
            b <= M,
            sorted@.len() == b * BLOCK,
            forall|k: int| 0 <= k < b * BLOCK ==> sorted@[k] == #[trigger] flat(buffers@)[k],
        decreases M - b,
    {
        let mut i: usize = 0;
        while i < BLOCK
            invariant
                b < M,
                i <= BLOCK,
                sorted@.len() == b * BLOCK + i,
                forall|k: int|
                    0 <= k < b * BLOCK + i ==> sorted@[k] == #[trigger] flat(buffers@)[k],
            decreases BLOCK - i,
        {
            sorted.push(buffers[b][i]);
            i += 1;
        }
        b += 1;
    }
    assert(sorted@ =~= flat(buffers@));
    let ghost unsorted = sorted@;
    sort_bytes(&mut sorted);
    proof {
        unsorted.to_multiset_ensures();
        sorted@.to_multiset_ensures();
    }
    sorted
}

/// The state of a merge of up to `MAX_RUNS` sorted runs: one block of each
/// run in memory, a position in each, and the output block.
pub struct Merger {
    buffers: [[u8; BLOCK]; M],
    pos: [usize; MAX_RUNS],
    done: [bool; MAX_RUNS],
    done_with: usize,
    out_filled: usize,
    runs: usize,
    awaiting: Option<usize>,
}

/// The merge as the caller may know it.
pub struct MergerView {
    /// Number of runs that are merged.
    pub runs: nat,
    /// The block of each run that is in memory.
    pub blocks: Seq<Seq<u8>>,
    /// Where in its block each run stands.
    pub pos: Seq<nat>,
    /// Which runs have come to their end.
    pub done: Seq<bool>,
    /// The output block.
    pub out: Seq<u8>,
    /// Number of bytes of the output block that are filled.
    pub out_filled: nat,
    /// The run whose next block the merge waits for, if it waits for one.
    pub awaiting: Option<nat>,
}

/// Run `i` is one of the runs and has not come to its end.
pub open spec fn live(m: MergerView, i: int) -> bool {
    0 <= i < m.runs && !m.done[i]
}

/// The byte at which run `i` stands.
pub open spec fn head(m: MergerView, i: int) -> u8 {
    m.blocks[i][m.pos[i] as int]
}

/// Number of `true` among the first `n` of `done`.
pub open spec fn count_done(done: Seq<bool>, n: nat) -> nat
    decreases n,
{
    if n == 0 {
        0
    } else {
        count_done(done, (n - 1) as nat) + if done[n - 1] {
            1nat
        } else {
            0nat
        }
    }
}

/// Marking a run done that was not adds one to the count, for every count
/// that reaches the run.
proof fn lemma_count_done_update(done: Seq<bool>, run: int, n: nat)
    requires
        0 <= run < done.len(),
        !done[run],
        n <= done.len(),
    ensures
        count_done(done.update(run, true), n) == count_done(done, n) + if run < n {
            1nat
        } else {
            0nat
        },
    decreases n,
{
    if n > 0 {
        lemma_count_done_update(done, run, (n - 1) as nat);
    }
}

/// No more runs are done than are counted.
proof fn lemma_count_done_bound(done: Seq<bool>, n: nat)
    ensures
        count_done(done, n) <= n,
    decreases n,
{
    if n > 0 {
        lemma_count_done_bound(done, (n - 1) as nat);
    }
}

impl View for Merger {
    type V = MergerView;

    closed spec fn view(&self) -> MergerView {
        MergerView {
            runs: self.runs as nat,
            blocks: Seq::new(MAX_RUNS as nat, |i: int| self.buffers@[i]@),
            pos: Seq::new(MAX_RUNS as nat, |i: int| self.pos@[i] as nat),
            done: self.done@,
            out: self.buffers@[M - 1]@,
            out_filled: self.out_filled as nat,
            awaiting: match self.awaiting {
                Some(run) => Some(run as nat),
                None => None,
            },
        }
    }
}

impl Merger {
    /// The merge's invariant: there are no more runs than memory has room
    /// for, every position lies within its block, the runs that are done
    /// are counted, and the run that is waited for is a live one.
    pub closed spec fn wf(&self) -> bool {
        &&& self.runs <= MAX_RUNS
        &&& forall|i: int| 0 <= i < MAX_RUNS ==> (#[trigger] self.pos@[i]) < BLOCK
        &&& self.out_filled < BLOCK
        &&& self.done_with == count_done(self.done@, self.runs as nat)
        &&& self.awaiting matches Some(run) ==> run < self.runs && !self.done@[run as int]
    }

    /// What the view shows of a sound merge.
    pub proof fn lemma_view(&self)
        requires
            self.wf(),
        ensures
            self@.runs <= MAX_RUNS,
            self@.blocks.len() == MAX_RUNS,
            self@.pos.len() == MAX_RUNS,
            self@.done.len() == MAX_RUNS,
            self@.out.len() == BLOCK,
            self@.out_filled < BLOCK,
            forall|i: int| 0 <= i < MAX_RUNS ==> (#[trigger] self@.blocks[i]).len() == BLOCK,
            forall|i: int| 0 <= i < MAX_RUNS ==> (#[trigger] self@.pos[i]) < BLOCK,
            self@.awaiting matches Some(run) ==> live(self@, run as int),
    {
    }

    /// A merge of `runs` runs at its start: every run stands at the first
    /// byte of its block, nothing is put out, and all blocks hold zeros
    /// until the caller loads them. `None` where there are more runs than
    /// can be merged.
    pub fn new(runs: usize) -> (r: Option<Merger>)
        ensures
            r is Some <==> runs <= MAX_RUNS,
            r matches Some(m) ==> {
                &&& m.wf()
                &&& m@.runs == runs
                &&& m@.out_filled == 0
                &&& m@.awaiting is None
                &&& forall|i: int| 0 <= i < MAX_RUNS ==> (#[trigger] m@.pos[i]) == 0 && !m@.done[i]
                &&& forall|i: int, j: int|
                    0 <= i < MAX_RUNS && 0 <= j < BLOCK ==> (#[trigger] m@.blocks[i][j]) == 0
                &&& forall|j: int| 0 <= j < BLOCK ==> (#[trigger] m@.out[j]) == 0
            },
    {
        if runs > MAX_RUNS {
            return None;
        }
        let m = Merger {
            buffers: [[0u8; BLOCK]; M],
            pos: [0usize; MAX_RUNS],
            done: [false; MAX_RUNS],
            done_with: 0,
            out_filled: 0,
            runs,
            awaiting: None,
        };
        proof {
            Self::lemma_none_done(m.done@, runs as nat);
        }
        Some(m)
    }

    /// Where no run is done, none is counted.
    proof fn lemma_none_done(done: Seq<bool>, n: nat)
        requires
            n <= done.len(),
            forall|i: int| 0 <= i < done.len() ==> !done[i],
        ensures
            count_done(done, n) == 0,
        decreases n,
    {
        if n > 0 {
            Self::lemma_none_done(done, (n - 1) as nat);
        }
    }

    /// Number of runs that are merged.
    pub fn runs(&self) -> (n: usize)
        ensures
            n == self@.runs,
    {
        self.runs
    }

    /// The run whose next block the merge waits for, if it waits for one.
    pub fn awaiting(&self) -> (r: Option<usize>)
        ensures
            match r {
                Some(run) => self@.awaiting == Some(run as nat),
                None => self@.awaiting is None,
            },
    {
        self.awaiting
    }

    /// The block of run `run` that is in memory.
    pub fn buffer(&self, run: usize) -> (block: &[u8; BLOCK])
        requires
            run < MAX_RUNS,
        ensures
            block@ == self@.blocks[run as int],
    {
        &self.buffers[run]
    }

    /// The output block.
    pub fn output(&self) -> (block: &[u8; BLOCK])
        ensures
            block@ == self@.out,
    {
        &self.buffers[M - 1]
    }

    /// Puts the first block of run `run` into memory.
    pub fn load(&mut self, run: usize, block: [u8; BLOCK])
        requires
            old(self).wf(),
            run < MAX_RUNS,
        ensures
            final(self).wf(),
            final(self)@ == (MergerView {
                blocks: old(self)@.blocks.update(run as int, block@),
                ..old(self)@
            }),
    {
        self.buffers[run] = block;
        proof {
            assert(self@.blocks =~= old(self)@.blocks.update(run as int, block@));
            assert(self@.pos =~= old(self)@.pos);
        }
    }

    /// Chooses the byte that goes out next: the least of the bytes at which
    /// the live runs stand, taken from the last of the runs that stand at
    /// it. Where no run is live, the byte 255 of run 0 is named.
    pub fn select_min(&self) -> (r: (usize, u8))
        requires
            self.wf(),
        ensures
            r.0 < MAX_RUNS,
            (forall|i: int| !live(self@, i)) ==> r == (0usize, 255u8),
            (exists|i: int| live(self@, i)) ==> {
                &&& live(self@, r.0 as int)
                &&& r.1 == head(self@, r.0 as int)
                &&& forall|j: int| live(self@, j) ==> r.1 <= head(self@, j)
                &&& forall|j: int| live(self@, j) && head(self@, j) == r.1 ==> j <= r.0
            },
    {
        let mut min_i: usize = 0;
        let mut min: u8 = 255;
        let mut i: usize = 0;
        while i < self.runs
            invariant
                self.wf(),
                i <= self.runs,
                min_i < MAX_RUNS,
                (forall|j: int| 0 <= j < i ==> !live(self@, j)) ==> min_i == 0 && min == 255,
                (exists|j: int| 0 <= j < i && live(self@, j)) ==> {
                    &&& min_i < i
                    &&& live(self@, min_i as int)
                    &&& min == head(self@, min_i as int)
                    &&& forall|j: int| 0 <= j < i && live(self@, j) ==> min <= head(self@, j)
                    &&& forall|j: int|
                        0 <= j < i && live(self@, j) && head(self@, j) == min ==> j <= min_i
                },
            decreases self.runs - i,
        {
            proof {
                assert(self@.blocks[i as int] == self.buffers@[i as int]@);
                assert(self@.pos[i as int] == self.pos@[i as int]);
                assert(self.pos@[i as int] < BLOCK);
            }
            if !self.done[i] && self.buffers[i][self.pos[i]] <= min {
                min_i = i;
                min = self.buffers[i][self.pos[i]];
                assert(live(self@, i as int));
            }
            i += 1;
        }
        (min_i, min)
    }

    /// Moves run `run` on by one byte. Returns whether the run has come to
    /// the end of its block: the merge then waits for the run's next block,
    /// which the caller reads and hands to `refilled`.
    pub fn advance(&mut self, run: usize) -> (needs_block: bool)
        requires
            old(self).wf(),
            old(self)@.awaiting is None,
            live(old(self)@, run as int),
        ensures
            final(self).wf(),
            needs_block == (old(self)@.pos[run as int] + 1 == BLOCK),
            final(self)@ == if needs_block {
                MergerView { awaiting: Some(run as nat), ..old(self)@ }
            } else {
                MergerView {
                    pos: old(self)@.pos.update(run as int, old(self)@.pos[run as int] + 1),
                    ..old(self)@
                }
            },
    {
        proof {
            assert(self@.pos[run as int] == self.pos@[run as int]);
        }
        if self.pos[run] + 1 == BLOCK {
            self.awaiting = Some(run);
            proof {
                assert(self@.pos =~= old(self)@.pos);
                assert(self@.blocks =~= old(self)@.blocks);
            }
            true
        } else {
            self.pos[run] += 1;
            proof {
                assert(self@.pos =~= old(self)@.pos.update(
                    run as int,
                    old(self)@.pos[run as int] + 1,
                ));
                assert(self@.blocks =~= old(self)@.blocks);
            }
            false
        }
    }

    /// Takes the block that was read for the run that the merge waits for,
    /// with the number of bytes that the read gave. A read that gave nothing
    /// ends the run. Returns whether the merge is over, which it is when the
    /// last run has ended; otherwise the run stands at the first byte of
    /// the block.
    pub fn refilled(&mut self, block: [u8; BLOCK], bytes_read: usize) -> (finished: bool)
        requires
            old(self).wf(),
            old(self)@.awaiting is Some,
        ensures
            final(self).wf(),
            ({
                let run = old(self)@.awaiting->0 as int;
                let before = old(self)@;
                let ended = bytes_read == 0;
                let last = count_done(before.done, before.runs) + 1 == before.runs;
                &&& finished == (ended && last)
                &&& final(self)@ == (MergerView {
                    blocks: before.blocks.update(run, block@),
                    done: if ended {
                        before.done.update(run, true)
                    } else {
                        before.done
                    },
                    pos: if finished {
                        before.pos
                    } else {
                        before.pos.update(run, 0)
                    },
                    awaiting: None,
                    ..before
                })
            }),
    {
        let run = self.awaiting.unwrap();
        proof {
            lemma_count_done_bound(self.done@, self.runs as nat);
            lemma_count_done_update(self.done@, run as int, self.runs as nat);
        }
        self.awaiting = None;
        self.buffers[run] = block;
        if bytes_read == 0 {
            self.done[run] = true;
            self.done_with += 1;
            if self.done_with == self.runs {
                proof {
                    assert(self@.blocks =~= old(self)@.blocks.update(run as int, block@));
                    assert(self@.pos =~= old(self)@.pos);
                }
                return true;
            }
        }
        self.pos[run] = 0;
        proof {
            assert(self@.blocks =~= old(self)@.blocks.update(run as int, block@));
            assert(self@.pos =~= old(self)@.pos.update(run as int, 0));
        }
        false
    }

    /// Puts the byte `min` into the output block. Returns whether the block
    /// is full with it: the caller then writes the whole output block, and
    /// the next byte starts the block anew.
    pub fn emit(&mut self, min: u8) -> (full: bool)
        requires
            old(self).wf(),
        ensures
            final(self).wf(),
            full == (old(self)@.out_filled + 1 == BLOCK),
            final(self)@ == (MergerView {
                out: old(self)@.out.update(old(self)@.out_filled as int, min),
                out_filled: if full {
                    0
                } else {
                    old(self)@.out_filled + 1
                },
                ..old(self)@
            }),
    {
        self.buffers[M - 1][self.out_filled] = min;
        self.out_filled += 1;
        proof {
            assert(self@.blocks =~= old(self)@.blocks);
            assert(self@.pos =~= old(self)@.pos);
        }
        if self.out_filled == BLOCK {
            self.out_filled = 0;
            true
        } else {
            false
        }
    }

    /// Number of bytes of the output block that the caller writes when the
    /// merge is over: none where the block is empty, and otherwise the
    /// filled bytes and one more.
    pub fn remainder_len(&self) -> (n: usize)
        requires
            self.wf(),
        ensures
            n == if self@.out_filled > 0 {
                self@.out_filled + 1
            } else {
                0
            },
            n <= BLOCK,
    {
        if self.out_filled > 0 {
            self.out_filled + 1
        } else {
            0
        }
    }
}

} // verus!
