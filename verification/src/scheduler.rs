//! Block scheduler state machine: tracks, for every transaction of the block,
//! which incarnation is pending, executing, executed or finalized, drives
//! re-execution after an abort, commits in index order, and signals when the
//! block must fall back to sequential execution. One state per index makes it
//! impossible for two incarnations of the same transaction to run at once.

use vstd::prelude::*;
use crate::types::{TxnIndex, Incarnation};

verus! {

/// Lifecycle state of one transaction within the block.
#[derive(Clone, Copy, PartialEq, Eq, Structural, Debug)]
pub enum TxnState {
    /// Waiting for `incarnation` to be started.
    Pending { incarnation: Incarnation },
    /// `incarnation` is currently running on some worker.
    Executing { incarnation: Incarnation },
    /// `incarnation` finished and its results are recorded, not yet
    /// committed.
    Executed { incarnation: Incarnation },
    /// Committed in block order; its output is final.
    Finalized,
    /// Discarded by a skip signal; it produces an empty retry output.
    Discarded,
}

/// How a scheduler operation can fail.
#[derive(Clone, Copy, PartialEq, Eq, Structural, Debug)]
pub enum SchedulerError {
    /// The transaction was not in a state that allows the transition: a
    /// caller bug, reported loudly.
    InvalidTransition,
    /// The engine cannot make safe progress; the caller must re-execute the
    /// whole block sequentially.
    FallbackRequired,
}

/// The scheduler: per-transaction states, the in-order commit frontier, and
/// the sequential-fallback flag.
pub struct Scheduler {
    states: Vec<TxnState>,
    commit_ptr: usize,
    halted: bool,
}

impl Scheduler {
    /// The per-transaction states.
    pub closed spec fn spec_states(&self) -> Seq<TxnState> {
        self.states@
    }

    /// Index of the first transaction not yet finalized: everything below it
    /// is committed.
    pub closed spec fn spec_commit_ptr(&self) -> int {
        self.commit_ptr as int
    }

    /// Whether the scheduler has given up on parallel execution.
    pub closed spec fn spec_halted(&self) -> bool {
        self.halted
    }

    /// Finalized states form exactly the committed prefix.
    pub closed spec fn inv(&self) -> bool {
        &&& self.states@.len() <= u32::MAX as usize
        &&& self.commit_ptr <= self.states@.len()
        &&& forall|i: int|
            0 <= i < self.commit_ptr ==> #[trigger] self.states@[i] == TxnState::Finalized
        &&& forall|i: int|
            self.commit_ptr <= i < self.states@.len() ==> #[trigger] self.states@[i]
                != TxnState::Finalized
    }

    /// A scheduler for `num_txns` transactions, all pending their first
    /// incarnation.
    pub fn new(num_txns: usize) -> (r: Scheduler)
        requires
            num_txns <= u32::MAX as usize,
        ensures
            r.inv(),
            r.spec_states().len() == num_txns,
            forall|i: int|
                0 <= i < num_txns ==> #[trigger] r.spec_states()[i] == (TxnState::Pending {
                    incarnation: 0,
                }),
            r.spec_commit_ptr() == 0,
            !r.spec_halted(),
    {
        let mut states: Vec<TxnState> = Vec::new();
        let mut i: usize = 0;
        while i < num_txns
            invariant
                i <= num_txns,
                states@.len() == i,
                forall|j: int|
                    0 <= j < i ==> #[trigger] states@[j] == (TxnState::Pending { incarnation: 0 }),
            decreases num_txns - i,
        {
            states.push(TxnState::Pending { incarnation: 0 });
            i = i + 1;
        }
        Scheduler { states, commit_ptr: 0, halted: false }
    }

    /// Number of transactions in the block.
    pub fn num_txns(&self) -> (r: usize)
        ensures
            r == self.spec_states().len(),
    {
        self.states.len()
    }

    /// Whether the scheduler has signalled sequential fallback.
    pub fn is_halted(&self) -> (r: bool)
        ensures
            r == self.spec_halted(),
    {
        self.halted
    }

    /// Gives up on parallel execution: the caller must re-run the block
    /// sequentially.
    pub fn halt(&mut self)
        requires
            old(self).inv(),
        ensures
            final(self).inv(),
            final(self).spec_halted(),
            final(self).spec_states() == old(self).spec_states(),
            final(self).spec_commit_ptr() == old(self).spec_commit_ptr(),
    {
        self.halted = true;
    }

    /// Tries to hand transaction `i`'s next incarnation to a worker: only a
    /// pending transaction of a live scheduler starts, and no second worker
    /// can start the same index until it settles.
    pub fn try_start(&mut self, i: usize) -> (r: Option<Incarnation>)
        requires
            old(self).inv(),
            i < old(self).spec_states().len(),
        ensures
            final(self).inv(),
            final(self).spec_halted() == old(self).spec_halted(),
            final(self).spec_commit_ptr() == old(self).spec_commit_ptr(),
            match old(self).spec_states()[i as int] {
                TxnState::Pending { incarnation } => if old(self).spec_halted() {
                    r is None && final(self).spec_states() == old(self).spec_states()
                } else {
                    r == Some(incarnation) && final(self).spec_states() == old(
                        self,
                    ).spec_states().update(i as int, TxnState::Executing { incarnation })
                },
                _ => r is None && final(self).spec_states() == old(self).spec_states(),
            },
    {
        if self.halted {
            return None;
        }
        match self.states[i] {
            TxnState::Pending { incarnation } => {
                self.states[i] = TxnState::Executing { incarnation };
                Some(incarnation)
            },
            _ => None,
        }
    }

    /// Records that transaction `i`'s running incarnation finished executing.
    pub fn finish_execution(&mut self, i: usize) -> (r: Result<(), SchedulerError>)
        requires
            old(self).inv(),
            i < old(self).spec_states().len(),
        ensures
            final(self).inv(),
            final(self).spec_halted() == old(self).spec_halted(),
            final(self).spec_commit_ptr() == old(self).spec_commit_ptr(),
            match old(self).spec_states()[i as int] {
                TxnState::Executing { incarnation } => r == Result::<(), SchedulerError>::Ok(())
                    && final(self).spec_states() == old(self).spec_states().update(
                    i as int,
                    TxnState::Executed { incarnation },
                ),
                _ => r == Result::<(), SchedulerError>::Err(SchedulerError::InvalidTransition)
                    && final(self).spec_states() == old(self).spec_states(),
            },
    {
        match self.states[i] {
            TxnState::Executing { incarnation } => {
                self.states[i] = TxnState::Executed { incarnation };
                Ok(())
            },
            _ => Err(SchedulerError::InvalidTransition),
        }
    }

    /// Aborts transaction `i`'s current incarnation (its writes were flagged
    /// as estimates) and schedules the next incarnation. A transaction that
    /// is neither executing nor executed cannot be aborted; an incarnation
    /// counter that can no longer grow halts the scheduler for sequential
    /// fallback.
    pub fn abort(&mut self, i: usize) -> (r: Result<Incarnation, SchedulerError>)
        requires
            old(self).inv(),
            i < old(self).spec_states().len(),
        ensures
            final(self).inv(),
            final(self).spec_commit_ptr() == old(self).spec_commit_ptr(),
            match old(self).spec_states()[i as int] {
                TxnState::Executing { incarnation } | TxnState::Executed { incarnation } => if incarnation
                    < u32::MAX {
                    &&& r == Result::<Incarnation, SchedulerError>::Ok((incarnation + 1) as u32)
                    &&& final(self).spec_states() == old(self).spec_states().update(
                        i as int,
                        TxnState::Pending { incarnation: (incarnation + 1) as u32 },
                    )
                    &&& final(self).spec_halted() == old(self).spec_halted()
                } else {
                    &&& r == Result::<Incarnation, SchedulerError>::Err(
                        SchedulerError::FallbackRequired,
                    )
                    &&& final(self).spec_states() == old(self).spec_states()
                    &&& final(self).spec_halted()
                },
                _ => {
                    &&& r == Result::<Incarnation, SchedulerError>::Err(
                        SchedulerError::InvalidTransition,
                    )
                    &&& final(self).spec_states() == old(self).spec_states()
                    &&& final(self).spec_halted() == old(self).spec_halted()
                },
            },
    {
        let incarnation = match self.states[i] {
            TxnState::Executing { incarnation } => incarnation,
            TxnState::Executed { incarnation } => incarnation,
            _ => {
                return Err(SchedulerError::InvalidTransition);
            },
        };
        if incarnation == u32::MAX {
            self.halted = true;
            Err(SchedulerError::FallbackRequired)
        } else {
            self.states[i] = TxnState::Pending { incarnation: incarnation + 1 };
            Ok(incarnation + 1)
        }
    }

    /// Tries to finalize the next transaction in block order: the commit
    /// frontier advances only over an executed transaction, so nothing is
    /// finalized before everything below it.
    pub fn try_commit(&mut self) -> (r: Option<TxnIndex>)
        requires
            old(self).inv(),
        ensures
            final(self).inv(),
            final(self).spec_halted() == old(self).spec_halted(),
            ({
                let p = old(self).spec_commit_ptr();
                if p < old(self).spec_states().len() && (old(self).spec_states()[p]
                    is Executed) {
                    &&& r == Some(p as TxnIndex)
                    &&& final(self).spec_commit_ptr() == p + 1
                    &&& final(self).spec_states() == old(self).spec_states().update(
                        p,
                        TxnState::Finalized,
                    )
                } else {
                    &&& r is None
                    &&& final(self).spec_commit_ptr() == p
                    &&& final(self).spec_states() == old(self).spec_states()
                }
            }),
    {
        if self.commit_ptr < self.states.len() {
            match self.states[self.commit_ptr] {
                TxnState::Executed { .. } => {
                    let p = self.commit_ptr;
                    self.states[p] = TxnState::Finalized;
                    self.commit_ptr = p + 1;
                    proof {
                        assert(self.states@.len() <= u32::MAX as usize);
                    }
                    Some(p as TxnIndex)
                },
                _ => None,
            }
        } else {
            None
        }
    }

    /// Discards every not-yet-finalized transaction from `from` on, as after
    /// a signal to skip the rest of the block.
    pub fn skip_rest(&mut self, from: usize)
        requires
            old(self).inv(),
            old(self).spec_commit_ptr() <= from,
        ensures
            final(self).inv(),
            final(self).spec_halted() == old(self).spec_halted(),
            final(self).spec_commit_ptr() == old(self).spec_commit_ptr(),
            final(self).spec_states().len() == old(self).spec_states().len(),
            forall|i: int|
                0 <= i < from && i < old(self).spec_states().len()
                    ==> #[trigger] final(self).spec_states()[i] == old(self).spec_states()[i],
            forall|i: int|
                from <= i < old(self).spec_states().len() ==> #[trigger] final(self).spec_states()[i]
                    == TxnState::Discarded,
    {
        let mut i: usize = if from < self.states.len() {
            from
        } else {
            self.states.len()
        };
        while i < self.states.len()
            invariant
                old(self).inv(),
                from >= old(self).spec_commit_ptr(),
                i <= self.states@.len(),
                from <= i || i == self.states@.len(),
                self.states@.len() == old(self).spec_states().len(),
                self.commit_ptr == old(self).commit_ptr,
                self.halted == old(self).halted,
                forall|j: int|
                    0 <= j < self.states@.len() && !(from <= j < i) ==> #[trigger] self.states@[j]
                        == old(self).spec_states()[j],
                forall|j: int|
                    from <= j < i ==> #[trigger] self.states@[j] == TxnState::Discarded,
            decreases self.states@.len() - i,
    {
            self.states[i] = TxnState::Discarded;
            i = i + 1;
        }
    }
}

} // verus!
