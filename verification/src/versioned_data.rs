//! Multi-version data store: per key, an index-ordered chain of speculative
//! entries (writes and deltas), and the read-resolution algorithm that scans
//! the chain downward from a reader's transaction index, accumulating deltas
//! until a write, a cached shortcut, or the bottom of the chain decides the
//! outcome.

use vstd::prelude::*;
use crate::types::{
    TxnIndex,
    Incarnation,
    LayoutId,
    StoreKey,
    Flag,
    Value,
    ValueSpec,
    FatalError,
    spec_bytes_len,
};
use crate::delta::{
    DeltaOp,
    DeltaUpdate,
    delta_wf,
    spec_merge,
    spec_apply,
    apply_all,
    lemma_delta_contribution_commutative,
};

verus! {

/// Content of one chain entry: a versioned write, or a delta with an optional
/// cached resolution ("shortcut") recorded at commit time.
#[derive(Debug)]
pub enum EntryCell {
    Write { incarnation: Incarnation, value: Value, layout: Option<LayoutId> },
    Delta { op: DeltaOp, shortcut: Option<u128> },
}

/// One entry of a versioned chain: its content and its estimate flag.
#[derive(Debug)]
pub struct Entry {
    pub cell: EntryCell,
    pub flag: Flag,
}

impl Entry {
    /// A freshly written entry, not an estimate.
    pub fn new_write_from(incarnation: Incarnation, value: Value, layout: Option<LayoutId>) -> (r:
        Entry)
        ensures
            r == (Entry {
                cell: EntryCell::Write { incarnation, value, layout },
                flag: Flag::Done,
            }),
    {
        Entry { cell: EntryCell::Write { incarnation, value, layout }, flag: Flag::Done }
    }

    /// A freshly recorded delta entry, with no shortcut yet.
    pub fn new_delta_from(op: DeltaOp) -> (r: Entry)
        ensures
            r == (Entry { cell: EntryCell::Delta { op, shortcut: None }, flag: Flag::Done }),
    {
        Entry { cell: EntryCell::Delta { op, shortcut: None }, flag: Flag::Done }
    }
}

/// A chain slot: the shifted transaction index (0 is the storage sentinel,
/// `i + 1` stands for transaction `i`) and the entry recorded there.
pub struct ChainEntry {
    pub sidx: u64,
    pub entry: Entry,
}

/// Shifted chain position of transaction `i`.
pub open spec fn spec_shift(i: TxnIndex) -> u64 {
    (i + 1) as u64
}

/// The version a read reports for a resolved write: `None` for the storage
/// sentinel, the transaction index and incarnation otherwise.
pub open spec fn version_of(sidx: u64, incarnation: Incarnation) -> Option<(TxnIndex, Incarnation)> {
    if sidx == 0 {
        None
    } else {
        Some((((sidx - 1) as TxnIndex), incarnation))
    }
}

/// State of the delta accumulator while a read scans downward: nothing
/// accumulated yet, a merged delta, or a poisoned accumulator after a failed
/// merge (scanning continues; a deletion further down can still rescue the
/// read).
#[derive(Clone, Copy, PartialEq, Eq, Structural, Debug)]
pub enum DeltaAcc {
    Empty,
    Merged(DeltaOp),
    Poisoned,
}

/// Outcome of resolving a read against one key's chain.
#[allow(inconsistent_fields)]
pub enum ReadOutcome {
    /// The read resolves to a recorded write.
    Versioned { version: Option<(TxnIndex, Incarnation)>, value: ValueSpec, layout: Option<
        LayoutId,
    > },
    /// The read resolves to a concrete counter value through deltas.
    Resolved { value: u128 },
    /// The scan hit an estimate recorded by transaction `idx`; the reader
    /// must retry once that transaction settles.
    Dependency { idx: TxnIndex },
    /// The chain was exhausted with a pending delta; the caller must apply it
    /// to an externally supplied base value.
    Unresolved { delta: DeltaOp },
    /// The chain was exhausted and no entry was ever seen.
    Uninitialized,
    /// Delta arithmetic left `[0, max_value]` on the committed path.
    ApplyFailure,
    /// Deltas were accumulated over a write whose payload is not numeric;
    /// the store cannot resolve such a read.
    NonNumeric,
}

/// Outcome when the scan has exhausted the chain.
pub open spec fn read_finish(acc: DeltaAcc) -> ReadOutcome {
    match acc {
        DeltaAcc::Empty => ReadOutcome::Uninitialized,
        DeltaAcc::Merged(d) => ReadOutcome::Unresolved { delta: d },
        DeltaAcc::Poisoned => ReadOutcome::ApplyFailure,
    }
}

/// Accumulator after composing one more (earlier) delta below the current
/// accumulated delta. A malformed pair or a combination whose magnitude
/// leaves the bound poisons the accumulator.
pub open spec fn acc_step(acc: DeltaAcc, op: DeltaOp) -> DeltaAcc {
    match acc {
        DeltaAcc::Empty => DeltaAcc::Merged(op),
        DeltaAcc::Merged(a) => if delta_wf(a) && delta_wf(op) && a.max_value == op.max_value
            && spec_merge(a, op) is Some {
            DeltaAcc::Merged(spec_merge(a, op)->Some_0)
        } else {
            DeltaAcc::Poisoned
        },
        DeltaAcc::Poisoned => DeltaAcc::Poisoned,
    }
}

/// Applying the accumulated delta on top of a concrete counter value.
pub open spec fn acc_apply(acc: DeltaAcc, base: u128) -> ReadOutcome
    recommends
        !(acc is Empty),
{
    match acc {
        DeltaAcc::Empty => ReadOutcome::Resolved { value: base },
        DeltaAcc::Merged(a) => match spec_apply(a, base) {
            Some(v) => ReadOutcome::Resolved { value: v },
            None => ReadOutcome::ApplyFailure,
        },
        DeltaAcc::Poisoned => ReadOutcome::ApplyFailure,
    }
}

/// Read resolution over the chain suffix `s`, scanning from the highest index
/// downward, considering only entries strictly below `bound` and carrying the
/// delta accumulator `acc`.
pub open spec fn spec_read_rec(s: Seq<ChainEntry>, bound: u64, acc: DeltaAcc) -> ReadOutcome
    decreases s.len(),
{
    if s.len() == 0 {
        read_finish(acc)
    } else {
        let e = s.last();
        if e.sidx >= bound {
            spec_read_rec(s.drop_last(), bound, acc)
        } else if e.entry.flag == Flag::Estimate {
            ReadOutcome::Dependency { idx: (e.sidx - 1) as TxnIndex }
        } else {
            match e.entry.cell {
                EntryCell::Write { incarnation, value, layout } => {
                    if acc is Empty {
                        ReadOutcome::Versioned {
                            version: version_of(e.sidx, incarnation),
                            value: value@,
                            layout,
                        }
                    } else {
                        match value@ {
                            // A deletion takes precedence over any
                            // accumulated deltas above it.
                            ValueSpec::Deletion => ReadOutcome::Versioned {
                                version: version_of(e.sidx, incarnation),
                                value: value@,
                                layout,
                            },
                            ValueSpec::Numeric(base) => acc_apply(acc, base),
                            ValueSpec::Opaque(_) => ReadOutcome::NonNumeric,
                        }
                    }
                },
                EntryCell::Delta { op, shortcut } => {
                    match shortcut {
                        Some(sv) => if acc is Empty {
                            ReadOutcome::Resolved { value: sv }
                        } else {
                            acc_apply(acc, sv)
                        },
                        None => spec_read_rec(s.drop_last(), bound, acc_step(acc, op)),
                    }
                },
            }
        }
    }
}

/// Read resolution for a reader at shifted bound `bound`: the outcome of the
/// downward scan starting with an empty accumulator.
pub open spec fn spec_read(s: Seq<ChainEntry>, bound: u64) -> ReadOutcome {
    spec_read_rec(s, bound, DeltaAcc::Empty)
}

/// Well-formedness of one key's chain: entries are strictly ordered by
/// shifted index, every index fits a shifted `TxnIndex`, and the storage
/// sentinel (if present) is a committed base write that is never an estimate.
pub open spec fn chain_wf(s: Seq<ChainEntry>) -> bool {
    &&& forall|i: int, j: int| 0 <= i < j < s.len() ==> s[i].sidx < s[j].sidx
    &&& forall|i: int| 0 <= i < s.len() ==> #[trigger] s[i].sidx <= u32::MAX as u64 + 1
    &&& forall|i: int|
        0 <= i < s.len() && #[trigger] s[i].sidx == 0 ==> s[i].entry.flag == Flag::Done && (
        s[i].entry.cell matches EntryCell::Write { incarnation, .. } && incarnation == 0)
}

/// Position of the entry with shifted index `sidx` in the chain, or -1 when
/// no entry carries that index.
pub open spec fn chain_find(s: Seq<ChainEntry>, sidx: u64) -> int
    decreases s.len(),
{
    if s.len() == 0 {
        -1
    } else if s[0].sidx == sidx {
        0
    } else {
        let r = chain_find(s.skip(1), sidx);
        if r == -1 {
            -1
        } else {
            r + 1
        }
    }
}

/// Number of entries whose shifted index lies strictly below `sidx`; in a
/// sorted chain this is where a fresh entry for `sidx` belongs.
pub open spec fn num_below(s: Seq<ChainEntry>, sidx: u64) -> int
    decreases s.len(),
{
    if s.len() == 0 {
        0
    } else {
        (if s[0].sidx < sidx {
            1int
        } else {
            0int
        }) + num_below(s.skip(1), sidx)
    }
}

/// The chain after recording `e` at shifted index `sidx`: an existing entry
/// at that index is replaced, otherwise the entry is inserted in order.
pub open spec fn chain_upsert(s: Seq<ChainEntry>, sidx: u64, e: Entry) -> Seq<ChainEntry> {
    let f = chain_find(s, sidx);
    if f >= 0 {
        s.update(f, ChainEntry { sidx, entry: e })
    } else {
        let p = num_below(s, sidx);
        s.take(p) + seq![ChainEntry { sidx, entry: e }] + s.skip(p)
    }
}

/// `chain_find` lands in bounds, on the sought index when it finds one, and
/// only reports absence when no entry carries the index.
pub proof fn lemma_chain_find_bounds(s: Seq<ChainEntry>, sidx: u64)
    ensures
        -1 <= chain_find(s, sidx) < s.len(),
        chain_find(s, sidx) >= 0 ==> s[chain_find(s, sidx)].sidx == sidx,
        chain_find(s, sidx) == -1 ==> forall|i: int| 0 <= i < s.len() ==> s[i].sidx != sidx,
    decreases s.len(),
{
    if s.len() > 0 && s[0].sidx != sidx {
        lemma_chain_find_bounds(s.skip(1), sidx);
        assert forall|i: int| 0 <= i < s.len() && chain_find(s, sidx) == -1 implies s[i].sidx
            != sidx by {
            if i > 0 {
                assert(s.skip(1)[i - 1] == s[i]);
            }
        }
    }
}

proof fn lemma_num_below_bounds(s: Seq<ChainEntry>, sidx: u64)
    ensures
        0 <= num_below(s, sidx) <= s.len(),
    decreases s.len(),
{
    if s.len() > 0 {
        lemma_num_below_bounds(s.skip(1), sidx);
    }
}

/// A pointwise property of every chain entry survives recording one more
/// entry that itself has the property.
pub proof fn lemma_chain_upsert_preserves(
    c: Seq<ChainEntry>,
    sidx: u64,
    e: Entry,
    p: spec_fn(ChainEntry) -> bool,
)
    requires
        forall|t: int| 0 <= t < c.len() ==> p(#[trigger] c[t]),
        p(ChainEntry { sidx, entry: e }),
    ensures
        forall|t: int|
            0 <= t < chain_upsert(c, sidx, e).len() ==> p(#[trigger] chain_upsert(c, sidx, e)[t]),
{
    lemma_chain_find_bounds(c, sidx);
    let f = chain_find(c, sidx);
    let c2 = chain_upsert(c, sidx, e);
    if f >= 0 {
        assert forall|t: int| 0 <= t < c2.len() implies p(c2[t]) by {
            if t != f {
                assert(c2[t] == c[t]);
            }
        }
    } else {
        lemma_num_below_bounds(c, sidx);
        let pos = num_below(c, sidx);
        assert forall|t: int| 0 <= t < c2.len() implies p(c2[t]) by {
            if t < pos {
                assert(c2[t] == c[t]);
            } else if t == pos {
                assert(c2[t] == ChainEntry { sidx, entry: e });
            } else {
                assert(c2[t] == c[t - 1]);
            }
        }
    }
}

proof fn lemma_chain_find_at(s: Seq<ChainEntry>, sidx: u64, j: int)
    requires
        forall|i1: int, i2: int| 0 <= i1 < i2 < s.len() ==> s[i1].sidx < s[i2].sidx,
        0 <= j < s.len(),
        s[j].sidx == sidx,
    ensures
        chain_find(s, sidx) == j,
    decreases s.len(),
{
    if j == 0 {
    } else {
        assert(s[0].sidx < s[j].sidx);
        assert(forall|i1: int, i2: int|
            0 <= i1 < i2 < s.skip(1).len() ==> s.skip(1)[i1].sidx < s.skip(1)[i2].sidx);
        assert(s.skip(1)[j - 1] == s[j]);
        lemma_chain_find_at(s.skip(1), sidx, j - 1);
    }
}

proof fn lemma_num_below_at(s: Seq<ChainEntry>, sidx: u64, p: int)
    requires
        0 <= p <= s.len(),
        forall|i: int| 0 <= i < p ==> s[i].sidx < sidx,
        forall|i: int| p <= i < s.len() ==> s[i].sidx >= sidx,
    ensures
        num_below(s, sidx) == p,
    decreases s.len(),
{
    if s.len() == 0 {
    } else if p == 0 {
        assert forall|i: int| 0 <= i < s.skip(1).len() implies s.skip(1)[i].sidx >= sidx by {
            assert(s.skip(1)[i] == s[i + 1]);
        }
        lemma_num_below_at(s.skip(1), sidx, 0);
    } else {
        assert forall|i: int| 0 <= i < p - 1 implies s.skip(1)[i].sidx < sidx by {
            assert(s.skip(1)[i] == s[i + 1]);
        }
        assert forall|i: int| p - 1 <= i < s.skip(1).len() implies s.skip(1)[i].sidx >= sidx by {
            assert(s.skip(1)[i] == s[i + 1]);
        }
        lemma_num_below_at(s.skip(1), sidx, p - 1);
    }
}

/// Result of a read as the caller sees it: a successful resolution, or one of
/// the read errors.
#[derive(Debug)]
pub enum MVDataOutput {
    /// The resolved write: its version, the stored value, its layout.
    Versioned(Option<(TxnIndex, Incarnation)>, Value, Option<LayoutId>),
    /// The concrete counter value resolved through deltas.
    Resolved(u128),
}

/// The ways a read can fail to resolve to a value.
#[derive(Clone, Copy, PartialEq, Eq, Structural, Debug)]
pub enum MVDataError {
    /// An estimate was hit at this transaction index; retry later.
    Dependency(TxnIndex),
    /// No write below the reader; the accumulated delta must be applied to an
    /// externally supplied base value.
    Unresolved(DeltaOp),
    /// The chain holds nothing below the reader.
    Uninitialized,
    /// Delta arithmetic left `[0, max_value]`.
    DeltaApplicationFailure,
}

/// Whether the executable read result `r` reports exactly the mathematical
/// outcome `o`.
pub open spec fn outcome_matches(r: Result<MVDataOutput, MVDataError>, o: ReadOutcome) -> bool {
    match o {
        ReadOutcome::Versioned { version, value, layout } => r matches Ok(
            MVDataOutput::Versioned(rv, rval, rl),
        ) && rv == version && rval@ == value && rl == layout,
        ReadOutcome::Resolved { value } => r matches Ok(MVDataOutput::Resolved(rv)) && rv == value,
        ReadOutcome::Dependency { idx } => r == Result::<MVDataOutput, MVDataError>::Err(
            MVDataError::Dependency(idx),
        ),
        ReadOutcome::Unresolved { delta } => r == Result::<MVDataOutput, MVDataError>::Err(
            MVDataError::Unresolved(delta),
        ),
        ReadOutcome::Uninitialized => r == Result::<MVDataOutput, MVDataError>::Err(
            MVDataError::Uninitialized,
        ),
        ReadOutcome::ApplyFailure => r == Result::<MVDataOutput, MVDataError>::Err(
            MVDataError::DeltaApplicationFailure,
        ),
        ReadOutcome::NonNumeric => false,
    }
}

/// One key's chain of versioned entries, ordered by shifted transaction
/// index.
pub struct VersionedValue {
    entries: Vec<ChainEntry>,
}

impl View for VersionedValue {
    type V = Seq<ChainEntry>;

    closed spec fn view(&self) -> Seq<ChainEntry> {
        self.entries@
    }
}

impl VersionedValue {
    /// An empty chain.
    pub fn new() -> (r: VersionedValue)
        ensures
            r@ == Seq::<ChainEntry>::empty(),
    {
        VersionedValue { entries: Vec::new() }
    }

    /// First position whose shifted index is at least `sidx`; the chain is
    /// ordered, so everything before it lies strictly below `sidx`.
    fn lower_bound(&self, sidx: u64) -> (p: usize)
        requires
            chain_wf(self@),
        ensures
            p <= self@.len(),
            forall|i: int| 0 <= i < p ==> self@[i].sidx < sidx,
            forall|i: int| p <= i < self@.len() ==> self@[i].sidx >= sidx,
    {
        let mut p: usize = self.entries.len();
        while p > 0 && self.entries[p - 1].sidx >= sidx
            invariant
                p <= self@.len(),
                chain_wf(self@),
                forall|i: int| p <= i < self@.len() ==> self@[i].sidx >= sidx,
            decreases p,
        {
            p = p - 1;
        }
        p
    }

    /// Position of the entry recorded at `sidx`, if any.
    fn position_of(&self, sidx: u64) -> (r: Option<usize>)
        requires
            chain_wf(self@),
        ensures
            match r {
                Some(p) => chain_find(self@, sidx) == p && p < self@.len() && self@[p as int].sidx
                    == sidx,
                None => chain_find(self@, sidx) == -1,
            },
    {
        let p = self.lower_bound(sidx);
        if p < self.entries.len() && self.entries[p].sidx == sidx {
            proof {
                lemma_chain_find_at(self@, sidx, p as int);
            }
            Some(p)
        } else {
            proof {
                lemma_chain_find_bounds(self@, sidx);
                if chain_find(self@, sidx) >= 0 {
                    let f = chain_find(self@, sidx);
                    assert(self@[f].sidx == sidx);
                    assert(false);
                }
            }
            None
        }
    }

    /// Records `entry` at shifted index `sidx`, replacing an existing entry
    /// at that index or inserting a fresh one in order.
    fn upsert(&mut self, sidx: u64, entry: Entry)
        requires
            chain_wf(old(self)@),
            sidx <= u32::MAX as u64 + 1,
            sidx == 0 ==> entry.flag == Flag::Done && (entry.cell matches EntryCell::Write {
                incarnation,
                ..
            } && incarnation == 0),
        ensures
            final(self)@ == chain_upsert(old(self)@, sidx, entry),
            chain_wf(final(self)@),
    {
        let p = self.lower_bound(sidx);
        if p < self.entries.len() && self.entries[p].sidx == sidx {
            proof {
                lemma_chain_find_at(self@, sidx, p as int);
            }
            self.entries[p] = ChainEntry { sidx, entry };
            proof {
                assert(forall|i: int|
                    0 <= i < self@.len() ==> #[trigger] self@[i].sidx == old(self)@[i].sidx);
            }
        } else {
            proof {
                lemma_chain_find_bounds(self@, sidx);
                if chain_find(self@, sidx) >= 0 {
                    let f = chain_find(self@, sidx);
                    assert(self@[f].sidx == sidx);
                    assert(false);
                }
                lemma_num_below_at(self@, sidx, p as int);
            }
            self.entries.insert(p, ChainEntry { sidx, entry });
            proof {
                assert(self@ =~= old(self)@.take(p as int) + seq![
                    ChainEntry { sidx, entry },
                ] + old(self)@.skip(p as int));
            }
        }
    }

    /// Flips the entry at position `p` to an estimate, keeping its content.
    fn set_estimate(&mut self, p: usize)
        requires
            chain_wf(old(self)@),
            p < old(self)@.len(),
            old(self)@[p as int].sidx != 0,
        ensures
            final(self)@ == old(self)@.update(
                p as int,
                ChainEntry {
                    sidx: old(self)@[p as int].sidx,
                    entry: Entry { cell: old(self)@[p as int].entry.cell, flag: Flag::Estimate },
                },
            ),
            chain_wf(final(self)@),
    {
        self.entries[p].entry.flag = Flag::Estimate;
        proof {
            assert(self@ =~= old(self)@.update(
                p as int,
                ChainEntry {
                    sidx: old(self)@[p as int].sidx,
                    entry: Entry { cell: old(self)@[p as int].entry.cell, flag: Flag::Estimate },
                },
            ));
            assert(forall|i: int|
                0 <= i < self@.len() ==> #[trigger] self@[i].sidx == old(self)@[i].sidx);
        }
    }

    /// Records the resolved value `v` as the shortcut of the delta entry at
    /// position `p`, keeping its delta and flag.
    fn set_shortcut(&mut self, p: usize, v: u128)
        requires
            chain_wf(old(self)@),
            p < old(self)@.len(),
            old(self)@[p as int].entry.cell is Delta,
        ensures
            final(self)@ == old(self)@.update(
                p as int,
                ChainEntry {
                    sidx: old(self)@[p as int].sidx,
                    entry: Entry {
                        cell: EntryCell::Delta {
                            op: old(self)@[p as int].entry.cell->Delta_op,
                            shortcut: Some(v),
                        },
                        flag: old(self)@[p as int].entry.flag,
                    },
                },
            ),
            chain_wf(final(self)@),
    {
        let op = match &self.entries[p].entry.cell {
            EntryCell::Delta { op, .. } => *op,
            EntryCell::Write { .. } => {
                proof {
                    assert(false);
                }
                DeltaOp { update: DeltaUpdate::Plus(0), max_value: 0 }
            },
        };
        self.entries[p].entry.cell = EntryCell::Delta { op, shortcut: Some(v) };
        proof {
            assert(self@ =~= old(self)@.update(
                p as int,
                ChainEntry {
                    sidx: old(self)@[p as int].sidx,
                    entry: Entry {
                        cell: EntryCell::Delta {
                            op: old(self)@[p as int].entry.cell->Delta_op,
                            shortcut: Some(v),
                        },
                        flag: old(self)@[p as int].entry.flag,
                    },
                },
            ));
            assert(forall|i: int|
                0 <= i < self@.len() ==> #[trigger] self@[i].sidx == old(self)@[i].sidx);
        }
    }

    /// Removes the entry at position `p`.
    fn remove_at(&mut self, p: usize)
        requires
            chain_wf(old(self)@),
            p < old(self)@.len(),
        ensures
            final(self)@ == old(self)@.remove(p as int),
            chain_wf(final(self)@),
    {
        self.entries.remove(p);
        proof {
            assert forall|i: int, j: int|
                0 <= i < j < self@.len() implies self@[i].sidx < self@[j].sidx by {
                if j < p {
                } else if i < p {
                    assert(self@[j] == old(self)@[j + 1]);
                } else {
                    assert(self@[i] == old(self)@[i + 1]);
                    assert(self@[j] == old(self)@[j + 1]);
                }
            }
        }
    }

    /// Resolves a read by transaction `txn_idx` against this chain: scans
    /// entries strictly below the reader downward, accumulating deltas, until
    /// a write, a shortcut, or the exhausted chain decides the outcome.
    pub fn read(&self, txn_idx: TxnIndex) -> (r: Result<MVDataOutput, MVDataError>)
        requires
            chain_wf(self@),
            !(spec_read(self@, spec_shift(txn_idx)) is NonNumeric),
        ensures
            outcome_matches(r, spec_read(self@, spec_shift(txn_idx))),
    {
        let bound: u64 = txn_idx as u64 + 1;
        let ghost target = spec_read(self@, spec_shift(txn_idx));
        let mut i: usize = self.entries.len();
        let mut acc = DeltaAcc::Empty;
        proof {
            assert(self@.take(i as int) =~= self@);
        }
        while i > 0
            invariant
                i <= self.entries.len(),
                bound == spec_shift(txn_idx),
                chain_wf(self@),
                target == spec_read(self@, spec_shift(txn_idx)),
                !(target is NonNumeric),
                spec_read_rec(self@.take(i as int), bound, acc) == target,
            decreases i,
        {
            proof {
                assert(self@.take(i as int).last() == self@[i - 1]);
                assert(self@.take(i as int).drop_last() =~= self@.take(i - 1));
            }
            let e = &self.entries[i - 1];
            if e.sidx >= bound {
                i = i - 1;
            } else if matches!(e.entry.flag, Flag::Estimate) {
                proof {
                    // the sentinel is never an estimate, so the index shifts
                    // back without underflow
                    assert(self@[i - 1].sidx != 0);
                }
                return Err(MVDataError::Dependency((e.sidx - 1) as TxnIndex));
            } else {
                match &e.entry.cell {
                    EntryCell::Write { incarnation, value, layout } => {
                        let version: Option<(TxnIndex, Incarnation)> = if e.sidx == 0 {
                            None
                        } else {
                            Some(((e.sidx - 1) as TxnIndex, *incarnation))
                        };
                        if matches!(acc, DeltaAcc::Empty) {
                            return Ok(MVDataOutput::Versioned(version, value.clone(), *layout));
                        } else {
                            match value.as_u128() {
                                Ok(None) => {
                                    // deletion wins over accumulated deltas
                                    return Ok(
                                        MVDataOutput::Versioned(version, value.clone(), *layout),
                                    );
                                },
                                Ok(Some(base)) => {
                                    match acc {
                                        DeltaAcc::Merged(a) => {
                                            match a.apply(base) {
                                                Ok(v) => {
                                                    return Ok(MVDataOutput::Resolved(v));
                                                },
                                                Err(_) => {
                                                    return Err(
                                                        MVDataError::DeltaApplicationFailure,
                                                    );
                                                },
                                            }
                                        },
                                        _ => {
                                            return Err(MVDataError::DeltaApplicationFailure);
                                        },
                                    }
                                },
                                Err(_) => {
                                    proof {
                                        // excluded by the caller: deltas are
                                        // never accumulated over an opaque
                                        // payload
                                        assert(target is NonNumeric);
                                        assert(false);
                                    }
                                    return Err(MVDataError::DeltaApplicationFailure);
                                },
                            }
                        }
                    },
                    EntryCell::Delta { op, shortcut } => {
                        match shortcut {
                            Some(sv) => {
                                match acc {
                                    DeltaAcc::Empty => {
                                        return Ok(MVDataOutput::Resolved(*sv));
                                    },
                                    DeltaAcc::Merged(a) => {
                                        match a.apply(*sv) {
                                            Ok(v) => {
                                                return Ok(MVDataOutput::Resolved(v));
                                            },
                                            Err(_) => {
                                                return Err(MVDataError::DeltaApplicationFailure);
                                            },
                                        }
                                    },
                                    DeltaAcc::Poisoned => {
                                        return Err(MVDataError::DeltaApplicationFailure);
                                    },
                                }
                            },
                            None => {
                                acc = match acc {
                                    DeltaAcc::Empty => DeltaAcc::Merged(*op),
                                    DeltaAcc::Merged(a) => {
                                        if a.check_wf() && op.check_wf() && a.max_value
                                            == op.max_value {
                                            match a.merge(*op) {
                                                Ok(m) => DeltaAcc::Merged(m),
                                                Err(_) => DeltaAcc::Poisoned,
                                            }
                                        } else {
                                            DeltaAcc::Poisoned
                                        }
                                    },
                                    DeltaAcc::Poisoned => DeltaAcc::Poisoned,
                                };
                                i = i - 1;
                            },
                        }
                    },
                }
            }
        }
        proof {
            assert(self@.take(0) =~= Seq::<ChainEntry>::empty());
        }
        match acc {
            DeltaAcc::Empty => Err(MVDataError::Uninitialized),
            DeltaAcc::Merged(d) => Err(MVDataError::Unresolved(d)),
            DeltaAcc::Poisoned => Err(MVDataError::DeltaApplicationFailure),
        }
    }
}

/// One key's slot in the store.
struct KeySlot {
    key: StoreKey,
    chain: VersionedValue,
}

/// Position of `key` among the store's rows, or -1 when the key has no row.
spec fn spec_row_of(rows: Seq<KeySlot>, key: StoreKey) -> int
    decreases rows.len(),
{
    if rows.len() == 0 {
        -1
    } else if rows[0].key == key {
        0
    } else {
        let r = spec_row_of(rows.skip(1), key);
        if r == -1 {
            -1
        } else {
            r + 1
        }
    }
}

proof fn lemma_row_of_bounds(rows: Seq<KeySlot>, key: StoreKey)
    ensures
        -1 <= spec_row_of(rows, key) < rows.len(),
        spec_row_of(rows, key) >= 0 ==> rows[spec_row_of(rows, key)].key == key,
        spec_row_of(rows, key) == -1 ==> forall|i: int| 0 <= i < rows.len() ==> rows[i].key != key,
    decreases rows.len(),
{
    if rows.len() > 0 && rows[0].key != key {
        lemma_row_of_bounds(rows.skip(1), key);
        assert forall|i: int|
            0 <= i < rows.len() && spec_row_of(rows, key) == -1 implies rows[i].key != key by {
            if i > 0 {
                assert(rows.skip(1)[i - 1] == rows[i]);
            }
        }
    }
}

proof fn lemma_row_of_same_keys(r1: Seq<KeySlot>, r2: Seq<KeySlot>)
    requires
        r1.len() == r2.len(),
        forall|j: int| 0 <= j < r1.len() ==> r1[j].key == r2[j].key,
    ensures
        forall|k: StoreKey| #[trigger] spec_row_of(r2, k) == spec_row_of(r1, k),
    decreases r1.len(),
{
    if r1.len() > 0 {
        assert forall|j: int|
            0 <= j < r1.skip(1).len() implies r1.skip(1)[j].key == r2.skip(1)[j].key by {
            assert(r1.skip(1)[j] == r1[j + 1]);
            assert(r2.skip(1)[j] == r2[j + 1]);
        }
        lemma_row_of_same_keys(r1.skip(1), r2.skip(1));
        assert(r1[0].key == r2[0].key);
        assert forall|k: StoreKey| #[trigger] spec_row_of(r2, k) == spec_row_of(r1, k) by {
            if r1[0].key != k {
                assert(spec_row_of(r2.skip(1), k) == spec_row_of(r1.skip(1), k));
            }
        }
    }
}

proof fn lemma_row_of_push(rows: Seq<KeySlot>, slot: KeySlot)
    ensures
        forall|k: StoreKey|
            k != slot.key ==> #[trigger] spec_row_of(rows.push(slot), k) == spec_row_of(rows, k),
        spec_row_of(rows, slot.key) >= 0 ==> spec_row_of(rows.push(slot), slot.key) == spec_row_of(
            rows,
            slot.key,
        ),
        spec_row_of(rows, slot.key) == -1 ==> spec_row_of(rows.push(slot), slot.key) == rows.len(),
    decreases rows.len(),
{
    if rows.len() == 0 {
        assert(rows.push(slot)[0] == slot);
        assert(rows.push(slot).skip(1) =~= Seq::<KeySlot>::empty());
        assert forall|k: StoreKey|
            k != slot.key implies #[trigger] spec_row_of(rows.push(slot), k) == spec_row_of(
            rows,
            k,
        ) by {
            assert(spec_row_of(rows.push(slot).skip(1), k) == -1);
        }
    } else {
        assert(rows.push(slot).skip(1) =~= rows.skip(1).push(slot));
        lemma_row_of_push(rows.skip(1), slot);
        assert(rows.push(slot)[0] == rows[0]);
        assert forall|k: StoreKey|
            k != slot.key implies #[trigger] spec_row_of(rows.push(slot), k) == spec_row_of(
            rows,
            k,
        ) by {
            if rows[0].key != k {
                assert(spec_row_of(rows.skip(1).push(slot), k) == spec_row_of(rows.skip(1), k));
            }
        }
        if spec_row_of(rows, slot.key) == -1 {
            assert(rows[0].key != slot.key);
            lemma_row_of_bounds(rows.skip(1), slot.key);
            assert(spec_row_of(rows.skip(1), slot.key) == -1);
            assert(spec_row_of(rows.skip(1).push(slot), slot.key) == rows.skip(1).len());
            assert(spec_row_of(rows.push(slot), slot.key) == 1 + spec_row_of(
                rows.push(slot).skip(1),
                slot.key,
            ));
        }
    }
}

/// After one row's chain changed in place (same keys, same length, only row
/// `ri` different), the store's map view is the old view with that key
/// re-bound.
proof fn lemma_store_update(pre: VersionedData, post: VersionedData, ri: int, key: StoreKey)
    requires
        pre.inv(),
        post.rows@.len() == pre.rows@.len(),
        forall|j: int| 0 <= j < post.rows@.len() ==> #[trigger] post.rows@[j].key
            == pre.rows@[j].key,
        forall|j: int| 0 <= j < post.rows@.len() && j != ri ==> #[trigger] post.rows@[j]
            == pre.rows@[j],
        0 <= ri < pre.rows@.len(),
        pre.rows@[ri].key == key,
        spec_row_of(pre.rows@, key) == ri,
        chain_wf(post.rows@[ri].chain@),
    ensures
        post.inv(),
        post@ == pre@.insert(key, post.rows@[ri].chain@),
{
    lemma_row_of_same_keys(pre.rows@, post.rows@);
    assert forall|k: StoreKey| #[trigger]
        post@.dom().contains(k) == pre@.insert(key, post.rows@[ri].chain@).dom().contains(k) by {
        lemma_row_of_bounds(pre.rows@, k);
    }
    assert forall|k: StoreKey| post@.dom().contains(k) implies #[trigger] post@[k] == pre@.insert(
        key,
        post.rows@[ri].chain@,
    )[k] by {
        lemma_row_of_bounds(pre.rows@, k);
        if k != key {
            assert(spec_row_of(pre.rows@, k) != ri);
        }
    }
    assert(post@ =~= pre@.insert(key, post.rows@[ri].chain@));
}

/// The multi-version store: each key maps to its chain of versioned entries.
/// Viewed as a map from keys to chains.
pub struct VersionedData {
    rows: Vec<KeySlot>,
}

impl View for VersionedData {
    type V = Map<StoreKey, Seq<ChainEntry>>;

    closed spec fn view(&self) -> Map<StoreKey, Seq<ChainEntry>> {
        Map::new(
            |k: StoreKey| spec_row_of(self.rows@, k) >= 0,
            |k: StoreKey| self.rows@[spec_row_of(self.rows@, k)].chain@,
        )
    }
}

/// The chain the store holds for `key`: the recorded one, or the empty chain
/// when the key has no row yet.
pub open spec fn chain_of(m: Map<StoreKey, Seq<ChainEntry>>, key: StoreKey) -> Seq<ChainEntry> {
    if m.dom().contains(key) {
        m[key]
    } else {
        Seq::empty()
    }
}

impl VersionedData {
    /// The store's internal invariant: one row per key, each chain
    /// well-formed.
    pub closed spec fn inv(&self) -> bool {
        &&& forall|i: int|
            0 <= i < self.rows@.len() ==> spec_row_of(self.rows@, #[trigger] self.rows@[i].key)
                == i
        &&& forall|i: int| 0 <= i < self.rows@.len() ==> chain_wf(#[trigger] self.rows@[i].chain@)
    }

    /// Every chain a well-formed store hands out is itself well-formed.
    pub proof fn lemma_inv_chain_wf(&self, key: StoreKey)
        requires
            self.inv(),
        ensures
            chain_wf(chain_of(self@, key)),
    {
        lemma_row_of_bounds(self.rows@, key);
    }

    /// An empty store.
    pub fn new() -> (r: VersionedData)
        ensures
            r.inv(),
            r@ == Map::<StoreKey, Seq<ChainEntry>>::empty(),
    {
        let r = VersionedData { rows: Vec::new() };
        proof {
            assert(r@ =~= Map::<StoreKey, Seq<ChainEntry>>::empty());
        }
        r
    }

    /// Row index for `key`, creating an empty row when none exists.
    fn get_or_create_row(&mut self, key: StoreKey) -> (ri: usize)
        requires
            old(self).inv(),
        ensures
            final(self).inv(),
            ri < final(self).rows@.len(),
            final(self).rows@[ri as int].key == key,
            spec_row_of(final(self).rows@, key) == ri,
            final(self)@ == old(self)@.insert(key, chain_of(old(self)@, key)),
            final(self).rows@[ri as int].chain@ == chain_of(old(self)@, key),
            forall|j: int|
                0 <= j < old(self).rows@.len() ==> #[trigger] final(self).rows@[j]
                    == old(self).rows@[j],
    {
        let mut i: usize = 0;
        while i < self.rows.len()
            invariant
                self == old(self),
                old(self).inv(),
                i <= self.rows@.len(),
                forall|j: int| 0 <= j < i ==> self.rows@[j].key != key,
            decreases self.rows@.len() - i,
        {
            if self.rows[i].key == key {
                proof {
                    assert(spec_row_of(self.rows@, self.rows@[i as int].key) == i);
                    lemma_row_of_bounds(self.rows@, key);
                    assert(self@.dom().contains(key));
                    assert(self@ =~= self@.insert(key, chain_of(self@, key)));
                }
                return i;
            }
            i = i + 1;
        }
        let ri = self.rows.len();
        proof {
            lemma_row_of_bounds(self.rows@, key);
            assert(spec_row_of(self.rows@, key) == -1);
        }
        let slot = KeySlot { key, chain: VersionedValue::new() };
        let ghost gslot = slot;
        proof {
            lemma_row_of_push(self.rows@, gslot);
        }
        self.rows.push(slot);
        proof {
            let pre = old(self).rows@;
            assert(self.rows@ == pre.push(gslot));
            assert(forall|i2: int|
                0 <= i2 < pre.len() ==> #[trigger] self.rows@[i2] == pre[i2]);
            assert(self.rows@[ri as int].key == key);
            assert(spec_row_of(pre, key) == -1);
            assert(spec_row_of(self.rows@, key) == ri);
            assert forall|i2: int|
                0 <= i2 < self.rows@.len() implies spec_row_of(
                self.rows@,
                #[trigger] self.rows@[i2].key,
            ) == i2 by {
                if i2 < pre.len() {
                    assert(pre[i2].key != key);
                    assert(spec_row_of(self.rows@, pre[i2].key) == spec_row_of(pre, pre[i2].key));
                }
            }
            assert(!old(self)@.dom().contains(key));
            assert(chain_of(old(self)@, key) =~= Seq::<ChainEntry>::empty());
            assert forall|k: StoreKey| #[trigger]
                self@.dom().contains(k) == old(self)@.insert(
                key,
                chain_of(old(self)@, key),
            ).dom().contains(k) by {
                lemma_row_of_bounds(pre, k);
                lemma_row_of_bounds(self.rows@, k);
            }
            assert forall|k: StoreKey| self@.dom().contains(k) implies #[trigger] self@[k] == old(
                self,
            )@.insert(key, chain_of(old(self)@, key))[k] by {
                lemma_row_of_bounds(pre, k);
                lemma_row_of_bounds(self.rows@, k);
            }
            assert(self@ =~= old(self)@.insert(key, chain_of(old(self)@, key)));
        }
        ri
    }

    /// Row index of `key`, if the store holds one.
    fn find_row(&self, key: StoreKey) -> (r: Option<usize>)
        requires
            self.inv(),
        ensures
            match r {
                Some(ri) => spec_row_of(self.rows@, key) == ri && ri < self.rows@.len()
                    && self.rows@[ri as int].key == key && self@.dom().contains(key)
                    && self@[key] == self.rows@[ri as int].chain@,
                None => spec_row_of(self.rows@, key) == -1 && !self@.dom().contains(key),
            },
    {
        let mut i: usize = 0;
        while i < self.rows.len()
            invariant
                self.inv(),
                i <= self.rows@.len(),
                forall|j: int| 0 <= j < i ==> self.rows@[j].key != key,
            decreases self.rows@.len() - i,
        {
            if self.rows[i].key == key {
                proof {
                    assert(spec_row_of(self.rows@, self.rows@[i as int].key) == i);
                }
                return Some(i);
            }
            i = i + 1;
        }
        proof {
            lemma_row_of_bounds(self.rows@, key);
        }
        None
    }

    /// Records a delta produced by transaction `txn_idx` at `key`. Deltas are
    /// recorded unconditionally: a re-execution overwrites its own entry.
    pub fn add_delta(&mut self, key: StoreKey, txn_idx: TxnIndex, delta: DeltaOp)
        requires
            old(self).inv(),
        ensures
            final(self).inv(),
            final(self)@ == old(self)@.insert(
                key,
                chain_upsert(
                    chain_of(old(self)@, key),
                    spec_shift(txn_idx),
                    Entry { cell: EntryCell::Delta { op: delta, shortcut: None }, flag: Flag::Done },
                ),
            ),
    {
        let ri = self.get_or_create_row(key);
        let ghost mid = *self;
        self.rows[ri].chain.upsert(txn_idx as u64 + 1, Entry::new_delta_from(delta));
        proof {
            lemma_store_update(mid, *self, ri as int, key);
            assert(mid@[key] == chain_of(old(self)@, key));
            assert(self@ =~= old(self)@.insert(
                key,
                chain_upsert(
                    chain_of(old(self)@, key),
                    spec_shift(txn_idx),
                    Entry { cell: EntryCell::Delta { op: delta, shortcut: None }, flag: Flag::Done },
                ),
            ));
        }
    }

    /// Versioned write by transaction `txn_idx` at `key`. A write must carry
    /// a strictly higher incarnation than the write it replaces; a regression
    /// is a fatal caller error and leaves the store unchanged.
    pub fn write(
        &mut self,
        key: StoreKey,
        txn_idx: TxnIndex,
        incarnation: Incarnation,
        value: Value,
        layout: Option<LayoutId>,
    ) -> (r: Result<(), FatalError>)
        requires
            old(self).inv(),
        ensures
            final(self).inv(),
            ({
                let c = chain_of(old(self)@, key);
                let f = chain_find(c, spec_shift(txn_idx));
                let regressed = f >= 0 && (c[f].entry.cell matches EntryCell::Write {
                    incarnation: prev,
                    ..
                } && prev >= incarnation);
                if regressed {
                    r == Result::<(), FatalError>::Err(FatalError::IncarnationRegression)
                        && *final(self) == *old(self)
                } else {
                    r == Result::<(), FatalError>::Ok(()) && final(self)@ == old(self)@.insert(
                        key,
                        chain_upsert(
                            c,
                            spec_shift(txn_idx),
                            Entry {
                                cell: EntryCell::Write { incarnation, value, layout },
                                flag: Flag::Done,
                            },
                        ),
                    )
                }
            }),
    {
        let sidx = txn_idx as u64 + 1;
        match self.find_row(key) {
            Some(ri) => {
                proof {
                    assert(chain_wf(self.rows@[ri as int].chain@));
                }
                match self.rows[ri].chain.position_of(sidx) {
                    Some(p) => {
                        let regressed = match &self.rows[ri].chain.entries[p].entry.cell {
                            EntryCell::Write { incarnation: prev, .. } => *prev >= incarnation,
                            EntryCell::Delta { .. } => false,
                        };
                        if regressed {
                            return Err(FatalError::IncarnationRegression);
                        }
                    },
                    None => {},
                }
            },
            None => {
                proof {
                    assert(chain_of(self@, key) =~= Seq::<ChainEntry>::empty());
                }
            },
        }
        let ri = self.get_or_create_row(key);
        let ghost mid = *self;
        self.rows[ri].chain.upsert(sidx, Entry::new_write_from(incarnation, value, layout));
        proof {
            lemma_store_update(mid, *self, ri as int, key);
            assert(self@ =~= old(self)@.insert(
                key,
                chain_upsert(
                    chain_of(old(self)@, key),
                    spec_shift(txn_idx),
                    Entry {
                        cell: EntryCell::Write { incarnation, value, layout },
                        flag: Flag::Done,
                    },
                ),
            ));
        }
        Ok(())
    }

    /// Flags the entry of transaction `txn_idx` at `key` as an estimate, so
    /// readers above it abort and retry once the transaction re-executes. A
    /// missing entry is a fatal caller error.
    pub fn mark_estimate(&mut self, key: StoreKey, txn_idx: TxnIndex) -> (r: Result<
        (),
        FatalError,
    >)
        requires
            old(self).inv(),
        ensures
            final(self).inv(),
            ({
                let c = chain_of(old(self)@, key);
                let f = chain_find(c, spec_shift(txn_idx));
                if f == -1 {
                    r == Result::<(), FatalError>::Err(FatalError::MissingEntry) && *final(self)
                        == *old(self)
                } else {
                    r == Result::<(), FatalError>::Ok(()) && final(self)@ == old(self)@.insert(
                        key,
                        c.update(
                            f,
                            ChainEntry {
                                sidx: c[f].sidx,
                                entry: Entry { cell: c[f].entry.cell, flag: Flag::Estimate },
                            },
                        ),
                    )
                }
            }),
    {
        let sidx = txn_idx as u64 + 1;
        match self.find_row(key) {
            None => {
                proof {
                    assert(chain_of(self@, key) =~= Seq::<ChainEntry>::empty());
                }
                Err(FatalError::MissingEntry)
            },
            Some(ri) => {
                proof {
                    assert(chain_wf(self.rows@[ri as int].chain@));
                }
                match self.rows[ri].chain.position_of(sidx) {
                    None => Err(FatalError::MissingEntry),
                    Some(p) => {
                        let ghost mid = *self;
                        self.rows[ri].chain.set_estimate(p);
                        proof {
                            lemma_store_update(mid, *self, ri as int, key);
                        }
                        Ok(())
                    },
                }
            },
        }
    }

    /// Deletes the entry of transaction `txn_idx` at `key`, as when the
    /// transaction is discarded. A missing entry is a fatal caller error.
    pub fn remove(&mut self, key: StoreKey, txn_idx: TxnIndex) -> (r: Result<(), FatalError>)
        requires
            old(self).inv(),
        ensures
            final(self).inv(),
            ({
                let c = chain_of(old(self)@, key);
                let f = chain_find(c, spec_shift(txn_idx));
                if f == -1 {
                    r == Result::<(), FatalError>::Err(FatalError::MissingEntry) && *final(self)
                        == *old(self)
                } else {
                    r == Result::<(), FatalError>::Ok(()) && final(self)@ == old(self)@.insert(
                        key,
                        c.remove(f),
                    )
                }
            }),
    {
        let sidx = txn_idx as u64 + 1;
        match self.find_row(key) {
            None => {
                proof {
                    assert(chain_of(self@, key) =~= Seq::<ChainEntry>::empty());
                }
                Err(FatalError::MissingEntry)
            },
            Some(ri) => {
                proof {
                    assert(chain_wf(self.rows@[ri as int].chain@));
                }
                match self.rows[ri].chain.position_of(sidx) {
                    None => Err(FatalError::MissingEntry),
                    Some(p) => {
                        let ghost mid = *self;
                        self.rows[ri].chain.remove_at(p);
                        proof {
                            lemma_store_update(mid, *self, ri as int, key);
                        }
                        Ok(())
                    },
                }
            },
        }
    }

    /// Resolves a read by transaction `txn_idx` at `key` against the store.
    /// A key without a row reads as uninitialized.
    pub fn fetch_data(&self, key: StoreKey, txn_idx: TxnIndex) -> (r: Result<
        MVDataOutput,
        MVDataError,
    >)
        requires
            self.inv(),
            !(spec_read(chain_of(self@, key), spec_shift(txn_idx)) is NonNumeric),
        ensures
            outcome_matches(r, spec_read(chain_of(self@, key), spec_shift(txn_idx))),
    {
        match self.find_row(key) {
            None => {
                proof {
                    assert(chain_of(self@, key) =~= Seq::<ChainEntry>::empty());
                }
                Err(MVDataError::Uninitialized)
            },
            Some(ri) => {
                proof {
                    assert(chain_wf(self.rows@[ri as int].chain@));
                }
                self.rows[ri].chain.read(txn_idx)
            },
        }
    }

    /// Records the storage base value at `key`'s sentinel slot. The sentinel
    /// is write-once: re-setting it is accepted only when the new data is
    /// consistent with what is already there (same layout presence, and —
    /// when no layout is in play — the same byte length; with a layout
    /// present, identifier exchange may rewrite bytes, so only the layout
    /// presence is held equal). Inconsistent data is a fatal caller error.
    pub fn set_base_value(&mut self, key: StoreKey, value: Value, layout: Option<LayoutId>) -> (r:
        Result<(), FatalError>)
        requires
            old(self).inv(),
        ensures
            final(self).inv(),
            ({
                let c = chain_of(old(self)@, key);
                let f = chain_find(c, 0);
                if f == -1 {
                    r == Result::<(), FatalError>::Ok(()) && final(self)@ == old(self)@.insert(
                        key,
                        chain_upsert(
                            c,
                            0,
                            Entry {
                                cell: EntryCell::Write { incarnation: 0, value, layout },
                                flag: Flag::Done,
                            },
                        ),
                    )
                } else {
                    let consistent = c[f].entry.cell matches EntryCell::Write {
                        value: v0,
                        layout: l0,
                        ..
                    } && (l0 is Some) == (layout is Some) && (l0 is Some || spec_bytes_len(v0@)
                        == spec_bytes_len(value@));
                    if consistent {
                        r == Result::<(), FatalError>::Ok(()) && *final(self) == *old(self)
                    } else {
                        r == Result::<(), FatalError>::Err(FatalError::InconsistentBaseValue)
                            && *final(self) == *old(self)
                    }
                }
            }),
    {
        match self.find_row(key) {
            Some(ri) => {
                proof {
                    assert(chain_wf(self.rows@[ri as int].chain@));
                }
                match self.rows[ri].chain.position_of(0) {
                    Some(p) => {
                        let r = match &self.rows[ri].chain.entries[p].entry.cell {
                            EntryCell::Write { value: v0, layout: l0, .. } => {
                                let consistent = (l0.is_some() == layout.is_some()) && (
                                l0.is_some() || v0.bytes_len() == value.bytes_len());
                                if consistent {
                                    Ok(())
                                } else {
                                    Err(FatalError::InconsistentBaseValue)
                                }
                            },
                            EntryCell::Delta { .. } => {
                                proof {
                                    assert(false);
                                }
                                Err(FatalError::InconsistentBaseValue)
                            },
                        };
                        return r;
                    },
                    None => {},
                }
            },
            None => {
                proof {
                    assert(chain_of(self@, key) =~= Seq::<ChainEntry>::empty());
                }
            },
        }
        let ri = self.get_or_create_row(key);
        let ghost mid = *self;
        self.rows[ri].chain.upsert(0, Entry::new_write_from(0, value, layout));
        proof {
            lemma_store_update(mid, *self, ri as int, key);
            assert(self@ =~= old(self)@.insert(
                key,
                chain_upsert(
                    chain_of(old(self)@, key),
                    0,
                    Entry {
                        cell: EntryCell::Write { incarnation: 0, value, layout },
                        flag: Flag::Done,
                    },
                ),
            ));
        }
        Ok(())
    }

    /// Commit-time materialization of transaction `txn_idx`'s delta at `key`:
    /// re-runs resolution as if reading from one index above (so the
    /// transaction's own delta is included), caches the resolved value as the
    /// entry's shortcut and returns it. When the chain bottoms out with the
    /// delta still pending, the outstanding delta is handed back so the
    /// caller can apply it to an externally obtained base value. Every other
    /// outcome is unreachable when the caller holds its contract and is
    /// reported as a fatal internal-consistency error.
    pub fn materialize_delta(&mut self, key: StoreKey, txn_idx: TxnIndex) -> (r: Result<
        u128,
        MaterializeError,
    >)
        requires
            old(self).inv(),
            txn_idx < u32::MAX,
            !(spec_read(chain_of(old(self)@, key), (spec_shift(txn_idx) + 1) as u64) is NonNumeric),
        ensures
            final(self).inv(),
            r == spec_materialize(chain_of(old(self)@, key), txn_idx).1,
            old(self)@.dom().contains(key) ==> final(self)@ == old(self)@.insert(
                key,
                spec_materialize(chain_of(old(self)@, key), txn_idx).0,
            ),
            !old(self)@.dom().contains(key) ==> *final(self) == *old(self),
    {
        match self.find_row(key) {
            None => {
                proof {
                    assert(chain_of(self@, key) =~= Seq::<ChainEntry>::empty());
                }
                Err(MaterializeError::Fatal(FatalError::InconsistentMaterialization))
            },
            Some(ri) => {
                proof {
                    assert(chain_wf(self.rows@[ri as int].chain@));
                    assert(spec_shift((txn_idx + 1) as TxnIndex) == (spec_shift(txn_idx) + 1) as u64);
                }
                let outcome = self.rows[ri].chain.read(txn_idx + 1);
                match outcome {
                    Ok(MVDataOutput::Resolved(v)) => {
                        match self.rows[ri].chain.position_of(txn_idx as u64 + 1) {
                            None => Err(MaterializeError::Fatal(FatalError::MissingEntry)),
                            Some(p) => {
                                match &self.rows[ri].chain.entries[p].entry.cell {
                                    EntryCell::Write { .. } => Err(
                                        MaterializeError::Fatal(
                                            FatalError::InconsistentMaterialization,
                                        ),
                                    ),
                                    EntryCell::Delta { shortcut, .. } => {
                                        match shortcut {
                                            Some(prev) => {
                                                if *prev != v {
                                                    return Err(
                                                        MaterializeError::Fatal(
                                                            FatalError::ShortcutMismatch,
                                                        ),
                                                    );
                                                }
                                            },
                                            None => {},
                                        }
                                        let ghost mid = *self;
                                        self.rows[ri].chain.set_shortcut(p, v);
                                        proof {
                                            lemma_store_update(mid, *self, ri as int, key);
                                        }
                                        Ok(v)
                                    },
                                }
                            },
                        }
                    },
                    Err(MVDataError::Unresolved(op)) => Err(MaterializeError::Unresolved(op)),
                    _ => Err(MaterializeError::Fatal(FatalError::InconsistentMaterialization)),
                }
            },
        }
    }
}

/// How commit-time materialization fails: the delta is still unresolved and
/// must be applied to an external base value, or the store was found in a
/// state that a correct scheduler can never produce.
#[derive(Clone, Copy, PartialEq, Eq, Structural, Debug)]
pub enum MaterializeError {
    Unresolved(DeltaOp),
    Fatal(FatalError),
}

/// The chain and result after materializing transaction `txn_idx`'s delta:
/// on successful resolution the value is cached as the entry's shortcut
/// (which must not contradict an already recorded one); an unresolved read
/// hands the outstanding delta back; everything else is fatal.
pub open spec fn spec_materialize(c: Seq<ChainEntry>, txn_idx: TxnIndex) -> (
    Seq<ChainEntry>,
    Result<u128, MaterializeError>,
) {
    match spec_read(c, (spec_shift(txn_idx) + 1) as u64) {
        ReadOutcome::Resolved { value } => {
            let f = chain_find(c, spec_shift(txn_idx));
            if f < 0 {
                (c, Err(MaterializeError::Fatal(FatalError::MissingEntry)))
            } else {
                match c[f].entry.cell {
                    EntryCell::Delta { op, shortcut } => {
                        if shortcut is Some && shortcut->Some_0 != value {
                            (c, Err(MaterializeError::Fatal(FatalError::ShortcutMismatch)))
                        } else {
                            (
                                c.update(
                                    f,
                                    ChainEntry {
                                        sidx: spec_shift(txn_idx),
                                        entry: Entry {
                                            cell: EntryCell::Delta { op, shortcut: Some(value) },
                                            flag: c[f].entry.flag,
                                        },
                                    },
                                ),
                                Ok(value),
                            )
                        }
                    },
                    EntryCell::Write { .. } => (
                        c,
                        Err(MaterializeError::Fatal(FatalError::InconsistentMaterialization)),
                    ),
                }
            }
        },
        ReadOutcome::Unresolved { delta } => (c, Err(MaterializeError::Unresolved(delta))),
        _ => (c, Err(MaterializeError::Fatal(FatalError::InconsistentMaterialization))),
    }
}

/// Two entries with the same flag and the same content up to the value's
/// mathematical view. Resolution never looks deeper than this.
pub open spec fn entry_view_eq(e1: Entry, e2: Entry) -> bool {
    &&& e1.flag == e2.flag
    &&& match (e1.cell, e2.cell) {
        (
            EntryCell::Write { incarnation: i1, value: v1, layout: l1 },
            EntryCell::Write { incarnation: i2, value: v2, layout: l2 },
        ) => i1 == i2 && v1@ == v2@ && l1 == l2,
        (
            EntryCell::Delta { op: o1, shortcut: s1 },
            EntryCell::Delta { op: o2, shortcut: s2 },
        ) => o1 == o2 && s1 == s2,
        _ => false,
    }
}

/// Two chains equal up to the values' mathematical views: same indices, same
/// flags, view-equal entries throughout.
pub open spec fn chain_view_eq(c1: Seq<ChainEntry>, c2: Seq<ChainEntry>) -> bool {
    &&& c1.len() == c2.len()
    &&& forall|t: int|
        0 <= t < c1.len() ==> (#[trigger] c1[t]).sidx == c2[t].sidx && entry_view_eq(
            c1[t].entry,
            c2[t].entry,
        )
}

/// Positions depend only on the indices, which view-equal chains share.
pub proof fn lemma_chain_find_view_eq(c1: Seq<ChainEntry>, c2: Seq<ChainEntry>, sidx: u64)
    requires
        chain_view_eq(c1, c2),
    ensures
        chain_find(c1, sidx) == chain_find(c2, sidx),
        num_below(c1, sidx) == num_below(c2, sidx),
    decreases c1.len(),
{
    if c1.len() > 0 {
        assert(c1[0].sidx == c2[0].sidx);
        assert forall|t: int|
            0 <= t < c1.skip(1).len() implies (#[trigger] c1.skip(1)[t]).sidx == c2.skip(1)[t].sidx
            && entry_view_eq(c1.skip(1)[t].entry, c2.skip(1)[t].entry) by {
            assert(c1.skip(1)[t] == c1[t + 1]);
            assert(c2.skip(1)[t] == c2[t + 1]);
        }
        lemma_chain_find_view_eq(c1.skip(1), c2.skip(1), sidx);
    }
}

/// Recording view-equal entries at the same index in view-equal chains keeps
/// them view-equal.
pub proof fn lemma_chain_upsert_view_eq(
    c1: Seq<ChainEntry>,
    c2: Seq<ChainEntry>,
    sidx: u64,
    e1: Entry,
    e2: Entry,
)
    requires
        chain_view_eq(c1, c2),
        entry_view_eq(e1, e2),
    ensures
        chain_view_eq(chain_upsert(c1, sidx, e1), chain_upsert(c2, sidx, e2)),
{
    lemma_chain_find_view_eq(c1, c2, sidx);
    lemma_chain_find_bounds(c1, sidx);
    lemma_num_below_bounds(c1, sidx);
    let f = chain_find(c1, sidx);
    let r1 = chain_upsert(c1, sidx, e1);
    let r2 = chain_upsert(c2, sidx, e2);
    if f >= 0 {
        assert forall|t: int|
            0 <= t < r1.len() implies (#[trigger] r1[t]).sidx == r2[t].sidx && entry_view_eq(
            r1[t].entry,
            r2[t].entry,
        ) by {
            if t != f {
                assert(r1[t] == c1[t]);
                assert(r2[t] == c2[t]);
            }
        }
    } else {
        let p = num_below(c1, sidx);
        assert forall|t: int|
            0 <= t < r1.len() implies (#[trigger] r1[t]).sidx == r2[t].sidx && entry_view_eq(
            r1[t].entry,
            r2[t].entry,
        ) by {
            if t < p {
                assert(r1[t] == c1[t]);
                assert(r2[t] == c2[t]);
            } else if t > p {
                assert(r1[t] == c1[t - 1]);
                assert(r2[t] == c2[t - 1]);
            }
        }
    }
}

/// Resolution reads nothing a view-equal chain does not share: view-equal
/// chains resolve every read to the very same outcome.
pub proof fn lemma_read_view_eq(c1: Seq<ChainEntry>, c2: Seq<ChainEntry>, bound: u64, acc: DeltaAcc)
    requires
        chain_view_eq(c1, c2),
    ensures
        spec_read_rec(c1, bound, acc) == spec_read_rec(c2, bound, acc),
    decreases c1.len(),
{
    if c1.len() > 0 {
        assert(c1.last() == c1[c1.len() - 1]);
        assert(c2.last() == c2[c2.len() - 1]);
        assert(c1.last().sidx == c2.last().sidx);
        assert(entry_view_eq(c1.last().entry, c2.last().entry));
        assert(c1.drop_last() =~= c1.take(c1.len() - 1));
        assert(c2.drop_last() =~= c2.take(c2.len() - 1));
        assert forall|t: int|
            0 <= t < c1.drop_last().len() implies (#[trigger] c1.drop_last()[t]).sidx
            == c2.drop_last()[t].sidx && entry_view_eq(
            c1.drop_last()[t].entry,
            c2.drop_last()[t].entry,
        ) by {
            assert(c1.drop_last()[t] == c1[t]);
            assert(c2.drop_last()[t] == c2[t]);
        }
        if c1.last().sidx >= bound {
            lemma_read_view_eq(c1.drop_last(), c2.drop_last(), bound, acc);
        } else if c1.last().entry.flag == Flag::Estimate {
        } else {
            match c1.last().entry.cell {
                EntryCell::Write { .. } => {},
                EntryCell::Delta { op, shortcut } => {
                    if shortcut is None {
                        lemma_read_view_eq(
                            c1.drop_last(),
                            c2.drop_last(),
                            bound,
                            acc_step(acc, op),
                        );
                    }
                },
            }
        }
    }
}

/// Materializing against view-equal chains returns the same result and keeps
/// the chains view-equal.
pub proof fn lemma_materialize_view_eq(c1: Seq<ChainEntry>, c2: Seq<ChainEntry>, txn_idx: TxnIndex)
    requires
        chain_view_eq(c1, c2),
    ensures
        spec_materialize(c1, txn_idx).1 == spec_materialize(c2, txn_idx).1,
        chain_view_eq(spec_materialize(c1, txn_idx).0, spec_materialize(c2, txn_idx).0),
{
    let bound = (spec_shift(txn_idx) + 1) as u64;
    lemma_read_view_eq(c1, c2, bound, DeltaAcc::Empty);
    lemma_chain_find_view_eq(c1, c2, spec_shift(txn_idx));
    lemma_chain_find_bounds(c1, spec_shift(txn_idx));
    let f = chain_find(c1, spec_shift(txn_idx));
    match spec_read(c1, bound) {
        ReadOutcome::Resolved { value } => {
            if f >= 0 {
                assert(entry_view_eq(c1[f].entry, c2[f].entry));
                match c1[f].entry.cell {
                    EntryCell::Delta { op, shortcut } => {
                        if !(shortcut is Some && shortcut->Some_0 != value) {
                            let r1 = spec_materialize(c1, txn_idx).0;
                            let r2 = spec_materialize(c2, txn_idx).0;
                            assert forall|t: int|
                                0 <= t < r1.len() implies (#[trigger] r1[t]).sidx == r2[t].sidx
                                && entry_view_eq(r1[t].entry, r2[t].entry) by {
                                if t != f {
                                    assert(r1[t] == c1[t]);
                                    assert(r2[t] == c2[t]);
                                }
                            }
                        }
                    },
                    EntryCell::Write { .. } => {},
                }
            }
        },
        _ => {},
    }
}

/// Entries at or above `n` all lie at or above the reader's bound, so the
/// scan skips them: reading the whole chain equals reading its prefix.
proof fn lemma_read_rec_skip(s: Seq<ChainEntry>, bound: u64, acc: DeltaAcc, n: int)
    requires
        0 <= n <= s.len(),
        forall|i: int| n <= i < s.len() ==> s[i].sidx >= bound,
    ensures
        spec_read_rec(s, bound, acc) == spec_read_rec(s.take(n), bound, acc),
    decreases s.len() - n,
{
    if n == s.len() {
        assert(s.take(n) =~= s);
    } else {
        assert(s.last().sidx >= bound);
        assert(s.drop_last() =~= s.take(s.len() - 1));
        lemma_read_rec_skip(s.take(s.len() - 1), bound, acc, n);
        assert(s.take(s.len() - 1).take(n) =~= s.take(n));
    }
}

/// Materialization is idempotent: once a delta has been materialized, doing
/// it again for the same (key, index) returns the same value and leaves the
/// chain — in particular the recorded shortcut — unchanged.
pub proof fn lemma_materialize_idempotent(c: Seq<ChainEntry>, txn_idx: TxnIndex)
    requires
        chain_wf(c),
        txn_idx < u32::MAX,
        spec_materialize(c, txn_idx).1 is Ok,
    ensures
        spec_materialize(spec_materialize(c, txn_idx).0, txn_idx).0 == spec_materialize(
            c,
            txn_idx,
        ).0,
        spec_materialize(spec_materialize(c, txn_idx).0, txn_idx).1 == spec_materialize(
            c,
            txn_idx,
        ).1,
{
    let b = spec_shift(txn_idx);
    let bound = (b + 1) as u64;
    let outcome = spec_read(c, bound);
    let v = outcome->Resolved_value;
    let f = chain_find(c, b);
    lemma_chain_find_bounds(c, b);
    let c1 = spec_materialize(c, txn_idx).0;
    // the chain after materializing: only the entry at `f` changed, keeping
    // its index, so the chain stays sorted and the entry is found again
    assert(c1 == c.update(
        f,
        ChainEntry {
            sidx: b,
            entry: Entry {
                cell: EntryCell::Delta { op: c[f].entry.cell->Delta_op, shortcut: Some(v) },
                flag: c[f].entry.flag,
            },
        },
    ));
    assert(forall|i: int| 0 <= i < c1.len() ==> #[trigger] c1[i].sidx == c[i].sidx);
    lemma_chain_find_at(c1, b, f);
    // every entry above `f` lies at or above the reader's bound
    assert forall|i: int| f + 1 <= i < c1.len() implies c1[i].sidx >= bound by {
        assert(c[f].sidx < c[i].sidx);
    }
    lemma_read_rec_skip(c1, bound, DeltaAcc::Empty, f + 1);
    assert(c1.take(f + 1).last() == c1[f]);
    // the first entry the second read meets is the freshly cached shortcut,
    // and the estimate flag was not touched: the first read already passed it
    assert(c[f].entry.flag == Flag::Done) by {
        if c[f].entry.flag == Flag::Estimate {
            lemma_read_rec_skip(c, bound, DeltaAcc::Empty, f + 1);
            assert(c.take(f + 1).last() == c[f]);
            assert(spec_read(c, bound) is Dependency);
        }
    }
    assert(spec_read(c1, bound) == ReadOutcome::Resolved { value: v });
    assert(spec_materialize(c1, txn_idx).0 =~= c1.update(
        f,
        ChainEntry {
            sidx: b,
            entry: Entry {
                cell: EntryCell::Delta { op: c1[f].entry.cell->Delta_op, shortcut: Some(v) },
                flag: c1[f].entry.flag,
            },
        },
    ));
    assert(spec_materialize(c1, txn_idx).0 =~= c1);
}

/// A scan that meets an estimate below the reader — with nothing above it but
/// pending deltas — reports a dependency on exactly that transaction,
/// whatever has been accumulated so far.
proof fn lemma_read_rec_hits_estimate(s: Seq<ChainEntry>, bound: u64, acc: DeltaAcc, f: int)
    requires
        chain_wf(s),
        0 <= f < s.len(),
        s[f].sidx < bound,
        s[f].entry.flag == Flag::Estimate,
        forall|i: int|
            f < i < s.len() && #[trigger] s[i].sidx < bound ==> s[i].entry.flag == Flag::Done && (
            s[i].entry.cell matches EntryCell::Delta { shortcut: None, .. }),
    ensures
        spec_read_rec(s, bound, acc) == (ReadOutcome::Dependency {
            idx: ((s[f].sidx - 1) as TxnIndex),
        }),
    decreases s.len(),
{
    assert(s[f].sidx != 0);
    if f == s.len() - 1 {
        if s.last().sidx >= bound {
            assert(false);
        }
    } else {
        let e = s.last();
        assert(s.drop_last() =~= s.take(s.len() - 1));
        assert(chain_wf(s.drop_last()));
        assert forall|i: int|
            f < i < s.drop_last().len() && #[trigger] s.drop_last()[i].sidx
                < bound implies s.drop_last()[i].entry.flag == Flag::Done && (
        s.drop_last()[i].entry.cell matches EntryCell::Delta { shortcut: None, .. }) by {
            assert(s.drop_last()[i] == s[i]);
        }
        if e.sidx >= bound {
            lemma_read_rec_hits_estimate(s.drop_last(), bound, acc, f);
        } else {
            assert(e == s[s.len() - 1]);
            assert(e.entry.flag == Flag::Done);
            assert(e.entry.cell matches EntryCell::Delta { shortcut: None, .. });
            lemma_read_rec_hits_estimate(
                s.drop_last(),
                bound,
                acc_step(acc, e.entry.cell->Delta_op),
                f,
            );
        }
    }
}

/// A read at index `reader` that encounters an estimate left by transaction
/// `j` — every entry between the two being a still-pending delta — reports a
/// dependency on `j`, never a resolved value.
pub proof fn lemma_read_reports_estimate(c: Seq<ChainEntry>, reader: TxnIndex, j: TxnIndex)
    requires
        chain_wf(c),
        j < reader,
        chain_find(c, spec_shift(j)) >= 0,
        c[chain_find(c, spec_shift(j))].entry.flag == Flag::Estimate,
        forall|i: int|
            0 <= i < c.len() && spec_shift(j) < #[trigger] c[i].sidx < spec_shift(reader) ==> (
            c[i].entry.flag == Flag::Done && (c[i].entry.cell matches EntryCell::Delta {
                shortcut: None,
                ..
            })),
    ensures
        spec_read(c, spec_shift(reader)) == (ReadOutcome::Dependency { idx: j }),
{
    let f = chain_find(c, spec_shift(j));
    lemma_chain_find_bounds(c, spec_shift(j));
    assert forall|i: int|
        f < i < c.len() && #[trigger] c[i].sidx < spec_shift(reader) implies c[i].entry.flag
        == Flag::Done && (c[i].entry.cell matches EntryCell::Delta { shortcut: None, .. }) by {
        assert(c[f].sidx < c[i].sidx);
    }
    lemma_read_rec_hits_estimate(c, spec_shift(reader), DeltaAcc::Empty, f);
}

/// State of replaying one key's chain sequentially, lowest index first: no
/// value yet, the value after the last step, or stuck because a delta step
/// was undefined (no numeric value under it, or out of bounds).
pub enum FoldState {
    Nothing,
    Val(ValueSpec),
    Stuck,
}

/// Sequential replay of a chain in index order: a write installs its value, a
/// delta applies to the current counter. Any step on which the replay is
/// undefined makes it stuck for good.
pub open spec fn seq_fold(s: Seq<ChainEntry>) -> FoldState
    decreases s.len(),
{
    if s.len() == 0 {
        FoldState::Nothing
    } else {
        let prev = seq_fold(s.drop_last());
        match s.last().entry.cell {
            EntryCell::Write { value, .. } => match prev {
                FoldState::Stuck => FoldState::Stuck,
                _ => FoldState::Val(value@),
            },
            EntryCell::Delta { op, .. } => match prev {
                FoldState::Val(ValueSpec::Numeric(x)) => match spec_apply(op, x) {
                    Some(y) => FoldState::Val(ValueSpec::Numeric(y)),
                    None => FoldState::Stuck,
                },
                _ => FoldState::Stuck,
            },
        }
    }
}

/// A fully committed chain over one counter: ordered, nothing flagged as an
/// estimate, every delta well-formed over the single bound `max`, every
/// numeric write inside that bound, and every entry below the reader at
/// `bound`.
pub open spec fn settled_chain(s: Seq<ChainEntry>, max: u128, bound: u64) -> bool {
    &&& chain_wf(s)
    &&& forall|i: int| 0 <= i < s.len() ==> (#[trigger] s[i].entry.flag) == Flag::Done
    &&& forall|i: int| 0 <= i < s.len() ==> (#[trigger] s[i].sidx) < bound
    &&& forall|i: int|
        0 <= i < s.len() ==> match (#[trigger] s[i].entry.cell) {
            EntryCell::Delta { op, shortcut } => delta_wf(op) && op.max_value == max,
            EntryCell::Write { value, .. } => (value@ matches ValueSpec::Numeric(x) ==> x <= max),
        }
}

/// Every cached shortcut agrees with the sequential replay of the chain up
/// to and including its own entry — the way commit-time materialization
/// records them.
pub open spec fn shortcuts_consistent(s: Seq<ChainEntry>) -> bool {
    forall|t: int|
        0 <= t < s.len() ==> ((#[trigger] s[t].entry.cell) matches EntryCell::Delta {
            shortcut: Some(sv),
            ..
        } ==> seq_fold(s.take(t + 1)) == FoldState::Val(ValueSpec::Numeric(sv)))
}

proof fn lemma_settled_drop(s: Seq<ChainEntry>, max: u128, bound: u64)
    requires
        settled_chain(s, max, bound),
        s.len() > 0,
    ensures
        settled_chain(s.drop_last(), max, bound),
{
    assert(s.drop_last() =~= s.take(s.len() - 1));
    assert(forall|i: int| 0 <= i < s.drop_last().len() ==> s.drop_last()[i] == s[i]);
}

proof fn lemma_consistent_drop(s: Seq<ChainEntry>)
    requires
        shortcuts_consistent(s),
        s.len() > 0,
    ensures
        shortcuts_consistent(s.drop_last()),
{
    assert(s.drop_last() =~= s.take(s.len() - 1));
    assert forall|t: int|
        0 <= t < s.drop_last().len() implies ((#[trigger] s.drop_last()[t].entry.cell)
        matches EntryCell::Delta { shortcut: Some(sv), .. }
        ==> seq_fold(s.drop_last().take(t + 1)) == FoldState::Val(ValueSpec::Numeric(sv))) by {
        assert(s.drop_last()[t] == s[t]);
        assert(s.drop_last().take(t + 1) =~= s.take(t + 1));
    }
}

/// The sequential replay of a settled chain never leaves `[0, max]`.
proof fn lemma_fold_bounded(s: Seq<ChainEntry>, max: u128, bound: u64)
    requires
        settled_chain(s, max, bound),
    ensures
        seq_fold(s) matches FoldState::Val(ValueSpec::Numeric(x)) ==> x <= max,
    decreases s.len(),
{
    if s.len() > 0 {
        lemma_settled_drop(s, max, bound);
        lemma_fold_bounded(s.drop_last(), max, bound);
        assert(s.last() == s[s.len() - 1]);
    }
}

/// The value a successful read reports, if it reports one.
pub open spec fn outcome_value(o: ReadOutcome) -> Option<ValueSpec> {
    match o {
        ReadOutcome::Versioned { value, .. } => Some(value),
        ReadOutcome::Resolved { value } => Some(ValueSpec::Numeric(value)),
        _ => None,
    }
}

/// Scanning a settled chain downward with an already-accumulated delta
/// resolves to that delta applied to the chain's sequential value.
proof fn lemma_read_rec_applies_fold(s: Seq<ChainEntry>, max: u128, bound: u64, a: DeltaOp, x: u128, y: u128)
    requires
        settled_chain(s, max, bound),
        shortcuts_consistent(s),
        seq_fold(s) == FoldState::Val(ValueSpec::Numeric(x)),
        delta_wf(a),
        a.max_value == max,
        spec_apply(a, x) == Some(y),
    ensures
        spec_read_rec(s, bound, DeltaAcc::Merged(a)) == (ReadOutcome::Resolved { value: y }),
    decreases s.len(),
{
    let e = s.last();
    assert(e == s[s.len() - 1]);
    assert(e.sidx < bound);
    assert(e.entry.flag == Flag::Done);
    lemma_settled_drop(s, max, bound);
    lemma_consistent_drop(s);
    match e.entry.cell {
        EntryCell::Write { value, .. } => {
            assert(value@ == ValueSpec::Numeric(x));
        },
        EntryCell::Delta { op, shortcut } => {
            if shortcut is Some {
                // a consistent shortcut already carries the replay value up
                // to this entry, which here is the whole chain
                assert(s.take(s.len() as int) =~= s);
                assert(shortcut->Some_0 == x);
                assert(spec_read_rec(s, bound, DeltaAcc::Merged(a)) == acc_apply(
                    DeltaAcc::Merged(a),
                    x,
                ));
                return ;
            }
            let prev = seq_fold(s.drop_last());
            assert(prev matches FoldState::Val(ValueSpec::Numeric(_)));
            let x0 = prev->Val_0->Numeric_0;
            assert(spec_apply(op, x0) == Some(x));
            lemma_fold_bounded(s.drop_last(), max, bound);
            crate::delta::lemma_apply_merge(a, op, x0);
            let m = spec_merge(a, op)->Some_0;
            assert(delta_wf(m)) by {
                assert(m == crate::delta::delta_of_int(
                    crate::delta::delta_int(a) + crate::delta::delta_int(op),
                    max,
                ));
            }
            assert(acc_step(DeltaAcc::Merged(a), op) == DeltaAcc::Merged(m));
            lemma_read_rec_applies_fold(s.drop_last(), max, bound, m, x0, y);
        },
    }
}

/// Resolving a read above a settled chain reports exactly the value that a
/// sequential replay of all its writes and deltas, in index order, produces —
/// whenever that replay is defined at every step.
pub proof fn lemma_read_matches_sequential(s: Seq<ChainEntry>, max: u128, bound: u64)
    requires
        settled_chain(s, max, bound),
        shortcuts_consistent(s),
        seq_fold(s) is Val,
    ensures
        outcome_value(spec_read(s, bound)) == Some(seq_fold(s)->Val_0),
{
    let e = s.last();
    assert(e == s[s.len() - 1]);
    assert(e.sidx < bound);
    assert(e.entry.flag == Flag::Done);
    lemma_settled_drop(s, max, bound);
    lemma_consistent_drop(s);
    match e.entry.cell {
        EntryCell::Write { value, .. } => {
            assert(seq_fold(s) == FoldState::Val(value@));
        },
        EntryCell::Delta { op, shortcut } => {
            if shortcut is Some {
                assert(s.take(s.len() as int) =~= s);
                assert(seq_fold(s) == FoldState::Val(ValueSpec::Numeric(shortcut->Some_0)));
                return ;
            }
            let prev = seq_fold(s.drop_last());
            assert(prev matches FoldState::Val(ValueSpec::Numeric(_)));
            let x0 = prev->Val_0->Numeric_0;
            let x = seq_fold(s)->Val_0->Numeric_0;
            assert(spec_apply(op, x0) == Some(x));
            assert(acc_step(DeltaAcc::Empty, op) == DeltaAcc::Merged(op));
            lemma_read_rec_applies_fold(s.drop_last(), max, bound, op, x0, x);
        },
    }
}

/// The delta operations carried by a run of delta entries.
pub open spec fn chain_delta_ops(s: Seq<ChainEntry>) -> Seq<DeltaOp> {
    s.map_values(|ce: ChainEntry| ce.entry.cell->Delta_op)
}

/// Over a chain made of one numeric base write followed by delta entries, the
/// sequential replay is exactly the in-order application of those deltas to
/// the written value.
proof fn lemma_fold_applies_ops(s: Seq<ChainEntry>, v: u128)
    requires
        s.len() >= 1,
        s[0].entry.cell matches EntryCell::Write { value, .. } && value@ == ValueSpec::Numeric(v),
        forall|t: int| 1 <= t < s.len() ==> (#[trigger] s[t].entry.cell) is Delta,
    ensures
        seq_fold(s) == (match apply_all(chain_delta_ops(s.skip(1)), v) {
            Some(x) => FoldState::Val(ValueSpec::Numeric(x)),
            None => FoldState::Stuck,
        }),
    decreases s.len(),
{
    if s.len() == 1 {
        assert(s.skip(1) =~= Seq::<ChainEntry>::empty());
        assert(chain_delta_ops(s.skip(1)) =~= Seq::<DeltaOp>::empty());
        assert(s.drop_last() =~= Seq::<ChainEntry>::empty());
    } else {
        assert(s.drop_last() =~= s.take(s.len() - 1));
        assert(s.drop_last()[0] == s[0]);
        assert forall|t: int|
            1 <= t < s.drop_last().len() implies (#[trigger] s.drop_last()[t].entry.cell)
            is Delta by {
            assert(s.drop_last()[t] == s[t]);
        }
        lemma_fold_applies_ops(s.drop_last(), v);
        let ops = chain_delta_ops(s.skip(1));
        assert(ops.len() == s.len() - 1);
        assert(ops.drop_last() =~= chain_delta_ops(s.drop_last().skip(1))) by {
            assert forall|t: int|
                0 <= t < ops.len() - 1 implies ops.drop_last()[t] == chain_delta_ops(
                s.drop_last().skip(1),
            )[t] by {
                assert(s.skip(1)[t] == s[t + 1]);
                assert(s.drop_last().skip(1)[t] == s[t + 1]);
            }
        }
        assert(s.last() == s[s.len() - 1]);
        assert(ops.last() == s.skip(1)[s.len() - 2].entry.cell->Delta_op);
        assert(s.skip(1)[s.len() - 2] == s[s.len() - 1]);
        assert(s.last().entry.cell is Delta);
    }
}

/// Which index carries which delta does not matter: two settled chains over
/// the same numeric base write and the same multiset of deltas — each of
/// which replays cleanly in its own index order — resolve reads above them
/// to the same value.
pub proof fn lemma_read_delta_rearrangement(
    c1: Seq<ChainEntry>,
    c2: Seq<ChainEntry>,
    max: u128,
    bound1: u64,
    bound2: u64,
    v: u128,
)
    requires
        settled_chain(c1, max, bound1),
        settled_chain(c2, max, bound2),
        shortcuts_consistent(c1),
        shortcuts_consistent(c2),
        c1.len() >= 1,
        c2.len() >= 1,
        c1[0].entry.cell matches EntryCell::Write { value: v1, .. } && v1@ == ValueSpec::Numeric(v),
        c2[0].entry.cell matches EntryCell::Write { value: v2, .. } && v2@ == ValueSpec::Numeric(v),
        forall|t: int| 1 <= t < c1.len() ==> (#[trigger] c1[t].entry.cell) is Delta,
        forall|t: int| 1 <= t < c2.len() ==> (#[trigger] c2[t].entry.cell) is Delta,
        chain_delta_ops(c1.skip(1)).to_multiset() == chain_delta_ops(c2.skip(1)).to_multiset(),
        seq_fold(c1) is Val,
        seq_fold(c2) is Val,
    ensures
        outcome_value(spec_read(c1, bound1)) == outcome_value(spec_read(c2, bound2)),
{
    lemma_read_matches_sequential(c1, max, bound1);
    lemma_read_matches_sequential(c2, max, bound2);
    lemma_fold_applies_ops(c1, v);
    lemma_fold_applies_ops(c2, v);
    lemma_delta_contribution_commutative(
        chain_delta_ops(c1.skip(1)),
        chain_delta_ops(c2.skip(1)),
        v,
    );
}

} // verus!
