//! The reference block-execution engine: runs an ordered block of
//! transactions against the multi-version store, one incarnation per
//! transaction, materializes each committed transaction's deltas into
//! concrete writes, and finalizes the outputs in block order. A block either
//! yields one finalized output per transaction, or a single block-level
//! error. Worker pools and commit listeners live with the embedding program;
//! this engine is the sequential baseline those workers must be equivalent
//! to.

use vstd::prelude::*;
use crate::types::{TxnIndex, StoreKey, Value};
use crate::delta::DeltaOp;
use crate::versioned_data::{
    VersionedData,
    ChainEntry,
    Entry,
    EntryCell,
    chain_of,
    chain_upsert,
    spec_shift,
    spec_read_rec,
    spec_materialize,
    DeltaAcc,
    lemma_chain_find_bounds,
    lemma_chain_upsert_preserves,
    chain_find,
    entry_view_eq,
    chain_view_eq,
    lemma_chain_find_view_eq,
    lemma_chain_upsert_view_eq,
    lemma_materialize_view_eq,
};
use crate::types::Flag;
use crate::output::{
    VMOutput,
    TransactionOutput,
    TransactionStatus,
    AptosTransactionOutput,
    Event,
    FeeStatement,
};
use crate::scheduler::{Scheduler, TxnState};

verus! {

/// What executing one transaction does: the keys it writes with their values,
/// the bounded deltas it contributes, the events it emits and the gas it
/// charges.
pub struct TxnBehavior {
    pub resource_writes: Vec<(StoreKey, Value)>,
    pub deltas: Vec<(StoreKey, DeltaOp)>,
    pub events: Vec<Event>,
    pub gas: u64,
}

/// One transaction of a block.
pub enum BlockTransaction {
    /// An ordinary transaction with the given effects.
    Write(TxnBehavior),
    /// Discards this transaction and everything after it in the block.
    SkipRest,
    /// Aborts the whole block with a user error.
    Abort,
}

/// A block-level error status.
#[derive(Clone, Copy, PartialEq, Eq, Structural, Debug)]
pub struct VMStatus {
    pub status_code: u64,
}

/// Status code reporting that a committed transaction's delta could not be
/// materialized into a value inside its bounds.
pub const DELTA_APPLICATION_FAILURE_CODE: u64 = 0xffff_ffff_ffff_ffff;

/// The deltas a transaction contributes; empty for the control variants.
pub open spec fn txn_deltas(t: BlockTransaction) -> Seq<(StoreKey, DeltaOp)> {
    match t {
        BlockTransaction::Write(b) => b.deltas@,
        _ => Seq::empty(),
    }
}

/// The writes a transaction contributes; empty for the control variants.
pub open spec fn txn_writes(t: BlockTransaction) -> Seq<(StoreKey, Value)> {
    match t {
        BlockTransaction::Write(b) => b.resource_writes@,
        _ => Seq::empty(),
    }
}

/// Whether some transaction of the block contributes a delta at `k`.
pub open spec fn delta_key(txns: Seq<BlockTransaction>, k: StoreKey) -> bool {
    exists|i: int, j: int|
        0 <= i < txns.len() && 0 <= j < txn_deltas(txns[i]).len() && (#[trigger] txn_deltas(
            txns[i],
        )[j]).0 == k
}

/// A block is well-formed when every key that carries a delta is a counter:
/// all values written there, and its base value, are numeric or deletions.
pub open spec fn block_wf(txns: Seq<BlockTransaction>, base: Seq<(StoreKey, Value)>) -> bool {
    &&& forall|i: int, j: int|
        0 <= i < txns.len() && 0 <= j < txn_writes(txns[i]).len() && delta_key(
            txns,
            (#[trigger] txn_writes(txns[i])[j]).0,
        ) ==> !(txn_writes(txns[i])[j].1@ is Opaque)
    &&& forall|j: int|
        0 <= j < base.len() && delta_key(txns, (#[trigger] base[j]).0) ==> !(base[j].1@ is Opaque)
}

/// What the engine may have recorded in one chain entry of key `k`: nothing
/// is flagged as an estimate, deltas appear only at delta keys, and at delta
/// keys every write is numeric or a deletion.
pub open spec fn entry_ok(ce: ChainEntry, txns: Seq<BlockTransaction>, k: StoreKey) -> bool {
    &&& ce.entry.flag == Flag::Done
    &&& (ce.entry.cell is Delta ==> delta_key(txns, k))
    &&& (delta_key(txns, k) ==> match ce.entry.cell {
        EntryCell::Write { value, .. } => !(value@ is Opaque),
        _ => true,
    })
}

/// `entry_ok` over a whole chain.
pub open spec fn chain_entries_ok(c: Seq<ChainEntry>, txns: Seq<BlockTransaction>, k: StoreKey) -> bool {
    forall|t: int| 0 <= t < c.len() ==> entry_ok(#[trigger] c[t], txns, k)
}

/// `entry_ok` over every chain of the store.
pub open spec fn store_ok(
    m: Map<StoreKey, Seq<ChainEntry>>,
    txns: Seq<BlockTransaction>,
) -> bool {
    forall|k: StoreKey| chain_entries_ok(#[trigger] chain_of(m, k), txns, k)
}

/// A read over a chain the engine built never meets a non-numeric value
/// under accumulated deltas.
proof fn lemma_read_not_nonnumeric(
    c: Seq<ChainEntry>,
    bound: u64,
    acc: DeltaAcc,
    txns: Seq<BlockTransaction>,
    k: StoreKey,
)
    requires
        chain_entries_ok(c, txns, k),
        acc is Empty || delta_key(txns, k),
    ensures
        !(spec_read_rec(c, bound, acc) is NonNumeric),
    decreases c.len(),
{
    if c.len() > 0 {
        let e = c.last();
        assert(e == c[c.len() - 1]);
        assert(entry_ok(e, txns, k));
        assert(c.drop_last() =~= c.take(c.len() - 1));
        if e.sidx >= bound {
            lemma_read_not_nonnumeric(c.drop_last(), bound, acc, txns, k);
        } else if e.entry.flag == Flag::Estimate {
        } else {
            match e.entry.cell {
                EntryCell::Write { .. } => {},
                EntryCell::Delta { op, shortcut } => {
                    if shortcut is None {
                        lemma_read_not_nonnumeric(
                            c.drop_last(),
                            bound,
                            crate::versioned_data::acc_step(acc, op),
                            txns,
                            k,
                        );
                    }
                },
            }
        }
    }
}

/// How a block run ends, at the transaction level: aborted by the transaction
/// at `idx`, or completed with every transaction from `skip_point` on
/// discarded (because of a skip signal or the block gas limit).
pub enum BlockOutcomeSpec {
    Aborted { idx: int },
    Completed { skip_point: int },
}

/// The block outcome, scanning from transaction `i` with `acc` gas already
/// charged: the gas limit is checked before each transaction runs.
pub open spec fn block_outcome_rec(
    txns: Seq<BlockTransaction>,
    limit: Option<u64>,
    acc: int,
    i: int,
) -> BlockOutcomeSpec
    decreases txns.len() - i,
        when 0 <= i <= txns.len()
{
    if i >= txns.len() {
        BlockOutcomeSpec::Completed { skip_point: txns.len() as int }
    } else if limit matches Some(l) && acc >= l {
        BlockOutcomeSpec::Completed { skip_point: i }
    } else {
        match txns[i] {
            BlockTransaction::Abort => BlockOutcomeSpec::Aborted { idx: i },
            BlockTransaction::SkipRest => BlockOutcomeSpec::Completed { skip_point: i },
            BlockTransaction::Write(b) => block_outcome_rec(txns, limit, acc + b.gas, i + 1),
        }
    }
}

/// The outcome of running the whole block.
pub open spec fn spec_block_outcome(txns: Seq<BlockTransaction>, limit: Option<u64>) -> BlockOutcomeSpec {
    block_outcome_rec(txns, limit, 0, 0)
}

/// The first transaction index that does not run: the aborting transaction,
/// or the first discarded one.
pub open spec fn outcome_cut(o: BlockOutcomeSpec) -> int {
    match o {
        BlockOutcomeSpec::Aborted { idx } => idx,
        BlockOutcomeSpec::Completed { skip_point } => skip_point,
    }
}

/// Key `k`'s chain after the engine has seeded the first `n` base values:
/// the first value listed for a key becomes its storage sentinel, repeats
/// change nothing.
pub open spec fn base_fold(base: Seq<(StoreKey, Value)>, k: StoreKey, n: int) -> Seq<ChainEntry>
    decreases n,
        when 0 <= n <= base.len()
{
    if n <= 0 {
        Seq::empty()
    } else {
        let c = base_fold(base, k, n - 1);
        if base[n - 1].0 == k && chain_find(c, 0) == -1 {
            chain_upsert(
                c,
                0,
                Entry {
                    cell: EntryCell::Write { incarnation: 0, value: base[n - 1].1, layout: None },
                    flag: Flag::Done,
                },
            )
        } else {
            c
        }
    }
}

/// Key `k`'s chain after the first `n` writes of one transaction (all at
/// shifted index `sidx`): a slot already written by this incarnation keeps
/// its first value.
pub open spec fn writes_fold(
    c0: Seq<ChainEntry>,
    k: StoreKey,
    ws: Seq<(StoreKey, Value)>,
    n: int,
    sidx: u64,
) -> Seq<ChainEntry>
    decreases n,
        when 0 <= n <= ws.len()
{
    if n <= 0 {
        c0
    } else {
        let c = writes_fold(c0, k, ws, n - 1, sidx);
        if ws[n - 1].0 == k && !(chain_find(c, sidx) >= 0 && c[chain_find(c, sidx)].entry.cell
            is Write) {
            chain_upsert(
                c,
                sidx,
                Entry {
                    cell: EntryCell::Write { incarnation: 0, value: ws[n - 1].1, layout: None },
                    flag: Flag::Done,
                },
            )
        } else {
            c
        }
    }
}

/// Key `k`'s chain after the first `n` deltas of one transaction: each delta
/// (re)records the slot, so the last delta listed for a key stands.
pub open spec fn deltas_fold(
    c0: Seq<ChainEntry>,
    k: StoreKey,
    ds: Seq<(StoreKey, DeltaOp)>,
    n: int,
    sidx: u64,
) -> Seq<ChainEntry>
    decreases n,
        when 0 <= n <= ds.len()
{
    if n <= 0 {
        c0
    } else {
        let c = deltas_fold(c0, k, ds, n - 1, sidx);
        if ds[n - 1].0 == k {
            chain_upsert(
                c,
                sidx,
                Entry { cell: EntryCell::Delta { op: ds[n - 1].1, shortcut: None }, flag: Flag::Done },
            )
        } else {
            c
        }
    }
}

/// Key `k`'s chain after the first `n` commit-time materializations of one
/// transaction (a failed materialization changes nothing).
pub open spec fn mats_fold(
    c0: Seq<ChainEntry>,
    k: StoreKey,
    ds: Seq<(StoreKey, DeltaOp)>,
    n: int,
    txn_idx: TxnIndex,
) -> Seq<ChainEntry>
    decreases n,
        when 0 <= n <= ds.len()
{
    if n <= 0 {
        c0
    } else {
        let c = mats_fold(c0, k, ds, n - 1, txn_idx);
        if ds[n - 1].0 == k {
            spec_materialize(c, txn_idx).0
        } else {
            c
        }
    }
}

/// Key `k`'s chain after one transaction has fully run and committed.
pub open spec fn txn_step(
    c: Seq<ChainEntry>,
    k: StoreKey,
    t: BlockTransaction,
    i: int,
) -> Seq<ChainEntry> {
    match t {
        BlockTransaction::Write(b) => mats_fold(
            deltas_fold(
                writes_fold(c, k, b.resource_writes@, b.resource_writes@.len() as int, (i + 1) as u64),
                k,
                b.deltas@,
                b.deltas@.len() as int,
                (i + 1) as u64,
            ),
            k,
            b.deltas@,
            b.deltas@.len() as int,
            i as TxnIndex,
        ),
        _ => c,
    }
}

/// Key `k`'s chain after the engine has processed the first `i` transactions
/// of the block, over the seeded base values; only transactions below the
/// block's cut run.
pub open spec fn model_chain(
    txns: Seq<BlockTransaction>,
    base: Seq<(StoreKey, Value)>,
    limit: Option<u64>,
    k: StoreKey,
    i: int,
) -> Seq<ChainEntry>
    decreases i,
        when 0 <= i <= txns.len()
{
    if i <= 0 {
        base_fold(base, k, base.len() as int)
    } else {
        let c = model_chain(txns, base, limit, k, i - 1);
        if i - 1 < outcome_cut(spec_block_outcome(txns, limit)) {
            txn_step(c, k, txns[i - 1], i - 1)
        } else {
            c
        }
    }
}

/// The chain transaction `i`'s `j`-th delta is materialized against: the
/// delta's key after the transaction's own writes and deltas and its earlier
/// materializations.
pub open spec fn mat_input_chain(
    txns: Seq<BlockTransaction>,
    base: Seq<(StoreKey, Value)>,
    limit: Option<u64>,
    i: int,
    j: int,
) -> Seq<ChainEntry> {
    match txns[i] {
        BlockTransaction::Write(b) => {
            let k = b.deltas@[j].0;
            mats_fold(
                deltas_fold(
                    writes_fold(
                        model_chain(txns, base, limit, k, i),
                        k,
                        b.resource_writes@,
                        b.resource_writes@.len() as int,
                        (i + 1) as u64,
                    ),
                    k,
                    b.deltas@,
                    b.deltas@.len() as int,
                    (i + 1) as u64,
                ),
                k,
                b.deltas@,
                j,
                i as TxnIndex,
            )
        },
        _ => Seq::empty(),
    }
}

/// What materializing transaction `i`'s `j`-th delta returns.
pub open spec fn mat_result(
    txns: Seq<BlockTransaction>,
    base: Seq<(StoreKey, Value)>,
    limit: Option<u64>,
    i: int,
    j: int,
) -> Result<u128, crate::versioned_data::MaterializeError> {
    spec_materialize(mat_input_chain(txns, base, limit, i, j), i as TxnIndex).1
}

/// Every delta of transaction `i` materializes to a value inside its bounds.
pub open spec fn txn_commit_ok(
    txns: Seq<BlockTransaction>,
    base: Seq<(StoreKey, Value)>,
    limit: Option<u64>,
    i: int,
) -> bool {
    forall|j: int|
        0 <= j < txn_deltas(txns[i]).len() ==> (#[trigger] mat_result(txns, base, limit, i, j))
            is Ok
}

/// Every transaction below `n` commits cleanly: along the sequential run, no
/// materialized delta ever leaves its bounds.
pub open spec fn commits_ok_upto(
    txns: Seq<BlockTransaction>,
    base: Seq<(StoreKey, Value)>,
    limit: Option<u64>,
    n: int,
) -> bool {
    forall|i: int| 0 <= i < n ==> #[trigger] txn_commit_ok(txns, base, limit, i)
}

proof fn lemma_outcome_rec_props(txns: Seq<BlockTransaction>, limit: Option<u64>, acc: int, i: int)
    requires
        0 <= i <= txns.len(),
    ensures
        i <= outcome_cut(block_outcome_rec(txns, limit, acc, i)) <= txns.len(),
        block_outcome_rec(txns, limit, acc, i) matches BlockOutcomeSpec::Aborted { idx } ==> idx
            < txns.len() && txns[idx] is Abort,
        forall|j: int|
            i <= j < outcome_cut(block_outcome_rec(txns, limit, acc, i)) ==> (#[trigger] txns[j])
                is Write,
    decreases txns.len() - i,
{
    if i < txns.len() && !(limit matches Some(l) && acc >= l) {
        match txns[i] {
            BlockTransaction::Write(b) => {
                lemma_outcome_rec_props(txns, limit, acc + b.gas, i + 1);
            },
            _ => {},
        }
    }
}

/// A finalized output that reports exactly transaction `i`'s effects: its
/// status is kept, its gas is the transaction's, its events are the
/// transaction's, and its write set pairs each delta's key with the counter
/// value that delta materialized to along the sequential run (in delta
/// order), followed by the transaction's own writes.
pub open spec fn output_matches_txn(
    out: TransactionOutput,
    txns: Seq<BlockTransaction>,
    base: Seq<(StoreKey, Value)>,
    limit: Option<u64>,
    i: int,
) -> bool {
    let t = txns[i];
    &&& t is Write
    &&& out.status == TransactionStatus::Keep
    &&& out.gas_used == t->Write_0.gas
    &&& out.events@.len() == t->Write_0.events@.len()
    &&& forall|e: int|
        0 <= e < out.events@.len() ==> (#[trigger] out.events@[e])@ == t->Write_0.events@[e]@
    &&& out.write_set@.len() == txn_deltas(t).len() + txn_writes(t).len()
    &&& forall|j: int|
        0 <= j < txn_deltas(t).len() ==> (#[trigger] out.write_set@[j]).0 == txn_deltas(t)[j].0
            && out.write_set@[j].1@ == crate::types::ValueSpec::Numeric(
            mat_result(txns, base, limit, i, j)->Ok_0,
        )
    &&& forall|j: int|
        0 <= j < txn_writes(t).len() ==> (#[trigger] out.write_set@[txn_deltas(t).len() + j]).0
            == txn_writes(t)[j].0 && out.write_set@[txn_deltas(t).len() + j].1@ == txn_writes(
            t,
        )[j].1@
}

/// The empty, to-be-retried output of a discarded transaction.
pub open spec fn output_is_skip(out: TransactionOutput) -> bool {
    &&& out.status == TransactionStatus::Retry
    &&& out.write_set@.len() == 0
    &&& out.events@.len() == 0
    &&& out.gas_used == 0
}

/// Copy of a write list.
fn clone_writes(v: &Vec<(StoreKey, Value)>) -> (r: Vec<(StoreKey, Value)>)
    ensures
        r@.len() == v@.len(),
        forall|j: int|
            0 <= j < v@.len() ==> (#[trigger] r@[j]).0 == v@[j].0 && r@[j].1@ == v@[j].1@,
{
    let mut r: Vec<(StoreKey, Value)> = Vec::new();
    let mut j: usize = 0;
    while j < v.len()
        invariant
            j <= v@.len(),
            r@.len() == j,
            forall|t: int|
                0 <= t < j ==> (#[trigger] r@[t]).0 == v@[t].0 && r@[t].1@ == v@[t].1@,
        decreases v@.len() - j,
    {
        r.push((v[j].0, v[j].1.clone()));
        j = j + 1;
    }
    r
}

/// Copy of a write list, with no layouts attached.
fn clone_writes_with_layout(v: &Vec<(StoreKey, Value)>) -> (r: Vec<
    (StoreKey, Value, Option<crate::types::LayoutId>),
>)
    ensures
        r@.len() == v@.len(),
{
    let mut r: Vec<(StoreKey, Value, Option<crate::types::LayoutId>)> = Vec::new();
    let mut j: usize = 0;
    while j < v.len()
        invariant
            j <= v@.len(),
            r@.len() == j,
        decreases v@.len() - j,
    {
        r.push((v[j].0, v[j].1.clone(), None));
        j = j + 1;
    }
    r
}

/// Copy of a delta list.
fn clone_deltas(v: &Vec<(StoreKey, DeltaOp)>) -> (r: Vec<(StoreKey, DeltaOp)>)
    ensures
        r@ == v@,
{
    let mut r: Vec<(StoreKey, DeltaOp)> = Vec::new();
    let mut j: usize = 0;
    while j < v.len()
        invariant
            j <= v@.len(),
            r@ == v@.take(j as int),
        decreases v@.len() - j,
    {
        r.push(v[j]);
        j = j + 1;
    }
    proof {
        assert(r@ =~= v@);
    }
    r
}

/// Copy of an event list.
fn clone_events(v: &Vec<Event>) -> (r: Vec<Event>)
    ensures
        r@.len() == v@.len(),
        forall|j: int| 0 <= j < v@.len() ==> (#[trigger] r@[j])@ == v@[j]@,
{
    let mut r: Vec<Event> = Vec::new();
    let mut j: usize = 0;
    while j < v.len()
        invariant
            j <= v@.len(),
            r@.len() == j,
            forall|t: int| 0 <= t < j ==> (#[trigger] r@[t])@ == v@[t]@,
        decreases v@.len() - j,
    {
        r.push(v[j].clone());
        j = j + 1;
    }
    r
}

/// Whether any transaction of the block contributes a delta at `k`.
fn is_delta_key(txns: &Vec<BlockTransaction>, k: StoreKey) -> (r: bool)
    ensures
        r == delta_key(txns@, k),
{
    let mut i: usize = 0;
    while i < txns.len()
        invariant
            i <= txns@.len(),
            forall|i2: int, j2: int|
                0 <= i2 < i && 0 <= j2 < txn_deltas(txns@[i2]).len() ==> (#[trigger] txn_deltas(
                    txns@[i2],
                )[j2]).0 != k,
        decreases txns@.len() - i,
    {
        match &txns[i] {
            BlockTransaction::Write(b) => {
                let mut j: usize = 0;
                while j < b.deltas.len()
                    invariant
                        i < txns@.len(),
                        j <= b.deltas@.len(),
                        txns@[i as int] matches BlockTransaction::Write(bb) && bb == *b,
                        forall|i2: int, j2: int|
                            0 <= i2 < i && 0 <= j2 < txn_deltas(txns@[i2]).len() ==> (
                            #[trigger] txn_deltas(txns@[i2])[j2]).0 != k,
                        forall|j2: int| 0 <= j2 < j ==> (#[trigger] b.deltas@[j2]).0 != k,
                    decreases b.deltas@.len() - j,
                {
                    if b.deltas[j].0 == k {
                        proof {
                            assert((txn_deltas(txns@[i as int])[j as int]).0 == k);
                        }
                        return true;
                    }
                    j = j + 1;
                }
            },
            _ => {},
        }
        proof {
            assert forall|j2: int|
                0 <= j2 < txn_deltas(txns@[i as int]).len() implies (#[trigger] txn_deltas(
                txns@[i as int],
            )[j2]).0 != k by {}
        }
        i = i + 1;
    }
    proof {
        assert(!delta_key(txns@, k)) by {
            if delta_key(txns@, k) {
                let (i2, j2) = choose|i2: int, j2: int|
                    0 <= i2 < txns@.len() && 0 <= j2 < txn_deltas(txns@[i2]).len() && (
                    #[trigger] txn_deltas(txns@[i2])[j2]).0 == k;
                assert((txn_deltas(txns@[i2])[j2]).0 != k);
            }
        }
    }
    false
}

/// Executable check of the engine's block precondition: every key that
/// carries a delta is a counter, so neither the transactions nor the base
/// values put an opaque payload there. An unverified caller tests this
/// before running the block.
pub fn check_block_wf(
    txns: &Vec<BlockTransaction>,
    base_values: &Vec<(StoreKey, Value)>,
) -> (r: bool)
    ensures
        r == block_wf(txns@, base_values@),
{
    let mut i: usize = 0;
    while i < txns.len()
        invariant
            i <= txns@.len(),
            forall|i2: int, j2: int|
                0 <= i2 < i && 0 <= j2 < txn_writes(txns@[i2]).len() && delta_key(
                    txns@,
                    (#[trigger] txn_writes(txns@[i2])[j2]).0,
                ) ==> !(txn_writes(txns@[i2])[j2].1@ is Opaque),
        decreases txns@.len() - i,
    {
        match &txns[i] {
            BlockTransaction::Write(b) => {
                let mut j: usize = 0;
                while j < b.resource_writes.len()
                    invariant
                        i < txns@.len(),
                        j <= b.resource_writes@.len(),
                        txns@[i as int] matches BlockTransaction::Write(bb) && bb == *b,
                        forall|i2: int, j2: int|
                            0 <= i2 < i && 0 <= j2 < txn_writes(txns@[i2]).len() && delta_key(
                                txns@,
                                (#[trigger] txn_writes(txns@[i2])[j2]).0,
                            ) ==> !(txn_writes(txns@[i2])[j2].1@ is Opaque),
                        forall|j2: int|
                            0 <= j2 < j && delta_key(txns@, (#[trigger] b.resource_writes@[j2]).0)
                                ==> !(b.resource_writes@[j2].1@ is Opaque),
                    decreases b.resource_writes@.len() - j,
                {
                    let opaque = b.resource_writes[j].1.as_opaque_bytes().is_some();
                    if opaque {
                        if is_delta_key(txns, b.resource_writes[j].0) {
                            proof {
                                assert(delta_key(
                                    txns@,
                                    (txn_writes(txns@[i as int])[j as int]).0,
                                ));
                                assert(txn_writes(txns@[i as int])[j as int].1@ is Opaque);
                            }
                            return false;
                        }
                    }
                    j = j + 1;
                }
            },
            _ => {},
        }
        proof {
            assert forall|j2: int|
                0 <= j2 < txn_writes(txns@[i as int]).len() && delta_key(
                    txns@,
                    (#[trigger] txn_writes(txns@[i as int])[j2]).0,
                ) implies !(txn_writes(txns@[i as int])[j2].1@ is Opaque) by {}
        }
        i = i + 1;
    }
    let mut bj: usize = 0;
    while bj < base_values.len()
        invariant
            bj <= base_values@.len(),
            forall|i2: int, j2: int|
                0 <= i2 < txns@.len() && 0 <= j2 < txn_writes(txns@[i2]).len() && delta_key(
                    txns@,
                    (#[trigger] txn_writes(txns@[i2])[j2]).0,
                ) ==> !(txn_writes(txns@[i2])[j2].1@ is Opaque),
            forall|j2: int|
                0 <= j2 < bj && delta_key(txns@, (#[trigger] base_values@[j2]).0) ==> !(
                base_values@[j2].1@ is Opaque),
        decreases base_values@.len() - bj,
    {
        let opaque = base_values[bj].1.as_opaque_bytes().is_some();
        if opaque {
            if is_delta_key(txns, base_values[bj].0) {
                return false;
            }
        }
        bj = bj + 1;
    }
    true
}

/// The block-execution entry point.
pub struct BlockAptosVM();

impl BlockAptosVM {
    /// Runs a block of transactions in order against a fresh multi-version
    /// store seeded with the given base values, materializes every committed
    /// transaction's deltas, and returns the finalized outputs in block
    /// order: one per transaction, with every transaction from the skip
    /// point on (a skip signal, or the block gas limit being reached)
    /// reduced to an empty to-be-retried output. The block succeeds exactly
    /// when no transaction aborts and every materialized delta stays within
    /// its bounds along the sequential run; an aborting transaction fails the
    /// block with its index, a delta leaving its bounds fails it with a
    /// distinct code, never a silently clamped value.
    pub fn execute_block(
        signature_verified_block: &Vec<BlockTransaction>,
        base_values: &Vec<(StoreKey, Value)>,
        maybe_block_gas_limit: Option<u64>,
    ) -> (r: Result<Vec<TransactionOutput>, VMStatus>)
        requires
            signature_verified_block@.len() <= u32::MAX as usize,
            block_wf(signature_verified_block@, base_values@),
        ensures
            ({
                let txns = signature_verified_block@;
                let base = base_values@;
                let limit = maybe_block_gas_limit;
                match spec_block_outcome(txns, limit) {
                    BlockOutcomeSpec::Aborted { idx } => r == Result::<
                        Vec<TransactionOutput>,
                        VMStatus,
                    >::Err(
                        VMStatus {
                            status_code: if commits_ok_upto(txns, base, limit, idx) {
                                idx as u64
                            } else {
                                DELTA_APPLICATION_FAILURE_CODE
                            },
                        },
                    ),
                    BlockOutcomeSpec::Completed { skip_point } => if commits_ok_upto(
                        txns,
                        base,
                        limit,
                        skip_point,
                    ) {
                        &&& r matches Ok(outs)
                        &&& outs@.len() == txns.len()
                        &&& forall|i: int|
                            0 <= i < skip_point ==> output_matches_txn(
                                #[trigger] outs@[i],
                                txns,
                                base,
                                limit,
                                i,
                            )
                        &&& forall|i: int|
                            skip_point <= i < outs@.len() ==> output_is_skip(#[trigger] outs@[i])
                    } else {
                        r == Result::<Vec<TransactionOutput>, VMStatus>::Err(
                            VMStatus { status_code: DELTA_APPLICATION_FAILURE_CODE },
                        )
                    },
                }
            }),
    {
        let ghost gtxns = signature_verified_block@;
        let ghost gbase = base_values@;
        let limit = maybe_block_gas_limit;
        let n = signature_verified_block.len();
        let mut data = VersionedData::new();
        proof {
            assert forall|k2: StoreKey|
                #[trigger] chain_view_eq(chain_of(data@, k2), base_fold(gbase, k2, 0)) by {
                assert(chain_of(data@, k2) =~= Seq::<ChainEntry>::empty());
            }
        }
        // seed the sentinel slots; for a key listed twice, the first value
        // wins and an inconsistent repeat is ignored here
        let mut bi: usize = 0;
        while bi < base_values.len()
            invariant
                bi <= base_values@.len(),
                data.inv(),
                store_ok(data@, gtxns),
                gtxns == signature_verified_block@,
                gbase == base_values@,
                block_wf(gtxns, gbase),
                forall|k2: StoreKey| #[trigger]
                    chain_view_eq(chain_of(data@, k2), base_fold(gbase, k2, bi as int)),
            decreases base_values@.len() - bi,
        {
            let k = base_values[bi].0;
            let v = base_values[bi].1.clone();
            let ghost pre = data@;
            let ghost gv = v;
            let _ = data.set_base_value(k, v, None);
            proof {
                let e = Entry {
                    cell: EntryCell::Write { incarnation: 0, value: gv, layout: None },
                    flag: Flag::Done,
                };
                let me = Entry {
                    cell: EntryCell::Write {
                        incarnation: 0,
                        value: gbase[bi as int].1,
                        layout: None,
                    },
                    flag: Flag::Done,
                };
                assert forall|k2: StoreKey|
                    chain_entries_ok(#[trigger] chain_of(data@, k2), gtxns, k2) by {
                    assert(chain_entries_ok(chain_of(pre, k2), gtxns, k2));
                    if k2 == k && chain_find(chain_of(pre, k), 0) == -1 {
                        if delta_key(gtxns, k) {
                            assert((base_values@[bi as int]).0 == k);
                            assert(delta_key(gtxns, (base_values@[bi as int]).0));
                            assert(!(base_values@[bi as int].1@ is Opaque));
                        }
                        assert(entry_ok(ChainEntry { sidx: 0, entry: e }, gtxns, k));
                        lemma_chain_upsert_preserves(
                            chain_of(pre, k),
                            0,
                            e,
                            |ce: ChainEntry| entry_ok(ce, gtxns, k),
                        );
                        assert(chain_of(data@, k) == chain_upsert(chain_of(pre, k), 0, e));
                    }
                }
                assert forall|k2: StoreKey| #[trigger]
                    chain_view_eq(chain_of(data@, k2), base_fold(gbase, k2, bi as int + 1)) by {
                    assert(chain_view_eq(chain_of(pre, k2), base_fold(gbase, k2, bi as int)));
                    let m_prev = base_fold(gbase, k2, bi as int);
                    if k2 == k {
                        lemma_chain_find_view_eq(chain_of(pre, k), m_prev, 0);
                        if chain_find(chain_of(pre, k), 0) == -1 {
                            assert(entry_view_eq(e, me));
                            lemma_chain_upsert_view_eq(chain_of(pre, k), m_prev, 0, e, me);
                            assert(base_fold(gbase, k2, bi as int + 1) == chain_upsert(
                                m_prev,
                                0,
                                me,
                            ));
                        } else {
                            assert(chain_of(data@, k2) == chain_of(pre, k2));
                            assert(base_fold(gbase, k2, bi as int + 1) == m_prev);
                        }
                    } else {
                        assert(chain_of(data@, k2) == chain_of(pre, k2));
                        assert(base_fold(gbase, k2, bi as int + 1) == m_prev);
                    }
                }
            }
            bi = bi + 1;
        }
        proof {
            assert forall|k2: StoreKey| #[trigger]
                chain_view_eq(chain_of(data@, k2), model_chain(gtxns, gbase, limit, k2, 0)) by {
                assert(chain_view_eq(chain_of(data@, k2), base_fold(gbase, k2, gbase.len() as int)));
            }
        }
        let mut scheduler = Scheduler::new(n);
        let mut results: Vec<TransactionOutput> = Vec::new();
        let mut acc_gas: u128 = 0;
        let mut skip = false;
        let ghost outcome = spec_block_outcome(gtxns, limit);
        let mut i: usize = 0;
        while i < n
            invariant
                n == gtxns.len(),
                n <= u32::MAX as usize,
                gtxns == signature_verified_block@,
                gbase == base_values@,
                block_wf(gtxns, gbase),
                limit == maybe_block_gas_limit,
                outcome == spec_block_outcome(gtxns, limit),
                i <= n,
                results@.len() == i,
                data.inv(),
                store_ok(data@, gtxns),
                scheduler.inv(),
                acc_gas as int <= (i as int) * (u64::MAX as int),
                !skip ==> block_outcome_rec(gtxns, limit, acc_gas as int, i as int) == outcome,
                !skip ==> !scheduler.spec_halted() && scheduler.spec_commit_ptr() == i
                    && scheduler.spec_states().len() == n && (forall|j: int|
                    i <= j < n ==> #[trigger] scheduler.spec_states()[j] == (TxnState::Pending {
                        incarnation: 0,
                    })),
                skip ==> (outcome matches BlockOutcomeSpec::Completed { skip_point }
                    && skip_point <= i),
                forall|j: int|
                    0 <= j < i ==> (if j < outcome_cut(outcome) {
                        output_matches_txn(#[trigger] results@[j], gtxns, gbase, limit, j)
                    } else {
                        output_is_skip(#[trigger] results@[j])
                    }),
                forall|k2: StoreKey| #[trigger]
                    chain_view_eq(chain_of(data@, k2), model_chain(gtxns, gbase, limit, k2, i as int)),
                forall|j: int|
                    0 <= j < i && j < outcome_cut(outcome) ==> #[trigger] txn_commit_ok(
                        gtxns,
                        gbase,
                        limit,
                        j,
                    ),
            decreases n - i,
        {
            if !skip {
                let reached = match limit {
                    Some(l) => acc_gas >= l as u128,
                    None => false,
                };
                if reached {
                    proof {
                        assert(outcome == (BlockOutcomeSpec::Completed { skip_point: i as int }));
                    }
                    scheduler.skip_rest(i);
                    skip = true;
                }
            }
            if skip {
                results.push(AptosTransactionOutput::skip_output().take_output());
                proof {
                    assert(outcome_cut(outcome) <= i as int);
                    assert forall|k2: StoreKey| #[trigger]
                        chain_view_eq(
                            chain_of(data@, k2),
                            model_chain(gtxns, gbase, limit, k2, i as int + 1),
                        ) by {
                        assert(chain_view_eq(
                            chain_of(data@, k2),
                            model_chain(gtxns, gbase, limit, k2, i as int),
                        ));
                        assert(model_chain(gtxns, gbase, limit, k2, i as int + 1) == model_chain(
                            gtxns,
                            gbase,
                            limit,
                            k2,
                            i as int,
                        ));
                    }
                }
                i = i + 1;
            } else {
                let t = &signature_verified_block[i];
                proof {
                    assert(*t == gtxns[i as int]);
                }
                match t {
                    BlockTransaction::Abort => {
                        proof {
                            assert(outcome == (BlockOutcomeSpec::Aborted { idx: i as int }));
                            assert forall|j: int|
                                0 <= j < i as int implies #[trigger] txn_commit_ok(
                                gtxns,
                                gbase,
                                limit,
                                j,
                            ) by {
                                assert(j < outcome_cut(outcome));
                            }
                            assert(commits_ok_upto(gtxns, gbase, limit, i as int));
                        }
                        return Err(VMStatus { status_code: i as u64 });
                    },
                    BlockTransaction::SkipRest => {
                        proof {
                            assert(outcome == (BlockOutcomeSpec::Completed {
                                skip_point: i as int,
                            }));
                        }
                        scheduler.skip_rest(i);
                        skip = true;
                        results.push(AptosTransactionOutput::skip_output().take_output());
                        proof {
                            assert forall|k2: StoreKey| #[trigger]
                                chain_view_eq(
                                    chain_of(data@, k2),
                                    model_chain(gtxns, gbase, limit, k2, i as int + 1),
                                ) by {
                                assert(chain_view_eq(
                                    chain_of(data@, k2),
                                    model_chain(gtxns, gbase, limit, k2, i as int),
                                ));
                                assert(model_chain(gtxns, gbase, limit, k2, i as int + 1)
                                    == model_chain(gtxns, gbase, limit, k2, i as int));
                            }
                        }
                        i = i + 1;
                    },
                    BlockTransaction::Write(b) => {
                        proof {
                            assert(gtxns[i as int] matches BlockTransaction::Write(bb) && bb
                                == *b);
                            lemma_outcome_rec_props(
                                gtxns,
                                limit,
                                acc_gas as int + b.gas,
                                i as int + 1,
                            );
                            assert(block_outcome_rec(
                                gtxns,
                                limit,
                                acc_gas as int + b.gas,
                                i as int + 1,
                            ) == outcome);
                            assert(i as int + 1 <= outcome_cut(outcome));
                        }
                        let started = scheduler.try_start(i);
                        proof {
                            assert(started == Some(0u32));
                        }
                        // record the transaction's writes; a key written
                        // twice keeps its first value for this incarnation
                        let mut wj: usize = 0;
                        proof {
                            assert forall|k2: StoreKey| #[trigger]
                                chain_view_eq(
                                    chain_of(data@, k2),
                                    writes_fold(
                                        model_chain(gtxns, gbase, limit, k2, i as int),
                                        k2,
                                        b.resource_writes@,
                                        0,
                                        spec_shift(i as u32),
                                    ),
                                ) by {
                                assert(chain_view_eq(
                                    chain_of(data@, k2),
                                    model_chain(gtxns, gbase, limit, k2, i as int),
                                ));
                            }
                        }
                        while wj < b.resource_writes.len()
                            invariant
                                wj <= b.resource_writes@.len(),
                                data.inv(),
                                store_ok(data@, gtxns),
                                gtxns == signature_verified_block@,
                                gbase == base_values@,
                                block_wf(gtxns, gbase),
                                i < gtxns.len(),
                                gtxns[i as int] matches BlockTransaction::Write(bb) && bb == *b,
                                n == gtxns.len(),
                                n <= u32::MAX as usize,
                                forall|k2: StoreKey| #[trigger]
                                    chain_view_eq(
                                        chain_of(data@, k2),
                                        writes_fold(
                                            model_chain(gtxns, gbase, limit, k2, i as int),
                                            k2,
                                            b.resource_writes@,
                                            wj as int,
                                            spec_shift(i as u32),
                                        ),
                                    ),
                            decreases b.resource_writes@.len() - wj,
                        {
                            let k = b.resource_writes[wj].0;
                            let v = b.resource_writes[wj].1.clone();
                            let ghost pre = data@;
                            let ghost gv = v;
                            let res = data.write(k, i as u32, 0, v, None);
                            proof {
                                let e = Entry {
                                    cell: EntryCell::Write {
                                        incarnation: 0,
                                        value: gv,
                                        layout: None,
                                    },
                                    flag: Flag::Done,
                                };
                                let me = Entry {
                                    cell: EntryCell::Write {
                                        incarnation: 0,
                                        value: b.resource_writes@[wj as int].1,
                                        layout: None,
                                    },
                                    flag: Flag::Done,
                                };
                                assert forall|k2: StoreKey|
                                    chain_entries_ok(
                                        #[trigger] chain_of(data@, k2),
                                        gtxns,
                                        k2,
                                    ) by {
                                    assert(chain_entries_ok(chain_of(pre, k2), gtxns, k2));
                                    if res is Ok && k2 == k {
                                        if delta_key(gtxns, k) {
                                            assert((txn_writes(gtxns[i as int])[wj as int]).0
                                                == k);
                                            assert(!(txn_writes(gtxns[i as int])[wj as int].1@
                                                is Opaque));
                                        }
                                        assert(entry_ok(
                                            ChainEntry { sidx: spec_shift(i as u32), entry: e },
                                            gtxns,
                                            k,
                                        ));
                                        lemma_chain_upsert_preserves(
                                            chain_of(pre, k),
                                            spec_shift(i as u32),
                                            e,
                                            |ce: ChainEntry| entry_ok(ce, gtxns, k),
                                        );
                                        assert(chain_of(data@, k) == chain_upsert(
                                            chain_of(pre, k),
                                            spec_shift(i as u32),
                                            e,
                                        ));
                                    }
                                }
                                assert forall|k2: StoreKey| #[trigger]
                                    chain_view_eq(
                                        chain_of(data@, k2),
                                        writes_fold(
                                            model_chain(gtxns, gbase, limit, k2, i as int),
                                            k2,
                                            b.resource_writes@,
                                            wj as int + 1,
                                            spec_shift(i as u32),
                                        ),
                                    ) by {
                                    let m_prev = writes_fold(
                                        model_chain(gtxns, gbase, limit, k2, i as int),
                                        k2,
                                        b.resource_writes@,
                                        wj as int,
                                        spec_shift(i as u32),
                                    );
                                    assert(chain_view_eq(chain_of(pre, k2), m_prev));
                                    if k2 == k {
                                        lemma_chain_find_view_eq(
                                            chain_of(pre, k),
                                            m_prev,
                                            spec_shift(i as u32),
                                        );
                                        let f = chain_find(chain_of(pre, k), spec_shift(i as u32));
                                        lemma_chain_find_bounds(
                                            chain_of(pre, k),
                                            spec_shift(i as u32),
                                        );
                                        if f >= 0 {
                                            assert(entry_view_eq(
                                                chain_of(pre, k)[f].entry,
                                                m_prev[f].entry,
                                            ));
                                        }
                                        if res is Ok {
                                            assert(entry_view_eq(e, me));
                                            lemma_chain_upsert_view_eq(
                                                chain_of(pre, k),
                                                m_prev,
                                                spec_shift(i as u32),
                                                e,
                                                me,
                                            );
                                        } else {
                                            assert(chain_of(data@, k2) == chain_of(pre, k2));
                                        }
                                    } else {
                                        assert(chain_of(data@, k2) == chain_of(pre, k2));
                                    }
                                }
                            }
                            wj = wj + 1;
                        }
                        // record the transaction's deltas
                        let mut dj: usize = 0;
                        proof {
                            assert forall|k2: StoreKey| #[trigger]
                                chain_view_eq(
                                    chain_of(data@, k2),
                                    deltas_fold(
                                        writes_fold(
                                            model_chain(gtxns, gbase, limit, k2, i as int),
                                            k2,
                                            b.resource_writes@,
                                            b.resource_writes@.len() as int,
                                            spec_shift(i as u32),
                                        ),
                                        k2,
                                        b.deltas@,
                                        0,
                                        spec_shift(i as u32),
                                    ),
                                ) by {
                                assert(chain_view_eq(
                                    chain_of(data@, k2),
                                    writes_fold(
                                        model_chain(gtxns, gbase, limit, k2, i as int),
                                        k2,
                                        b.resource_writes@,
                                        b.resource_writes@.len() as int,
                                        spec_shift(i as u32),
                                    ),
                                ));
                            }
                        }
                        while dj < b.deltas.len()
                            invariant
                                dj <= b.deltas@.len(),
                                data.inv(),
                                store_ok(data@, gtxns),
                                gtxns == signature_verified_block@,
                                gbase == base_values@,
                                block_wf(gtxns, gbase),
                                i < gtxns.len(),
                                gtxns[i as int] matches BlockTransaction::Write(bb) && bb == *b,
                                n == gtxns.len(),
                                n <= u32::MAX as usize,
                                forall|k2: StoreKey| #[trigger]
                                    chain_view_eq(
                                        chain_of(data@, k2),
                                        deltas_fold(
                                            writes_fold(
                                                model_chain(gtxns, gbase, limit, k2, i as int),
                                                k2,
                                                b.resource_writes@,
                                                b.resource_writes@.len() as int,
                                                spec_shift(i as u32),
                                            ),
                                            k2,
                                            b.deltas@,
                                            dj as int,
                                            spec_shift(i as u32),
                                        ),
                                    ),
                            decreases b.deltas@.len() - dj,
                        {
                            let k = b.deltas[dj].0;
                            let d = b.deltas[dj].1;
                            let ghost pre = data@;
                            data.add_delta(k, i as u32, d);
                            proof {
                                assert((txn_deltas(gtxns[i as int])[dj as int]).0 == k);
                                assert(delta_key(gtxns, k));
                                let e = Entry {
                                    cell: EntryCell::Delta { op: d, shortcut: None },
                                    flag: Flag::Done,
                                };
                                assert forall|k2: StoreKey|
                                    chain_entries_ok(
                                        #[trigger] chain_of(data@, k2),
                                        gtxns,
                                        k2,
                                    ) by {
                                    assert(chain_entries_ok(chain_of(pre, k2), gtxns, k2));
                                    if k2 == k {
                                        assert(entry_ok(
                                            ChainEntry { sidx: spec_shift(i as u32), entry: e },
                                            gtxns,
                                            k,
                                        ));
                                        lemma_chain_upsert_preserves(
                                            chain_of(pre, k),
                                            spec_shift(i as u32),
                                            e,
                                            |ce: ChainEntry| entry_ok(ce, gtxns, k),
                                        );
                                        assert(chain_of(data@, k) == chain_upsert(
                                            chain_of(pre, k),
                                            spec_shift(i as u32),
                                            e,
                                        ));
                                    }
                                }
                                assert forall|k2: StoreKey| #[trigger]
                                    chain_view_eq(
                                        chain_of(data@, k2),
                                        deltas_fold(
                                            writes_fold(
                                                model_chain(gtxns, gbase, limit, k2, i as int),
                                                k2,
                                                b.resource_writes@,
                                                b.resource_writes@.len() as int,
                                                spec_shift(i as u32),
                                            ),
                                            k2,
                                            b.deltas@,
                                            dj as int + 1,
                                            spec_shift(i as u32),
                                        ),
                                    ) by {
                                    let m_prev = deltas_fold(
                                        writes_fold(
                                            model_chain(gtxns, gbase, limit, k2, i as int),
                                            k2,
                                            b.resource_writes@,
                                            b.resource_writes@.len() as int,
                                            spec_shift(i as u32),
                                        ),
                                        k2,
                                        b.deltas@,
                                        dj as int,
                                        spec_shift(i as u32),
                                    );
                                    assert(chain_view_eq(chain_of(pre, k2), m_prev));
                                    if k2 == k {
                                        assert(entry_view_eq(e, e));
                                        lemma_chain_upsert_view_eq(
                                            chain_of(pre, k),
                                            m_prev,
                                            spec_shift(i as u32),
                                            e,
                                            e,
                                        );
                                    } else {
                                        assert(chain_of(data@, k2) == chain_of(pre, k2));
                                    }
                                }
                            }
                            dj = dj + 1;
                        }
                        let finished = scheduler.finish_execution(i);
                        proof {
                            assert(finished is Ok);
                        }
                        // commit: materialize this transaction's deltas into
                        // concrete counter writes
                        let mut agg_writes: Vec<(StoreKey, Value)> = Vec::new();
                        let mut mj: usize = 0;
                        proof {
                            assert forall|k2: StoreKey| #[trigger]
                                chain_view_eq(
                                    chain_of(data@, k2),
                                    mats_fold(
                                        deltas_fold(
                                            writes_fold(
                                                model_chain(gtxns, gbase, limit, k2, i as int),
                                                k2,
                                                b.resource_writes@,
                                                b.resource_writes@.len() as int,
                                                spec_shift(i as u32),
                                            ),
                                            k2,
                                            b.deltas@,
                                            b.deltas@.len() as int,
                                            spec_shift(i as u32),
                                        ),
                                        k2,
                                        b.deltas@,
                                        0,
                                        i as u32,
                                    ),
                                ) by {
                                assert(chain_view_eq(
                                    chain_of(data@, k2),
                                    deltas_fold(
                                        writes_fold(
                                            model_chain(gtxns, gbase, limit, k2, i as int),
                                            k2,
                                            b.resource_writes@,
                                            b.resource_writes@.len() as int,
                                            spec_shift(i as u32),
                                        ),
                                        k2,
                                        b.deltas@,
                                        b.deltas@.len() as int,
                                        spec_shift(i as u32),
                                    ),
                                ));
                            }
                        }
                        while mj < b.deltas.len()
                            invariant
                                mj <= b.deltas@.len(),
                                agg_writes@.len() == mj,
                                data.inv(),
                                store_ok(data@, gtxns),
                                gtxns == signature_verified_block@,
                                gbase == base_values@,
                                limit == maybe_block_gas_limit,
                                block_wf(gtxns, gbase),
                                i < gtxns.len(),
                                gtxns[i as int] matches BlockTransaction::Write(bb) && bb == *b,
                                n == gtxns.len(),
                                n <= u32::MAX as usize,
                                outcome == spec_block_outcome(gtxns, limit),
                                i as int + 1 <= outcome_cut(outcome),
                                forall|j: int|
                                    0 <= j < mj ==> #[trigger] mat_result(
                                        gtxns,
                                        gbase,
                                        limit,
                                        i as int,
                                        j,
                                    ) is Ok,
                                forall|j: int|
                                    0 <= j < mj ==> (#[trigger] agg_writes@[j]).0
                                        == b.deltas@[j].0 && agg_writes@[j].1@
                                        == crate::types::ValueSpec::Numeric(
                                        mat_result(gtxns, gbase, limit, i as int, j)->Ok_0,
                                    ),
                                forall|k2: StoreKey| #[trigger]
                                    chain_view_eq(
                                        chain_of(data@, k2),
                                        mats_fold(
                                            deltas_fold(
                                                writes_fold(
                                                    model_chain(gtxns, gbase, limit, k2, i as int),
                                                    k2,
                                                    b.resource_writes@,
                                                    b.resource_writes@.len() as int,
                                                    spec_shift(i as u32),
                                                ),
                                                k2,
                                                b.deltas@,
                                                b.deltas@.len() as int,
                                                spec_shift(i as u32),
                                            ),
                                            k2,
                                            b.deltas@,
                                            mj as int,
                                            i as u32,
                                        ),
                                    ),
                            decreases b.deltas@.len() - mj,
                        {
                            let k = b.deltas[mj].0;
                            proof {
                                lemma_read_not_nonnumeric(
                                    chain_of(data@, k),
                                    (spec_shift(i as u32) + 1) as u64,
                                    DeltaAcc::Empty,
                                    gtxns,
                                    k,
                                );
                            }
                            let ghost pre = data@;
                            let ghost m_prev = mats_fold(
                                deltas_fold(
                                    writes_fold(
                                        model_chain(gtxns, gbase, limit, k, i as int),
                                        k,
                                        b.resource_writes@,
                                        b.resource_writes@.len() as int,
                                        spec_shift(i as u32),
                                    ),
                                    k,
                                    b.deltas@,
                                    b.deltas@.len() as int,
                                    spec_shift(i as u32),
                                ),
                                k,
                                b.deltas@,
                                mj as int,
                                i as u32,
                            );
                            proof {
                                assert(chain_view_eq(chain_of(pre, k), m_prev));
                                lemma_materialize_view_eq(chain_of(pre, k), m_prev, i as u32);
                                assert((i as int + 1) as u64 == spec_shift(i as u32));
                                assert((i as int) as TxnIndex == i as u32);
                                assert(mat_input_chain(gtxns, gbase, limit, i as int, mj as int)
                                    == m_prev);
                                assert(mat_result(gtxns, gbase, limit, i as int, mj as int)
                                    == spec_materialize(chain_of(pre, k), i as u32).1);
                            }
                            match data.materialize_delta(k, i as u32) {
                                Ok(v) => {
                                    agg_writes.push((k, Value::from_u128(v)));
                                    proof {
                                        assert(mat_result(gtxns, gbase, limit, i as int, mj as int)
                                            == Result::<
                                            u128,
                                            crate::versioned_data::MaterializeError,
                                        >::Ok(v));
                                        // the resolved slot exists, so the
                                        // store updated exactly that chain
                                        lemma_chain_find_bounds(
                                            chain_of(pre, k),
                                            spec_shift(i as u32),
                                        );
                                        assert(chain_of(pre, k).len() > 0);
                                        assert(pre.dom().contains(k));
                                        assert forall|k2: StoreKey|
                                            chain_entries_ok(
                                                #[trigger] chain_of(data@, k2),
                                                gtxns,
                                                k2,
                                            ) by {
                                            assert(chain_entries_ok(
                                                chain_of(pre, k2),
                                                gtxns,
                                                k2,
                                            ));
                                            if k2 == k {
                                                let c = chain_of(pre, k);
                                                let f = chain_find(c, spec_shift(i as u32));
                                                lemma_chain_find_bounds(c, spec_shift(i as u32));
                                                let c2 = chain_of(data@, k);
                                                assert forall|u: int|
                                                    0 <= u < c2.len() implies entry_ok(
                                                    #[trigger] c2[u],
                                                    gtxns,
                                                    k,
                                                ) by {
                                                    if u != f {
                                                        assert(c2[u] == c[u]);
                                                    } else {
                                                        assert(entry_ok(c[f], gtxns, k));
                                                    }
                                                }
                                            }
                                        }
                                        assert forall|k2: StoreKey| #[trigger]
                                            chain_view_eq(
                                                chain_of(data@, k2),
                                                mats_fold(
                                                    deltas_fold(
                                                        writes_fold(
                                                            model_chain(
                                                                gtxns,
                                                                gbase,
                                                                limit,
                                                                k2,
                                                                i as int,
                                                            ),
                                                            k2,
                                                            b.resource_writes@,
                                                            b.resource_writes@.len() as int,
                                                            spec_shift(i as u32),
                                                        ),
                                                        k2,
                                                        b.deltas@,
                                                        b.deltas@.len() as int,
                                                        spec_shift(i as u32),
                                                    ),
                                                    k2,
                                                    b.deltas@,
                                                    mj as int + 1,
                                                    i as u32,
                                                ),
                                            ) by {
                                            if k2 == k {
                                                assert(chain_of(data@, k) == spec_materialize(
                                                    chain_of(pre, k),
                                                    i as u32,
                                                ).0);
                                            } else {
                                                assert(chain_view_eq(
                                                    chain_of(pre, k2),
                                                    mats_fold(
                                                        deltas_fold(
                                                            writes_fold(
                                                                model_chain(
                                                                    gtxns,
                                                                    gbase,
                                                                    limit,
                                                                    k2,
                                                                    i as int,
                                                                ),
                                                                k2,
                                                                b.resource_writes@,
                                                                b.resource_writes@.len() as int,
                                                                spec_shift(i as u32),
                                                            ),
                                                            k2,
                                                            b.deltas@,
                                                            b.deltas@.len() as int,
                                                            spec_shift(i as u32),
                                                        ),
                                                        k2,
                                                        b.deltas@,
                                                        mj as int,
                                                        i as u32,
                                                    ),
                                                ));
                                                assert(chain_of(data@, k2) == chain_of(pre, k2));
                                            }
                                        }
                                    }
                                },
                                Err(_) => {
                                    proof {
                                        assert(!(mat_result(
                                            gtxns,
                                            gbase,
                                            limit,
                                            i as int,
                                            mj as int,
                                        ) is Ok));
                                        assert(!txn_commit_ok(gtxns, gbase, limit, i as int));
                                        let cut = outcome_cut(outcome);
                                        if commits_ok_upto(gtxns, gbase, limit, cut) {
                                            assert(txn_commit_ok(gtxns, gbase, limit, i as int));
                                            assert(false);
                                        }
                                    }
                                    return Err(
                                        VMStatus {
                                            status_code: DELTA_APPLICATION_FAILURE_CODE,
                                        },
                                    );
                                },
                            }
                            mj = mj + 1;
                        }
                        // finalize this transaction's output
                        let vm = VMOutput {
                            resource_writes: clone_writes_with_layout(&b.resource_writes),
                            module_writes: Vec::new(),
                            aggregator_v1_writes: Vec::new(),
                            aggregator_v1_deltas: clone_deltas(&b.deltas),
                            delayed_field_changes: Vec::new(),
                            events: clone_events(&b.events),
                            fee_statement: FeeStatement::new(
                                b.gas,
                                b.gas / 2,
                                b.gas / 2 + b.gas % 2,
                                0,
                                0,
                            ),
                            status: TransactionStatus::Keep,
                        };
                        let mut holder = AptosTransactionOutput::new(vm);
                        let patched = clone_writes(&b.resource_writes);
                        let patched_events = clone_events(&b.events);
                        let ghost gagg = agg_writes@;
                        let ghost gpatched = patched@;
                        let incorporated = holder.incorporate_materialized_txn_output(
                            agg_writes,
                            patched,
                            patched_events,
                        );
                        proof {
                            assert(incorporated is Ok);
                        }
                        let out = holder.take_output();
                        proof {
                            assert(out.write_set@ =~= gagg + gpatched);
                            assert(txn_deltas(gtxns[i as int]) == b.deltas@);
                            assert forall|j: int|
                                0 <= j < txn_deltas(gtxns[i as int]).len() implies (
                            #[trigger] out.write_set@[j]).0 == txn_deltas(gtxns[i as int])[j].0
                                && out.write_set@[j].1@ == crate::types::ValueSpec::Numeric(
                                mat_result(gtxns, gbase, limit, i as int, j)->Ok_0,
                            ) by {
                                assert(out.write_set@[j] == gagg[j]);
                            }
                            assert(output_matches_txn(out, gtxns, gbase, limit, i as int));
                            assert(txn_commit_ok(gtxns, gbase, limit, i as int));
                        }
                        results.push(out);
                        let committed = scheduler.try_commit();
                        proof {
                            assert(committed == Some(i as TxnIndex));
                        }
                        proof {
                            assert forall|k2: StoreKey| #[trigger]
                                chain_view_eq(
                                    chain_of(data@, k2),
                                    model_chain(gtxns, gbase, limit, k2, i as int + 1),
                                ) by {
                                assert(chain_view_eq(
                                    chain_of(data@, k2),
                                    mats_fold(
                                        deltas_fold(
                                            writes_fold(
                                                model_chain(gtxns, gbase, limit, k2, i as int),
                                                k2,
                                                b.resource_writes@,
                                                b.resource_writes@.len() as int,
                                                spec_shift(i as u32),
                                            ),
                                            k2,
                                            b.deltas@,
                                            b.deltas@.len() as int,
                                            spec_shift(i as u32),
                                        ),
                                        k2,
                                        b.deltas@,
                                        b.deltas@.len() as int,
                                        i as u32,
                                    ),
                                ));
                                assert((i as int) < outcome_cut(outcome));
                                assert((i as int + 1) as u64 == spec_shift(i as u32));
                                assert((i as int) as TxnIndex == i as u32);
                                assert(gtxns[i as int] == BlockTransaction::Write(*b));
                                assert(model_chain(gtxns, gbase, limit, k2, i as int + 1)
                                    == txn_step(
                                    model_chain(gtxns, gbase, limit, k2, i as int),
                                    k2,
                                    gtxns[i as int],
                                    i as int,
                                ));
                            }
                        }
                        proof {
                            assert(acc_gas + b.gas as u128 <= ((i as int) + 1) * (
                            u64::MAX as int)) by (nonlinear_arith)
                                requires
                                    acc_gas as int <= (i as int) * (u64::MAX as int),
                                    b.gas <= u64::MAX,
                            ;
                            assert(((i as int) + 1) * (u64::MAX as int) < (0x1_0000_0000int) * (
                            0x1_0000_0000_0000_0000int)) by (nonlinear_arith)
                                requires
                                    (i as int) + 1 <= 0x1_0000_0000int,
                            ;
                        }
                        acc_gas = acc_gas + (b.gas as u128);
                        i = i + 1;
                    },
                }
            }
        }
        proof {
            if !skip {
                assert(outcome == (BlockOutcomeSpec::Completed { skip_point: n as int }));
            }
            assert(outcome is Completed);
            let sp = outcome->Completed_skip_point;
            assert(sp == outcome_cut(outcome));
            assert(sp <= n);
            lemma_outcome_rec_props(gtxns, limit, 0, 0);
            assert(0 <= sp);
            assert forall|j: int| 0 <= j < sp implies output_matches_txn(
                #[trigger] results@[j],
                gtxns,
                gbase,
                limit,
                j,
            ) by {
                assert(j < outcome_cut(outcome));
            }
            assert(commits_ok_upto(gtxns, gbase, limit, sp));
            assert forall|j: int| sp <= j < results@.len() implies output_is_skip(
                #[trigger] results@[j],
            ) by {
                assert(!(j < outcome_cut(outcome)));
            }
        }
        Ok(results)
    }
}

} // verus!
