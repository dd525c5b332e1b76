//! Lifecycle of one transaction's execution output: speculative and mutable
//! while the transaction may still be invalidated, then — in a single one-way
//! step — finalized with its deltas materialized into concrete writes.
//! Finalizing twice, or reading the speculative projections after
//! finalization, is a caller error and is reported loudly.

use vstd::prelude::*;
use crate::types::{StoreKey, Value, LayoutId, FatalError, DelayedFieldValue};
use crate::delta::DeltaOp;

verus! {

/// Status a transaction output carries into the committed block.
#[derive(Clone, Copy, PartialEq, Eq, Structural, Debug)]
pub enum TransactionStatus {
    /// The transaction is committed and its writes take effect.
    Keep,
    /// The transaction is discarded.
    Discard,
    /// The transaction must be retried in a later block (it came after a
    /// signal to skip the rest of this one).
    Retry,
}

/// One emitted event, with an opaque payload.
#[derive(Debug)]
pub struct Event {
    pub data: Vec<u8>,
}

impl View for Event {
    type V = Seq<u8>;

    open spec fn view(&self) -> Seq<u8> {
        self.data@
    }
}

impl Clone for Event {
    fn clone(&self) -> (res: Self)
        ensures
            res@ == self@,
    {
        Event { data: crate::types::clone_bytes(&self.data) }
    }
}

/// A transaction's fee statement: total gas and its breakdown.
#[derive(Clone, Copy, PartialEq, Eq, Structural, Debug)]
pub struct FeeStatement {
    pub total_charge_gas_units: u64,
    pub execution_gas_units: u64,
    pub io_gas_units: u64,
    pub storage_fee_octas: u64,
    pub storage_fee_refund_octas: u64,
}

/// The all-zero fee statement.
pub open spec fn spec_fee_zero() -> FeeStatement {
    FeeStatement {
        total_charge_gas_units: 0,
        execution_gas_units: 0,
        io_gas_units: 0,
        storage_fee_octas: 0,
        storage_fee_refund_octas: 0,
    }
}

impl FeeStatement {
    /// A fee statement with the given charges.
    pub fn new(
        total_charge_gas_units: u64,
        execution_gas_units: u64,
        io_gas_units: u64,
        storage_fee_octas: u64,
        storage_fee_refund_octas: u64,
    ) -> (r: FeeStatement)
        ensures
            r == (FeeStatement {
                total_charge_gas_units,
                execution_gas_units,
                io_gas_units,
                storage_fee_octas,
                storage_fee_refund_octas,
            }),
    {
        FeeStatement {
            total_charge_gas_units,
            execution_gas_units,
            io_gas_units,
            storage_fee_octas,
            storage_fee_refund_octas,
        }
    }

    /// An all-zero fee statement.
    pub fn zero() -> (r: FeeStatement)
        ensures
            r == spec_fee_zero(),
    {
        FeeStatement {
            total_charge_gas_units: 0,
            execution_gas_units: 0,
            io_gas_units: 0,
            storage_fee_octas: 0,
            storage_fee_refund_octas: 0,
        }
    }
}

/// A transaction's speculative output, as execution produced it: its writes,
/// deltas, events and fee, still subject to invalidation.
#[derive(Debug)]
pub struct VMOutput {
    pub resource_writes: Vec<(StoreKey, Value, Option<LayoutId>)>,
    pub module_writes: Vec<(StoreKey, Value)>,
    pub aggregator_v1_writes: Vec<(StoreKey, Value)>,
    pub aggregator_v1_deltas: Vec<(StoreKey, DeltaOp)>,
    pub delayed_field_changes: Vec<(u64, DelayedFieldValue)>,
    pub events: Vec<Event>,
    pub fee_statement: FeeStatement,
    pub status: TransactionStatus,
}

impl VMOutput {
    /// An output with no effects and the given status.
    pub fn empty_with_status(status: TransactionStatus) -> (r: VMOutput)
        ensures
            r.resource_writes@ == Seq::<(StoreKey, Value, Option<LayoutId>)>::empty(),
            r.module_writes@ == Seq::<(StoreKey, Value)>::empty(),
            r.aggregator_v1_writes@ == Seq::<(StoreKey, Value)>::empty(),
            r.aggregator_v1_deltas@ == Seq::<(StoreKey, DeltaOp)>::empty(),
            r.delayed_field_changes@ == Seq::<(u64, DelayedFieldValue)>::empty(),
            r.events@ == Seq::<Event>::empty(),
            r.fee_statement == spec_fee_zero(),
            r.status == status,
    {
        VMOutput {
            resource_writes: Vec::new(),
            module_writes: Vec::new(),
            aggregator_v1_writes: Vec::new(),
            aggregator_v1_deltas: Vec::new(),
            delayed_field_changes: Vec::new(),
            events: Vec::new(),
            fee_statement: FeeStatement::zero(),
            status,
        }
    }
}

/// A finalized, immutable transaction output: the concrete write set (deltas
/// already materialized), the events, the gas charged and the status.
#[derive(Debug)]
pub struct TransactionOutput {
    pub write_set: Vec<(StoreKey, Value)>,
    pub events: Vec<Event>,
    pub gas_used: u64,
    pub status: TransactionStatus,
}

/// The two stages of an output's life.
#[derive(Debug)]
pub enum OutputState {
    Speculative(VMOutput),
    Committed(TransactionOutput),
}

/// Holder of one transaction's output across its lifecycle: speculative
/// projections before commit, the finalized output after.
#[derive(Debug)]
pub struct AptosTransactionOutput {
    state: OutputState,
}

impl View for AptosTransactionOutput {
    type V = OutputState;

    closed spec fn view(&self) -> OutputState {
        self.state
    }
}

/// The write set of a finalized output: the materialized aggregator writes,
/// then the (patched) resource writes, then the module writes.
pub open spec fn spec_committed_writes(
    vm: VMOutput,
    aggregator_v1_writes: Seq<(StoreKey, Value)>,
    patched_resource_writes: Seq<(StoreKey, Value)>,
) -> Seq<(StoreKey, Value)> {
    aggregator_v1_writes + patched_resource_writes + vm.module_writes@
}

impl AptosTransactionOutput {
    /// Wraps a freshly produced speculative output.
    pub fn new(output: VMOutput) -> (r: AptosTransactionOutput)
        ensures
            r@ == OutputState::Speculative(output),
    {
        AptosTransactionOutput { state: OutputState::Speculative(output) }
    }

    /// Output for a discarded transaction (one that comes after a skip
    /// signal): an empty finalized output, to be retried in a later block. It
    /// bypasses the speculative stage — there is nothing to invalidate.
    pub fn skip_output() -> (r: AptosTransactionOutput)
        ensures
            r@ matches OutputState::Committed(t),
            r@->Committed_0.write_set@.len() == 0,
            r@->Committed_0.events@.len() == 0,
            r@->Committed_0.gas_used == 0,
            r@->Committed_0.status == TransactionStatus::Retry,
    {
        AptosTransactionOutput {
            state: OutputState::Committed(
                TransactionOutput {
                    write_set: Vec::new(),
                    events: Vec::new(),
                    gas_used: 0,
                    status: TransactionStatus::Retry,
                },
            ),
        }
    }

    /// The speculative resource writes. Must not be read once finalized.
    pub fn resource_write_set(&self) -> (r: &Vec<(StoreKey, Value, Option<LayoutId>)>)
        requires
            self@ is Speculative,
        ensures
            *r == self@->Speculative_0.resource_writes,
    {
        match &self.state {
            OutputState::Speculative(vm) => &vm.resource_writes,
            OutputState::Committed(_) => unreached(),
        }
    }

    /// The speculative module writes. Must not be read once finalized.
    pub fn module_write_set(&self) -> (r: &Vec<(StoreKey, Value)>)
        requires
            self@ is Speculative,
        ensures
            *r == self@->Speculative_0.module_writes,
    {
        match &self.state {
            OutputState::Speculative(vm) => &vm.module_writes,
            OutputState::Committed(_) => unreached(),
        }
    }

    /// The speculative aggregator writes. Must not be read once finalized.
    pub fn aggregator_v1_write_set(&self) -> (r: &Vec<(StoreKey, Value)>)
        requires
            self@ is Speculative,
        ensures
            *r == self@->Speculative_0.aggregator_v1_writes,
    {
        match &self.state {
            OutputState::Speculative(vm) => &vm.aggregator_v1_writes,
            OutputState::Committed(_) => unreached(),
        }
    }

    /// The speculative aggregator delta set. Must not be read once finalized.
    pub fn aggregator_v1_delta_set(&self) -> (r: &Vec<(StoreKey, DeltaOp)>)
        requires
            self@ is Speculative,
        ensures
            *r == self@->Speculative_0.aggregator_v1_deltas,
    {
        match &self.state {
            OutputState::Speculative(vm) => &vm.aggregator_v1_deltas,
            OutputState::Committed(_) => unreached(),
        }
    }

    /// The speculative delayed-field change set. Must not be read once
    /// finalized.
    pub fn delayed_field_change_set(&self) -> (r: &Vec<(u64, DelayedFieldValue)>)
        requires
            self@ is Speculative,
        ensures
            *r == self@->Speculative_0.delayed_field_changes,
    {
        match &self.state {
            OutputState::Speculative(vm) => &vm.delayed_field_changes,
            OutputState::Committed(_) => unreached(),
        }
    }

    /// The speculative event list. Must not be read once finalized.
    pub fn get_events(&self) -> (r: &Vec<Event>)
        requires
            self@ is Speculative,
        ensures
            *r == self@->Speculative_0.events,
    {
        match &self.state {
            OutputState::Speculative(vm) => &vm.events,
            OutputState::Committed(_) => unreached(),
        }
    }

    /// The transaction's fee statement. Must not be read once finalized.
    pub fn fee_statement(&self) -> (r: FeeStatement)
        requires
            self@ is Speculative,
        ensures
            r == self@->Speculative_0.fee_statement,
    {
        match &self.state {
            OutputState::Speculative(vm) => vm.fee_statement,
            OutputState::Committed(_) => unreached(),
        }
    }

    /// The one-shot transition from speculative to finalized: consumes the
    /// speculative output and combines it with the materialized aggregator
    /// writes, the patched resource writes and the patched events into the
    /// committed output. Finalizing an already finalized output is a fatal
    /// caller error and changes nothing.
    pub fn incorporate_materialized_txn_output(
        &mut self,
        aggregator_v1_writes: Vec<(StoreKey, Value)>,
        patched_resource_writes: Vec<(StoreKey, Value)>,
        patched_events: Vec<Event>,
    ) -> (r: Result<(), FatalError>)
        ensures
            match old(self)@ {
                OutputState::Speculative(vm) => {
                    &&& r == Result::<(), FatalError>::Ok(())
                    &&& final(self)@ matches OutputState::Committed(t)
                    &&& t.write_set@ == spec_committed_writes(
                        vm,
                        aggregator_v1_writes@,
                        patched_resource_writes@,
                    )
                    &&& t.events == patched_events
                    &&& t.gas_used == vm.fee_statement.total_charge_gas_units
                    &&& t.status == vm.status
                },
                OutputState::Committed(_) => r == Result::<(), FatalError>::Err(
                    FatalError::DoubleFinalize,
                ) && *final(self) == *old(self),
            },
    {
        match &self.state {
            OutputState::Committed(_) => Err(FatalError::DoubleFinalize),
            OutputState::Speculative(_) => {
                let mut taken = OutputState::Committed(
                    TransactionOutput {
                        write_set: Vec::new(),
                        events: Vec::new(),
                        gas_used: 0,
                        status: TransactionStatus::Retry,
                    },
                );
                core::mem::swap(&mut self.state, &mut taken);
                match taken {
                    OutputState::Speculative(vm) => {
                        let VMOutput {
                            resource_writes: _,
                            module_writes,
                            aggregator_v1_writes: _,
                            aggregator_v1_deltas: _,
                            delayed_field_changes: _,
                            events: _,
                            fee_statement,
                            status,
                        } = vm;
                        let mut write_set = aggregator_v1_writes;
                        let mut patched_resource_writes = patched_resource_writes;
                        let mut module_writes = module_writes;
                        write_set.append(&mut patched_resource_writes);
                        write_set.append(&mut module_writes);
                        self.state = OutputState::Committed(
                            TransactionOutput {
                                write_set,
                                events: patched_events,
                                gas_used: fee_statement.total_charge_gas_units,
                                status,
                            },
                        );
                        Ok(())
                    },
                    OutputState::Committed(_) => {
                        proof {
                            assert(false);
                        }
                        Err(FatalError::DoubleFinalize)
                    },
                }
            },
        }
    }

    /// The finalized output, readable once the transition has happened.
    pub fn committed_output(&self) -> (r: &TransactionOutput)
        requires
            self@ is Committed,
        ensures
            *r == self@->Committed_0,
    {
        match &self.state {
            OutputState::Committed(t) => t,
            OutputState::Speculative(_) => unreached(),
        }
    }

    /// Takes the output out of the holder: the finalized output when the
    /// transition has happened, otherwise the speculative output converted
    /// directly (nothing materialized — the write set is its resource, module
    /// and aggregator writes in order).
    pub fn take_output(self) -> (r: TransactionOutput)
        ensures
            match self@ {
                OutputState::Committed(t) => r == t,
                OutputState::Speculative(vm) => {
                    &&& r.write_set@.len() == vm.aggregator_v1_writes@.len()
                        + vm.resource_writes@.len() + vm.module_writes@.len()
                    &&& r.events == vm.events
                    &&& r.gas_used == vm.fee_statement.total_charge_gas_units
                    &&& r.status == vm.status
                    &&& forall|i: int|
                        0 <= i < vm.aggregator_v1_writes@.len() ==> #[trigger] r.write_set@[i]
                            == vm.aggregator_v1_writes@[i]
                    &&& forall|i: int|
                        0 <= i < vm.resource_writes@.len()
                            ==> #[trigger] r.write_set@[vm.aggregator_v1_writes@.len() + i].0
                            == vm.resource_writes@[i].0
                            && r.write_set@[vm.aggregator_v1_writes@.len() + i].1@
                            == vm.resource_writes@[i].1@
                    &&& forall|i: int|
                        0 <= i < vm.module_writes@.len()
                            ==> #[trigger] r.write_set@[vm.aggregator_v1_writes@.len()
                            + vm.resource_writes@.len() + i] == vm.module_writes@[i]
                },
            },
    {
        let ghost orig = self@;
        match self.state {
            OutputState::Committed(t) => t,
            OutputState::Speculative(vm) => {
                let VMOutput {
                    resource_writes,
                    module_writes,
                    aggregator_v1_writes,
                    aggregator_v1_deltas: _,
                    delayed_field_changes: _,
                    events,
                    fee_statement,
                    status,
                } = vm;
                let mut write_set = aggregator_v1_writes;
                let mut stripped: Vec<(StoreKey, Value)> = Vec::new();
                let mut i: usize = 0;
                while i < resource_writes.len()
                    invariant
                        i <= resource_writes@.len(),
                        stripped@.len() == i,
                        forall|j: int|
                            0 <= j < i ==> #[trigger] stripped@[j].0 == resource_writes@[j].0
                                && stripped@[j].1@ == resource_writes@[j].1@,
                    decreases resource_writes@.len() - i,
                {
                    let k = resource_writes[i].0;
                    let v = resource_writes[i].1.clone();
                    stripped.push((k, v));
                    i = i + 1;
                }
                let mut stripped = stripped;
                let mut module_writes = module_writes;
                write_set.append(&mut stripped);
                write_set.append(&mut module_writes);
                proof {
                    let gvm = orig->Speculative_0;
                    let na = gvm.aggregator_v1_writes@.len() as int;
                    let nr = gvm.resource_writes@.len() as int;
                    let nm = gvm.module_writes@.len() as int;
                    assert(write_set@.len() == na + nr + nm);
                    assert forall|j: int|
                        0 <= j < na implies #[trigger] write_set@[j]
                        == gvm.aggregator_v1_writes@[j] by {}
                    assert forall|j: int|
                        0 <= j < nr implies #[trigger] write_set@[na + j].0
                        == gvm.resource_writes@[j].0 && write_set@[na + j].1@
                        == gvm.resource_writes@[j].1@ by {}
                    assert forall|j: int|
                        0 <= j < nm implies #[trigger] write_set@[na + nr + j]
                        == gvm.module_writes@[j] by {}
                }
                TransactionOutput {
                    write_set,
                    events,
                    gas_used: fee_statement.total_charge_gas_units,
                    status,
                }
            },
        }
    }
}

} // verus!
