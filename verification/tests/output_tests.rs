use block_executor::delta::delta_add;
use block_executor::output::{
    AptosTransactionOutput, Event, FeeStatement, TransactionStatus, VMOutput,
};
use block_executor::types::{FatalError, StoreKey, Value};

fn key(id: u64) -> StoreKey {
    StoreKey { id, module: false }
}

fn sample_output() -> VMOutput {
    VMOutput {
        resource_writes: vec![(key(1), Value::from_u128(10), None)],
        module_writes: vec![(key(2), Value::with_bytes(vec![7]))],
        aggregator_v1_writes: vec![],
        aggregator_v1_deltas: vec![(key(3), delta_add(5, 100))],
        delayed_field_changes: vec![],
        events: vec![Event { data: vec![1, 2] }],
        fee_statement: FeeStatement::new(9, 4, 5, 0, 0),
        status: TransactionStatus::Keep,
    }
}

#[test]
fn speculative_projections_are_readable_repeatedly() {
    let holder = AptosTransactionOutput::new(sample_output());
    assert_eq!(holder.resource_write_set().len(), 1);
    assert_eq!(holder.resource_write_set().len(), 1);
    assert_eq!(holder.module_write_set().len(), 1);
    assert_eq!(holder.aggregator_v1_write_set().len(), 0);
    assert_eq!(holder.aggregator_v1_delta_set().len(), 1);
    assert_eq!(holder.delayed_field_change_set().len(), 0);
    assert_eq!(holder.get_events().len(), 1);
    assert_eq!(holder.fee_statement().total_charge_gas_units, 9);
}

#[test]
fn finalization_is_one_shot() {
    let mut holder = AptosTransactionOutput::new(sample_output());
    let agg = vec![(key(3), Value::from_u128(105))];
    let patched = vec![(key(1), Value::from_u128(10))];
    let events = vec![Event { data: vec![1, 2] }];
    assert_eq!(holder.incorporate_materialized_txn_output(agg, patched, events), Ok(()));
    let committed = holder.committed_output();
    // aggregator write, patched resource write, module write — in order
    assert_eq!(committed.write_set.len(), 3);
    assert_eq!(committed.write_set[0].0, key(3));
    assert_eq!(committed.write_set[0].1.as_u128(), Ok(Some(105)));
    assert_eq!(committed.write_set[1].0, key(1));
    assert_eq!(committed.write_set[2].0, key(2));
    assert_eq!(committed.gas_used, 9);
    assert_eq!(committed.status, TransactionStatus::Keep);
    // a second finalization is a loud error, not stale data
    let r = holder.incorporate_materialized_txn_output(vec![], vec![], vec![]);
    assert_eq!(r, Err(FatalError::DoubleFinalize));
    // taking the output hands out the committed form
    let taken = holder.take_output();
    assert_eq!(taken.write_set.len(), 3);
    assert_eq!(taken.events.len(), 1);
}

#[test]
fn take_output_converts_a_speculative_output_directly() {
    let holder = AptosTransactionOutput::new(sample_output());
    let out = holder.take_output();
    // aggregator writes (none), resource writes, module writes
    assert_eq!(out.write_set.len(), 2);
    assert_eq!(out.write_set[0].0, key(1));
    assert_eq!(out.write_set[1].0, key(2));
    assert_eq!(out.gas_used, 9);
    assert_eq!(out.status, TransactionStatus::Keep);
}

#[test]
fn skip_output_is_empty_and_retried() {
    let holder = AptosTransactionOutput::skip_output();
    let out = holder.take_output();
    assert_eq!(out.write_set.len(), 0);
    assert_eq!(out.events.len(), 0);
    assert_eq!(out.gas_used, 0);
    assert_eq!(out.status, TransactionStatus::Retry);
}
