use block_executor::block_executor::{
    check_block_wf, BlockAptosVM, BlockTransaction, TxnBehavior, VMStatus,
    DELTA_APPLICATION_FAILURE_CODE,
};
use block_executor::delta::{delta_add, delta_sub};
use block_executor::output::{Event, TransactionStatus};
use block_executor::types::{StoreKey, Value};

fn key(id: u64) -> StoreKey {
    StoreKey { id, module: false }
}

fn write_txn(
    writes: Vec<(StoreKey, Value)>,
    deltas: Vec<(StoreKey, block_executor::delta::DeltaOp)>,
    gas: u64,
) -> BlockTransaction {
    BlockTransaction::Write(TxnBehavior { resource_writes: writes, deltas, events: vec![], gas })
}

#[test]
fn a_block_of_deltas_materializes_against_the_base() {
    // sentinel 100 with bound 1000; +50 then -20: the committed counter
    // values are 150 and 130
    let txns = vec![
        write_txn(vec![], vec![(key(1), delta_add(50, 1000))], 1),
        write_txn(vec![], vec![(key(1), delta_sub(20, 1000))], 1),
    ];
    let base = vec![(key(1), Value::from_u128(100))];
    let outs = BlockAptosVM::execute_block(&txns, &base, None).unwrap();
    assert_eq!(outs.len(), 2);
    assert_eq!(outs[0].status, TransactionStatus::Keep);
    assert_eq!(outs[0].write_set.len(), 1);
    assert_eq!(outs[0].write_set[0].0, key(1));
    assert_eq!(outs[0].write_set[0].1.as_u128(), Ok(Some(150)));
    assert_eq!(outs[1].write_set[0].1.as_u128(), Ok(Some(130)));
}

#[test]
fn delta_overflow_fails_the_block_not_silently() {
    // bound 120: materializing 100 + 50 must fail with the distinct code
    let txns = vec![write_txn(vec![], vec![(key(1), delta_add(50, 120))], 1)];
    let base = vec![(key(1), Value::from_u128(100))];
    let r = BlockAptosVM::execute_block(&txns, &base, None);
    assert_eq!(r.unwrap_err(), VMStatus { status_code: DELTA_APPLICATION_FAILURE_CODE });
}

#[test]
fn writes_and_reads_flow_through_the_outputs() {
    let txns = vec![
        write_txn(vec![(key(2), Value::from_u128(7))], vec![], 3),
        write_txn(vec![(key(2), Value::deletion())], vec![], 4),
    ];
    let outs = BlockAptosVM::execute_block(&txns, &vec![], None).unwrap();
    assert_eq!(outs.len(), 2);
    assert_eq!(outs[0].gas_used, 3);
    assert_eq!(outs[0].write_set.len(), 1);
    assert_eq!(outs[0].write_set[0].1.as_u128(), Ok(Some(7)));
    assert!(outs[1].write_set[0].1.is_deletion());
}

#[test]
fn skip_rest_discards_the_tail_of_the_block() {
    let txns = vec![
        write_txn(vec![(key(3), Value::from_u128(1))], vec![], 1),
        BlockTransaction::SkipRest,
        write_txn(vec![(key(3), Value::from_u128(2))], vec![], 1),
    ];
    let outs = BlockAptosVM::execute_block(&txns, &vec![], None).unwrap();
    assert_eq!(outs.len(), 3);
    assert_eq!(outs[0].status, TransactionStatus::Keep);
    assert_eq!(outs[1].status, TransactionStatus::Retry);
    assert_eq!(outs[2].status, TransactionStatus::Retry);
    assert_eq!(outs[2].write_set.len(), 0);
}

#[test]
fn the_block_gas_limit_skips_trailing_transactions() {
    let txns = vec![
        write_txn(vec![(key(4), Value::from_u128(1))], vec![], 5),
        write_txn(vec![(key(4), Value::from_u128(2))], vec![], 5),
        write_txn(vec![(key(4), Value::from_u128(3))], vec![], 5),
    ];
    // the limit is reached after the first transaction's 5 units
    let outs = BlockAptosVM::execute_block(&txns, &vec![], Some(5)).unwrap();
    assert_eq!(outs.len(), 3);
    assert_eq!(outs[0].status, TransactionStatus::Keep);
    assert_eq!(outs[1].status, TransactionStatus::Retry);
    assert_eq!(outs[2].status, TransactionStatus::Retry);
}

#[test]
fn an_aborting_transaction_fails_the_block_with_its_index() {
    let txns = vec![
        write_txn(vec![(key(5), Value::from_u128(1))], vec![], 1),
        BlockTransaction::Abort,
        write_txn(vec![(key(5), Value::from_u128(2))], vec![], 1),
    ];
    let r = BlockAptosVM::execute_block(&txns, &vec![], None);
    assert_eq!(r.unwrap_err(), VMStatus { status_code: 1 });
}

#[test]
fn events_and_gas_are_carried_into_the_outputs() {
    let txns = vec![BlockTransaction::Write(TxnBehavior {
        resource_writes: vec![],
        deltas: vec![],
        events: vec![Event { data: vec![1, 2, 3] }, Event { data: vec![4] }],
        gas: 7,
    })];
    let outs = BlockAptosVM::execute_block(&txns, &vec![], None).unwrap();
    assert_eq!(outs[0].events.len(), 2);
    assert_eq!(outs[0].events[0].data, vec![1, 2, 3]);
    assert_eq!(outs[0].events[1].data, vec![4]);
    assert_eq!(outs[0].gas_used, 7);
}

#[test]
fn the_block_precondition_is_testable() {
    // a counter key receiving both a delta and an opaque write is rejected
    let bad = vec![
        write_txn(vec![(key(9), Value::with_bytes(vec![1, 2]))], vec![], 1),
        write_txn(vec![], vec![(key(9), delta_add(1, 100))], 1),
    ];
    assert!(!check_block_wf(&bad, &vec![]));
    // an opaque base value at a delta-carrying key is rejected too
    let txns = vec![write_txn(vec![], vec![(key(9), delta_add(1, 100))], 1)];
    let bad_base = vec![(key(9), Value::with_bytes(vec![1]))];
    assert!(!check_block_wf(&txns, &bad_base));
    // opaque data away from the counters is fine
    let good = vec![
        write_txn(vec![(key(8), Value::with_bytes(vec![1, 2]))], vec![], 1),
        write_txn(vec![], vec![(key(9), delta_add(1, 100))], 1),
    ];
    let base = vec![(key(9), Value::from_u128(5))];
    assert!(check_block_wf(&good, &base));
}

#[test]
fn an_empty_block_yields_no_outputs() {
    let outs = BlockAptosVM::execute_block(&vec![], &vec![], Some(10)).unwrap();
    assert!(outs.is_empty());
}

#[test]
fn a_delta_after_a_deletion_fails_the_block() {
    // transaction 0 deletes the counter, transaction 1 still sends a delta:
    // materialization cannot resolve it and the block reports the failure
    let txns = vec![
        write_txn(vec![(key(6), Value::deletion())], vec![], 1),
        write_txn(vec![], vec![(key(6), delta_add(1, 100))], 1),
    ];
    let base = vec![(key(6), Value::from_u128(50))];
    let r = BlockAptosVM::execute_block(&txns, &base, None);
    assert_eq!(r.unwrap_err(), VMStatus { status_code: DELTA_APPLICATION_FAILURE_CODE });
}
