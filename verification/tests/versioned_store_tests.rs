use block_executor::delta::{delta_add, delta_sub};
use block_executor::types::{FatalError, StoreKey, Value};
use block_executor::versioned_data::{MVDataError, MVDataOutput, MaterializeError, VersionedData};

fn key(id: u64) -> StoreKey {
    StoreKey { id, module: false }
}

#[test]
fn read_resolves_deltas_over_the_base_value() {
    // sentinel value 100 with bound 1000; transaction 1 adds 50, transaction
    // 2 subtracts 20; a read at index 3 sees 130
    let mut data = VersionedData::new();
    data.set_base_value(key(7), Value::from_u128(100), None).unwrap();
    data.add_delta(key(7), 1, delta_add(50, 1000));
    data.add_delta(key(7), 2, delta_sub(20, 1000));
    match data.fetch_data(key(7), 3) {
        Ok(MVDataOutput::Resolved(v)) => assert_eq!(v, 130),
        other => panic!("expected a resolved read, got {:?}", other),
    }
}

#[test]
fn materialize_fails_on_bounds_violation_instead_of_saturating() {
    // same deltas, but the bound is 120: materializing transaction 1's delta
    // would give 100 + 50 = 150 > 120 and must fail
    let mut data = VersionedData::new();
    data.set_base_value(key(7), Value::from_u128(100), None).unwrap();
    data.add_delta(key(7), 1, delta_add(50, 120));
    data.add_delta(key(7), 2, delta_sub(20, 120));
    match data.materialize_delta(key(7), 1) {
        Err(MaterializeError::Fatal(_)) => {}
        other => panic!("expected a bounds failure, got {:?}", other),
    }
    // the read through both deltas (net +30) fails the same way
    match data.fetch_data(key(7), 3) {
        Err(MVDataError::DeltaApplicationFailure) => {}
        other => panic!("expected a delta application failure, got {:?}", other),
    }
}

#[test]
fn write_with_regressing_incarnation_fails_fatally() {
    let mut data = VersionedData::new();
    data.write(key(3), 5, 1, Value::from_u128(10), None).unwrap();
    let r = data.write(key(3), 5, 0, Value::from_u128(11), None);
    assert_eq!(r, Err(FatalError::IncarnationRegression));
    // the same incarnation is a regression too
    let r = data.write(key(3), 5, 1, Value::from_u128(11), None);
    assert_eq!(r, Err(FatalError::IncarnationRegression));
    // a strictly higher incarnation is accepted
    assert_eq!(data.write(key(3), 5, 2, Value::from_u128(12), None), Ok(()));
}

#[test]
fn mark_estimate_without_entry_fails_fatally() {
    let mut data = VersionedData::new();
    assert_eq!(data.mark_estimate(key(9), 4), Err(FatalError::MissingEntry));
    data.write(key(9), 3, 0, Value::from_u128(1), None).unwrap();
    // right key, wrong index
    assert_eq!(data.mark_estimate(key(9), 4), Err(FatalError::MissingEntry));
    assert_eq!(data.mark_estimate(key(9), 3), Ok(()));
}

#[test]
fn read_below_estimate_reports_dependency() {
    let mut data = VersionedData::new();
    data.set_base_value(key(1), Value::from_u128(100), None).unwrap();
    data.write(key(1), 2, 0, Value::from_u128(7), None).unwrap();
    data.mark_estimate(key(1), 2).unwrap();
    match data.fetch_data(key(1), 5) {
        Err(MVDataError::Dependency(j)) => assert_eq!(j, 2),
        other => panic!("expected a dependency, got {:?}", other),
    }
    // deltas above the estimate do not mask it
    data.add_delta(key(1), 3, delta_add(1, 1000));
    match data.fetch_data(key(1), 5) {
        Err(MVDataError::Dependency(j)) => assert_eq!(j, 2),
        other => panic!("expected a dependency, got {:?}", other),
    }
}

#[test]
fn deletion_overrides_accumulated_deltas() {
    // deltas at indices 1..=4, a deletion write at index 5: a read at 6
    // resolves to the deletion, not to arithmetic
    let mut data = VersionedData::new();
    data.set_base_value(key(2), Value::from_u128(100), None).unwrap();
    for i in 1..=4u32 {
        data.add_delta(key(2), i, delta_add(10, 1000));
    }
    data.write(key(2), 5, 0, Value::deletion(), None).unwrap();
    match data.fetch_data(key(2), 6) {
        Ok(MVDataOutput::Versioned(version, value, _layout)) => {
            assert_eq!(version, Some((5, 0)));
            assert!(value.is_deletion());
        }
        other => panic!("expected the deletion, got {:?}", other),
    }
    // deltas above the deletion rescue nothing: the deletion still wins
    data.add_delta(key(2), 7, delta_add(3, 1000));
    match data.fetch_data(key(2), 8) {
        Ok(MVDataOutput::Versioned(version, value, _layout)) => {
            assert_eq!(version, Some((5, 0)));
            assert!(value.is_deletion());
        }
        other => panic!("expected the deletion, got {:?}", other),
    }
}

#[test]
fn read_at_block_length_equals_sequential_replay() {
    // base 100; +50 at 1; write 40 at 2; -15 at 3; +5 at 4: replaying in
    // index order gives ((100 + 50 overwritten by) 40 - 15 + 5) = 30
    let mut data = VersionedData::new();
    data.set_base_value(key(13), Value::from_u128(100), None).unwrap();
    data.add_delta(key(13), 1, delta_add(50, 1000));
    data.write(key(13), 2, 0, Value::from_u128(40), None).unwrap();
    data.add_delta(key(13), 3, delta_sub(15, 1000));
    data.add_delta(key(13), 4, delta_add(5, 1000));
    let block_length = 5;
    match data.fetch_data(key(13), block_length) {
        Ok(MVDataOutput::Resolved(v)) => assert_eq!(v, 40 - 15 + 5),
        other => panic!("expected the replayed value, got {:?}", other),
    }
}

#[test]
fn delta_assignment_to_indices_does_not_change_the_value() {
    // the same two deltas, distributed over the indices in either order,
    // resolve to the same counter value
    let mut a = VersionedData::new();
    a.set_base_value(key(14), Value::from_u128(100), None).unwrap();
    a.add_delta(key(14), 1, delta_add(50, 1000));
    a.add_delta(key(14), 2, delta_sub(20, 1000));
    let mut b = VersionedData::new();
    b.set_base_value(key(14), Value::from_u128(100), None).unwrap();
    b.add_delta(key(14), 1, delta_sub(20, 1000));
    b.add_delta(key(14), 2, delta_add(50, 1000));
    let va = match a.fetch_data(key(14), 3) {
        Ok(MVDataOutput::Resolved(v)) => v,
        other => panic!("expected a resolved read, got {:?}", other),
    };
    let vb = match b.fetch_data(key(14), 3) {
        Ok(MVDataOutput::Resolved(v)) => v,
        other => panic!("expected a resolved read, got {:?}", other),
    };
    assert_eq!(va, vb);
    assert_eq!(va, 130);
}

#[test]
fn materialize_is_idempotent() {
    let mut data = VersionedData::new();
    data.set_base_value(key(4), Value::from_u128(100), None).unwrap();
    data.add_delta(key(4), 1, delta_add(50, 1000));
    let first = data.materialize_delta(key(4), 1);
    assert_eq!(first, Ok(150));
    let second = data.materialize_delta(key(4), 1);
    assert_eq!(second, Ok(150));
    // the shortcut short-circuits later reads
    match data.fetch_data(key(4), 2) {
        Ok(MVDataOutput::Resolved(v)) => assert_eq!(v, 150),
        other => panic!("expected the cached resolution, got {:?}", other),
    }
}

#[test]
fn unresolved_and_uninitialized_reads() {
    let mut data = VersionedData::new();
    // nothing at all below the reader
    assert!(matches!(data.fetch_data(key(6), 3), Err(MVDataError::Uninitialized)));
    // only a delta below: the accumulated delta is handed back
    let d = delta_add(5, 1000);
    data.add_delta(key(6), 1, d);
    match data.fetch_data(key(6), 3) {
        Err(MVDataError::Unresolved(op)) => assert_eq!(op, d),
        other => panic!("expected the outstanding delta, got {:?}", other),
    }
    // materializing it reports the outstanding delta the same way
    assert_eq!(data.materialize_delta(key(6), 1), Err(MaterializeError::Unresolved(d)));
}

#[test]
fn remove_requires_an_entry() {
    let mut data = VersionedData::new();
    assert_eq!(data.remove(key(8), 1), Err(FatalError::MissingEntry));
    data.add_delta(key(8), 1, delta_add(5, 1000));
    assert_eq!(data.remove(key(8), 1), Ok(()));
    assert!(matches!(data.fetch_data(key(8), 3), Err(MVDataError::Uninitialized)));
}

#[test]
fn base_value_is_write_once_and_checked() {
    let mut data = VersionedData::new();
    data.set_base_value(key(5), Value::from_u128(1), None).unwrap();
    // same length again: accepted, first value kept
    data.set_base_value(key(5), Value::from_u128(2), None).unwrap();
    match data.fetch_data(key(5), 1) {
        Ok(MVDataOutput::Versioned(version, value, _)) => {
            assert_eq!(version, None);
            assert_eq!(value.as_u128(), Ok(Some(1)));
        }
        other => panic!("expected the base value, got {:?}", other),
    }
    // different byte length without a layout: rejected loudly
    let r = data.set_base_value(key(5), Value::with_bytes(vec![1, 2, 3]), None);
    assert_eq!(r, Err(FatalError::InconsistentBaseValue));
    // layout presence must match as well
    let r = data.set_base_value(key(5), Value::from_u128(1), Some(7));
    assert_eq!(r, Err(FatalError::InconsistentBaseValue));
}

#[test]
fn a_recorded_shortcut_freezes_the_materialized_value() {
    let mut data = VersionedData::new();
    data.set_base_value(key(11), Value::from_u128(100), None).unwrap();
    data.add_delta(key(11), 1, delta_add(50, 1000));
    assert_eq!(data.materialize_delta(key(11), 1), Ok(150));
    // even if data below the committed delta changes afterwards (which a
    // correct scheduler never does), the cached resolution short-circuits
    // the re-read: the committed value never silently shifts
    data.write(key(11), 0, 0, Value::from_u128(200), None).unwrap();
    assert_eq!(data.materialize_delta(key(11), 1), Ok(150));
    match data.fetch_data(key(11), 2) {
        Ok(MVDataOutput::Resolved(v)) => assert_eq!(v, 150),
        other => panic!("expected the cached resolution, got {:?}", other),
    }
}

#[test]
fn materializing_a_slot_without_a_delta_is_fatal() {
    let mut data = VersionedData::new();
    // no row at all
    assert_eq!(
        data.materialize_delta(key(12), 1),
        Err(MaterializeError::Fatal(FatalError::InconsistentMaterialization))
    );
    // a write, not a delta, at the slot
    data.write(key(12), 1, 0, Value::from_u128(5), None).unwrap();
    assert_eq!(
        data.materialize_delta(key(12), 1),
        Err(MaterializeError::Fatal(FatalError::InconsistentMaterialization))
    );
}

#[test]
fn read_resolves_directly_to_latest_write() {
    let mut data = VersionedData::new();
    data.set_base_value(key(10), Value::with_bytes(vec![9; 4]), None).unwrap();
    data.write(key(10), 1, 0, Value::with_bytes(vec![1; 4]), None).unwrap();
    data.write(key(10), 4, 2, Value::with_bytes(vec![2; 4]), Some(11)).unwrap();
    match data.fetch_data(key(10), 5) {
        Ok(MVDataOutput::Versioned(version, value, layout)) => {
            assert_eq!(version, Some((4, 2)));
            assert_eq!(value.bytes_len(), 4);
            assert_eq!(layout, Some(11));
        }
        other => panic!("expected the latest write, got {:?}", other),
    }
    // a reader below index 4 sees the earlier write
    match data.fetch_data(key(10), 2) {
        Ok(MVDataOutput::Versioned(version, _, layout)) => {
            assert_eq!(version, Some((1, 0)));
            assert_eq!(layout, None);
        }
        other => panic!("expected the earlier write, got {:?}", other),
    }
}
