use block_executor::types::{DelayedFieldIdGenerator, Value};

#[test]
fn value_payload_shapes() {
    let d = Value::deletion();
    assert!(d.is_deletion());
    assert_eq!(d.as_u128(), Ok(None));
    assert_eq!(d.bytes_len(), 0);

    let n = Value::from_u128(100001);
    assert!(!n.is_deletion());
    assert_eq!(n.as_u128(), Ok(Some(100001)));
    // a counter occupies a fixed 16-byte word
    assert_eq!(n.bytes_len(), 16);

    let o = Value::with_bytes(vec![1, 2, 3, 4, 5]);
    assert!(!o.is_deletion());
    assert_eq!(o.as_u128(), Err(()));
    assert_eq!(o.bytes_len(), 5);
    assert_eq!(o.as_opaque_bytes().unwrap(), &vec![1, 2, 3, 4, 5]);

    let c = o.clone();
    assert_eq!(c.bytes_len(), 5);
}

#[test]
fn delayed_field_ids_are_unique_and_increasing() {
    let mut g = DelayedFieldIdGenerator::new(10);
    let a = g.fresh_id();
    let b = g.fresh_id();
    let c = g.fresh_id();
    assert_eq!((a, b, c), (10, 11, 12));

    // a test double may start at a recognisable offset to catch identifiers
    // that escape unsubstituted
    let mut t = DelayedFieldIdGenerator::new(1 << 63);
    assert_eq!(t.fresh_id(), 1 << 63);
}
