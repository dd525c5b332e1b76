use block_executor::types::{DelayedFieldValue, StoreKey, Value};
use block_executor::unsync_map::{ExecutableUnit, MVModulesOutput, UnsyncMap};

fn module_key(id: u64) -> StoreKey {
    StoreKey { id, module: true }
}

#[test]
fn write_then_fetch_data_returns_latest() {
    let mut map = UnsyncMap::new();
    let k = StoreKey { id: 1, module: false };
    assert!(map.fetch_data(k).is_none());
    map.write(k, Value::from_u128(5), Some(3));
    let (v, layout) = map.fetch_data(k).unwrap();
    assert_eq!(v.as_u128(), Ok(Some(5)));
    assert_eq!(layout, Some(3));
    // only the latest version matters
    map.write(k, Value::from_u128(6), None);
    let (v, layout) = map.fetch_data(k).unwrap();
    assert_eq!(v.as_u128(), Ok(Some(6)));
    assert_eq!(layout, None);
}

#[test]
fn fetch_module_memoizes_and_distinguishes_executables() {
    let mut map = UnsyncMap::new();
    let k = module_key(2);
    assert!(map.fetch_module(k).is_none());
    map.write(k, Value::with_bytes(vec![1, 2, 3]), None);
    // first fetch: only the raw module, hash freshly computed
    let hash = match map.fetch_module(k).unwrap() {
        MVModulesOutput::Module(v, h) => {
            assert_eq!(v.bytes_len(), 3);
            h
        }
        MVModulesOutput::Executable(..) => panic!("nothing was compiled yet"),
    };
    // second fetch: the same (memoized) hash
    match map.fetch_module(k).unwrap() {
        MVModulesOutput::Module(_, h) => assert_eq!(h, hash),
        MVModulesOutput::Executable(..) => panic!("nothing was compiled yet"),
    }
    // cache an executable under that hash: fetch now reports it
    let fresh = map.store_executable(hash, ExecutableUnit { artifact: vec![9, 9] });
    assert!(!fresh);
    match map.fetch_module(k).unwrap() {
        MVModulesOutput::Executable(x, h) => {
            assert_eq!(h, hash);
            assert_eq!(x.size_bytes(), 2);
        }
        MVModulesOutput::Module(..) => panic!("the executable must be found"),
    }
}

#[test]
fn store_executable_is_non_destructive_and_counts_bytes() {
    let mut map = UnsyncMap::new();
    assert_eq!(map.executable_size(), 0);
    let already = map.store_executable(42, ExecutableUnit { artifact: vec![0; 10] });
    assert!(!already);
    assert_eq!(map.executable_size(), 10);
    // storing again under the same hash reports it was cached and changes
    // nothing
    let already = map.store_executable(42, ExecutableUnit { artifact: vec![0; 99] });
    assert!(already);
    assert_eq!(map.executable_size(), 10);
    let already = map.store_executable(43, ExecutableUnit { artifact: vec![0; 5] });
    assert!(!already);
    assert_eq!(map.executable_size(), 15);
}

#[test]
fn delayed_fields_round_trip() {
    let mut map = UnsyncMap::new();
    assert!(map.fetch_delayed_field(7).is_none());
    map.write_delayed_field(7, DelayedFieldValue::Aggregator(100));
    match map.fetch_delayed_field(7) {
        Some(DelayedFieldValue::Aggregator(v)) => assert_eq!(v, 100),
        other => panic!("expected the aggregator value, got {:?}", other),
    }
    map.write_delayed_field(7, DelayedFieldValue::Snapshot(3));
    match map.fetch_delayed_field(7) {
        Some(DelayedFieldValue::Snapshot(v)) => assert_eq!(v, 3),
        other => panic!("expected the snapshot, got {:?}", other),
    }
    map.write_delayed_field(8, DelayedFieldValue::Derived(vec![1]));
    assert!(map.fetch_delayed_field(8).is_some());
    assert!(map.fetch_delayed_field(9).is_none());
}

#[test]
fn content_hash_depends_on_content() {
    let mut map = UnsyncMap::new();
    let k1 = module_key(1);
    let k2 = module_key(2);
    map.write(k1, Value::with_bytes(vec![1, 2, 3]), None);
    map.write(k2, Value::with_bytes(vec![1, 2, 4]), None);
    let h1 = match map.fetch_module(k1).unwrap() {
        MVModulesOutput::Module(_, h) => h,
        MVModulesOutput::Executable(_, h) => h,
    };
    let h2 = match map.fetch_module(k2).unwrap() {
        MVModulesOutput::Module(_, h) => h,
        MVModulesOutput::Executable(_, h) => h,
    };
    assert_ne!(h1, h2);
}
