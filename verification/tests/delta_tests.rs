use block_executor::delta::{delta_add, delta_sub, DeltaFailure, DeltaOp, DeltaUpdate};

#[test]
fn apply_within_bounds_succeeds() {
    let d = delta_add(50, 1000);
    assert_eq!(d.apply(100), Ok(150));
    let d = delta_sub(20, 1000);
    assert_eq!(d.apply(150), Ok(130));
}

#[test]
fn apply_fails_exactly_outside_bounds() {
    // upper bound: 100 + 50 = 150 > 120
    let d = delta_add(50, 120);
    assert_eq!(d.apply(100), Err(DeltaFailure {}));
    // exactly at the bound is fine
    let d = delta_add(20, 120);
    assert_eq!(d.apply(100), Ok(120));
    // lower bound: 10 - 20 < 0
    let d = delta_sub(20, 120);
    assert_eq!(d.apply(10), Err(DeltaFailure {}));
    // a base already above the bound fails even with a zero delta
    let d = delta_add(0, 120);
    assert_eq!(d.apply(121), Err(DeltaFailure {}));
}

#[test]
fn merge_accumulates_signed_offsets() {
    let plus = delta_add(50, 1000);
    let minus = delta_sub(20, 1000);
    // later +50 over earlier -20: net +30
    let m = plus.merge(minus).unwrap();
    assert_eq!(m.update, DeltaUpdate::Plus(30));
    assert_eq!(m.max_value, 1000);
    assert_eq!(m.apply(100), Ok(130));
}

#[test]
fn merge_is_commutative() {
    let a = delta_add(50, 1000);
    let b = delta_sub(20, 1000);
    assert_eq!(a.merge(b), b.merge(a));
    let c = delta_add(999, 1000);
    let d = delta_add(2, 1000);
    assert_eq!(c.merge(d), d.merge(c));
}

#[test]
fn merge_is_associative() {
    let d1 = delta_add(50, 1000);
    let d2 = delta_sub(20, 1000);
    let d3 = delta_add(7, 1000);
    let left = d1.merge(d2).unwrap().merge(d3).unwrap();
    let right = d1.merge(d2.merge(d3).unwrap()).unwrap();
    assert_eq!(left, right);
    assert_eq!(left.apply(100), Ok(137));
}

#[test]
fn merge_fails_when_combined_offset_leaves_bound() {
    let a = delta_add(80, 100);
    let b = delta_add(30, 100);
    assert_eq!(a.merge(b), Err(DeltaFailure {}));
    let c = delta_sub(80, 100);
    let d = delta_sub(30, 100);
    assert_eq!(c.merge(d), Err(DeltaFailure {}));
}

#[test]
fn bounds_at_the_extremes_of_the_domain() {
    // the largest representable bound and magnitude
    let d = delta_add(u128::MAX, u128::MAX);
    assert_eq!(d.apply(0), Ok(u128::MAX));
    assert_eq!(d.apply(1), Err(DeltaFailure {}));
    let s = delta_sub(u128::MAX, u128::MAX);
    assert_eq!(s.apply(u128::MAX), Ok(0));
    assert_eq!(s.apply(0), Err(DeltaFailure {}));
    // a zero bound admits only the zero counter
    let z = delta_add(0, 0);
    assert_eq!(z.apply(0), Ok(0));
    assert_eq!(z.apply(1), Err(DeltaFailure {}));
}

#[test]
fn merge_of_opposite_offsets_is_canonical() {
    let a = delta_add(30, 100);
    let b = delta_sub(30, 100);
    let m = a.merge(b).unwrap();
    assert_eq!(m.update, DeltaUpdate::Plus(0));
    assert_eq!(m.apply(42), Ok(42));
}
