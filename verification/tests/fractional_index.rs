//! Fractional index generation and ordering.

use synckit_core::crdt::FractionalIndex;
use synckit_core::SyncError;

#[test]
fn test_first_position() {
    let first = FractionalIndex::first();
    assert_eq!(first.as_str(), "a0");
}

#[test]
fn test_after() {
    let first = FractionalIndex::first();
    let second = FractionalIndex::after(&first).unwrap();

    assert!(first < second);
}

#[test]
fn test_before() {
    let second = FractionalIndex::after(&FractionalIndex::first()).unwrap();
    let first = FractionalIndex::before(&second).unwrap();

    assert!(first < second);
}

#[test]
fn test_between() {
    let first = FractionalIndex::first();
    let third = FractionalIndex::after(&first).unwrap();
    let second = FractionalIndex::between(&first, &third).unwrap();

    assert!(first < second);
    assert!(second < third);
}

#[test]
fn test_multiple_insertions() {
    let mut positions = vec![FractionalIndex::first()];

    for _ in 0..10 {
        let last = positions.last().unwrap();
        let next = FractionalIndex::after(last).unwrap();
        positions.push(next);
    }

    for i in 0..positions.len() - 1 {
        assert!(positions[i] < positions[i + 1]);
    }
}

#[test]
fn test_insert_between_many_times() {
    let first = FractionalIndex::first();
    let last = FractionalIndex::after(&first).unwrap();

    let mut positions = vec![first.clone(), last.clone()];

    for _ in 0..100 {
        let middle = FractionalIndex::between(&positions[0], &positions[1]).unwrap();
        positions.insert(1, middle);
    }

    for i in 0..positions.len() - 1 {
        assert!(positions[i] < positions[i + 1]);
    }
}

#[test]
fn test_dense_ordering() {
    let a = FractionalIndex::first();
    let c = FractionalIndex::after(&a).unwrap();

    let b = FractionalIndex::between(&a, &c).unwrap();
    assert!(a < b && b < c);

    let ab = FractionalIndex::between(&a, &b).unwrap();
    assert!(a < ab && ab < b);

    let bc = FractionalIndex::between(&b, &c).unwrap();
    assert!(b < bc && bc < c);
}

#[test]
fn test_ordering_stability() {
    let pos1 = FractionalIndex::first();
    let pos2 = FractionalIndex::after(&pos1).unwrap();
    let pos3 = FractionalIndex::after(&pos2).unwrap();

    let pos_between = FractionalIndex::between(&pos1, &pos2).unwrap();

    assert!(pos1 < pos2);
    assert!(pos2 < pos3);

    assert!(pos1 < pos_between);
    assert!(pos_between < pos2);
}

#[test]
fn test_string_comparison() {
    let a = FractionalIndex::from_str("a0".to_string());
    let b = FractionalIndex::from_str("a1".to_string());
    let c = FractionalIndex::from_str("b0".to_string());

    assert!(a < b);
    assert!(b < c);
    assert!(a < c);
}

#[test]
fn test_lexicographic_ordering() {
    let short = FractionalIndex::from_str("a".to_string());
    let long = FractionalIndex::from_str("a0".to_string());

    assert!(short < long);
}

#[test]
fn test_display() {
    let pos = FractionalIndex::first();
    assert_eq!(format!("{}", pos.as_str()), "a0");
}

#[test]
fn test_between_invalid_order() {
    let a = FractionalIndex::first();
    let b = FractionalIndex::after(&a).unwrap();

    let result = FractionalIndex::between(&b, &a);
    assert!(matches!(result, Err(SyncError::InvalidOperation(_))));

    let equal = FractionalIndex::between(&a, &a);
    assert!(matches!(equal, Err(SyncError::InvalidOperation(_))));
}

#[test]
fn test_between_wide_gap_digits() {
    let l = FractionalIndex::from_str("19".to_string());
    let r = FractionalIndex::from_str("20".to_string());
    let m = FractionalIndex::between(&l, &r).unwrap();
    assert!(l < m);
    assert!(m < r);
}
