//! Hybrid timestamp ordering: clock first, client id as the tiebreak.

use synckit_core::Timestamp;

#[test]
fn test_timestamp_comparison() {
    let ts1 = Timestamp::new(1, "c1".to_string());
    let ts2 = Timestamp::new(2, "c1".to_string());

    assert!(ts2.is_newer_than(&ts1));
    assert!(!ts1.is_newer_than(&ts2));
}

#[test]
fn test_timestamp_tie_breaking() {
    let ts1 = Timestamp::new(1, "c1".to_string());
    let ts2 = Timestamp::new(1, "c2".to_string());

    assert!(ts2.is_newer_than(&ts1));
    assert!(!ts1.is_newer_than(&ts2));
}

#[test]
fn test_timestamp_equality() {
    let ts1 = Timestamp::new(1, "c1".to_string());
    let ts2 = Timestamp::new(1, "c1".to_string());

    assert_eq!(ts1.compare_lww(&ts2), std::cmp::Ordering::Equal);
    assert!(!ts1.is_newer_than(&ts2));
    assert!(!ts2.is_newer_than(&ts1));
}

#[test]
fn test_timestamp_determinism_rerun() {
    // Re-running the same comparison always yields the same winner.
    for _ in 0..5 {
        let a = Timestamp::new(7, "alpha".to_string());
        let b = Timestamp::new(7, "beta".to_string());
        assert_eq!(a.compare_lww(&b), std::cmp::Ordering::Less);
        assert_eq!(b.compare_lww(&a), std::cmp::Ordering::Greater);
    }
}
