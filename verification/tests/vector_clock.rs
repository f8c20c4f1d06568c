//! Vector clock behaviour: ticking, merging, and the four-way comparison.

use synckit_core::sync::vector_clock::ClockOrder;
use synckit_core::VectorClock;

#[test]
fn test_tick() {
    let mut clock = VectorClock::new();
    assert_eq!(clock.get(&"c1".to_string()), 0);

    clock.tick(&"c1".to_string());
    assert_eq!(clock.get(&"c1".to_string()), 1);

    clock.tick(&"c1".to_string());
    assert_eq!(clock.get(&"c1".to_string()), 2);
}

#[test]
fn test_merge() {
    let mut clock1 = VectorClock::new();
    clock1.tick(&"c1".to_string());
    clock1.tick(&"c1".to_string());

    let mut clock2 = VectorClock::new();
    clock2.tick(&"c2".to_string());
    clock2.tick(&"c2".to_string());
    clock2.tick(&"c2".to_string());

    clock1.merge(&clock2);

    assert_eq!(clock1.get(&"c1".to_string()), 2);
    assert_eq!(clock1.get(&"c2".to_string()), 3);
}

#[test]
fn test_compare_happened_before() {
    let mut clock1 = VectorClock::new();
    clock1.tick(&"c1".to_string());

    let mut clock2 = VectorClock::new();
    clock2.tick(&"c1".to_string());
    clock2.tick(&"c1".to_string());

    assert_eq!(clock1.compare(&clock2), ClockOrder::Before);
    assert!(clock1.happened_before(&clock2));

    assert_eq!(clock2.compare(&clock1), ClockOrder::After);
    assert!(!clock2.happened_before(&clock1));
}

#[test]
fn test_concurrent() {
    let mut clock1 = VectorClock::new();
    clock1.tick(&"c1".to_string());

    let mut clock2 = VectorClock::new();
    clock2.tick(&"c2".to_string());

    assert!(clock1.is_concurrent(&clock2));
    assert!(clock2.is_concurrent(&clock1));

    assert_eq!(clock1.compare(&clock2), ClockOrder::Concurrent);
}

#[test]
fn test_identical_clocks() {
    let mut clock1 = VectorClock::new();
    clock1.tick(&"c1".to_string());

    let mut clock2 = VectorClock::new();
    clock2.tick(&"c1".to_string());

    assert_eq!(clock1.compare(&clock2), ClockOrder::Equal);
    assert!(!clock1.is_concurrent(&clock2));
}

#[test]
fn test_merge_preserves_causality() {
    let mut clock_a = VectorClock::new();
    clock_a.tick(&"c1".to_string());

    let mut clock_b = VectorClock::new();
    clock_b.tick(&"c2".to_string());

    let mut clock_merged = clock_a.clone();
    clock_merged.merge(&clock_b);

    assert!(clock_merged.compare(&clock_a) != ClockOrder::Before);
    assert!(clock_merged.compare(&clock_b) != ClockOrder::Before);
}

#[test]
fn test_tick_on_clone_is_causally_after() {
    let mut a = VectorClock::new();
    a.tick(&"r".to_string());
    a.tick(&"s".to_string());

    let mut b = a.clone();
    b.tick(&"r".to_string());

    assert_eq!(a.compare(&b), ClockOrder::Before);
    assert_eq!(b.compare(&a), ClockOrder::After);
}

#[test]
fn test_update_sets_entry() {
    let mut clock = VectorClock::new();
    clock.update(&"c9".to_string(), 41);
    assert_eq!(clock.get(&"c9".to_string()), 41);
    clock.update(&"c9".to_string(), 7);
    assert_eq!(clock.get(&"c9".to_string()), 7);
}

#[test]
fn test_from_timestamp() {
    let ts = synckit_core::Timestamp::new(5, "c3".to_string());
    let clock = VectorClock::from_timestamp(&ts);
    assert_eq!(clock.get(&"c3".to_string()), 5);
    assert_eq!(clock.get(&"c4".to_string()), 0);
}

#[test]
fn test_merge_commutes_observably() {
    let mut a = VectorClock::new();
    a.update(&"x".to_string(), 3);
    a.update(&"y".to_string(), 1);

    let mut b = VectorClock::new();
    b.update(&"y".to_string(), 5);
    b.update(&"z".to_string(), 2);

    let mut ab = a.clone();
    ab.merge(&b);
    let mut ba = b.clone();
    ba.merge(&a);

    for key in ["x", "y", "z", "w"] {
        assert_eq!(ab.get(&key.to_string()), ba.get(&key.to_string()));
    }
    assert_eq!(ab.get(&"x".to_string()), 3);
    assert_eq!(ab.get(&"y".to_string()), 5);
    assert_eq!(ab.get(&"z".to_string()), 2);
}
