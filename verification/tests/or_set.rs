//! OR-Set behaviour: add-wins semantics under removal and merging.

use synckit_core::crdt::ORSet;

#[test]
fn test_set_creation() {
    let set: ORSet = ORSet::new("replica1".to_string());
    assert_eq!(set.len(), 0);
    assert!(set.is_empty());
}

#[test]
fn test_add_element() {
    let mut set = ORSet::new("replica1".to_string());
    set.add("apple".to_string());

    assert_eq!(set.len(), 1);
    assert!(set.contains(&"apple".to_string()));
}

#[test]
fn test_add_multiple_elements() {
    let mut set = ORSet::new("replica1".to_string());
    set.add("apple".to_string());
    set.add("banana".to_string());
    set.add("cherry".to_string());

    assert_eq!(set.len(), 3);
    assert!(set.contains(&"apple".to_string()));
    assert!(set.contains(&"banana".to_string()));
    assert!(set.contains(&"cherry".to_string()));
}

#[test]
fn test_remove_element() {
    let mut set = ORSet::new("replica1".to_string());
    set.add("apple".to_string());
    set.add("banana".to_string());

    set.remove(&"apple".to_string());

    assert_eq!(set.len(), 1);
    assert!(!set.contains(&"apple".to_string()));
    assert!(set.contains(&"banana".to_string()));
}

#[test]
fn test_remove_nonexistent() {
    let mut set = ORSet::new("replica1".to_string());
    set.add("apple".to_string());

    set.remove(&"banana".to_string());

    assert_eq!(set.len(), 1);
    assert!(set.contains(&"apple".to_string()));
}

#[test]
fn test_add_after_remove() {
    let mut set = ORSet::new("replica1".to_string());
    set.add("apple".to_string());
    set.remove(&"apple".to_string());

    set.add("apple".to_string());

    assert_eq!(set.len(), 1);
    assert!(set.contains(&"apple".to_string()));
}

#[test]
fn test_merge_different_replicas() {
    let mut set1 = ORSet::new("replica1".to_string());
    let mut set2 = ORSet::new("replica2".to_string());

    set1.add("apple".to_string());
    set2.add("banana".to_string());

    set1.merge(&set2);

    assert_eq!(set1.len(), 2);
    assert!(set1.contains(&"apple".to_string()));
    assert!(set1.contains(&"banana".to_string()));
}

#[test]
fn test_merge_with_removes() {
    let mut set1 = ORSet::new("replica1".to_string());
    let mut set2 = ORSet::new("replica2".to_string());

    set1.add("apple".to_string());
    set2.add("apple".to_string());

    set2.remove(&"apple".to_string());

    assert!(set1.contains(&"apple".to_string()));
    assert!(!set2.contains(&"apple".to_string()));

    set1.merge(&set2);
    assert!(set1.contains(&"apple".to_string()));
}

#[test]
fn test_concurrent_add_remove() {
    let mut set1 = ORSet::new("replica1".to_string());
    let mut set2 = ORSet::new("replica1".to_string());

    set1.add("apple".to_string());
    set2.remove(&"apple".to_string());

    set1.merge(&set2);

    assert!(set1.contains(&"apple".to_string()));
}

#[test]
fn test_merge_idempotence() {
    let mut set1 = ORSet::new("replica1".to_string());
    let mut set2 = ORSet::new("replica2".to_string());

    set1.add("apple".to_string());
    set2.add("banana".to_string());

    set1.merge(&set2);
    let len1 = set1.len();

    set1.merge(&set2);
    let len2 = set1.len();

    assert_eq!(len1, len2);
}

#[test]
fn test_clear() {
    let mut set = ORSet::new("replica1".to_string());
    set.add("apple".to_string());
    set.add("banana".to_string());

    set.clear();

    assert_eq!(set.len(), 0);
    assert!(!set.contains(&"apple".to_string()));
    assert!(!set.contains(&"banana".to_string()));
}

#[test]
fn test_iter() {
    let mut set = ORSet::new("replica1".to_string());
    set.add("apple".to_string());
    set.add("banana".to_string());
    set.add("cherry".to_string());

    let mut items: Vec<String> = set.iter();
    items.sort();

    assert_eq!(items, vec!["apple", "banana", "cherry"]);
}

#[test]
fn test_add_wins_over_observed_remove() {
    // One side adds; the other removes the add it had previously seen;
    // after merging both ways the element survives.
    let mut set_a = ORSet::new("A".to_string());
    set_a.add("x".to_string());

    let mut set_b = ORSet::new("B".to_string());
    set_b.add("x".to_string());
    set_b.remove(&"x".to_string());

    set_a.merge(&set_b);
    assert!(set_a.contains(&"x".to_string()));
}

#[test]
fn test_or_set_merge_commutes() {
    let mut a1 = ORSet::new("A".to_string());
    a1.add("x".to_string());
    a1.add("y".to_string());
    a1.remove(&"y".to_string());

    let mut b1 = ORSet::new("B".to_string());
    b1.add("y".to_string());
    b1.add("z".to_string());

    let mut ab = ORSet::new("C".to_string());
    ab.merge(&a1);
    ab.merge(&b1);

    let mut ba = ORSet::new("D".to_string());
    ba.merge(&b1);
    ba.merge(&a1);

    for e in ["x", "y", "z", "w"] {
        assert_eq!(ab.contains(&e.to_string()), ba.contains(&e.to_string()));
    }
    assert!(ab.contains(&"x".to_string()));
    assert!(ab.contains(&"y".to_string()));
    assert!(ab.contains(&"z".to_string()));
}
