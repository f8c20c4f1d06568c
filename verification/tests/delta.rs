//! Delta computation, application and coalescing.

use synckit_core::document::Field;
use synckit_core::protocol::DocumentDelta;
use synckit_core::sync::apply_delta;
use synckit_core::sync::compute_delta;
use synckit_core::sync::merge_deltas;
use synckit_core::sync::Delta;
use synckit_core::Document;
use synckit_core::SyncError;
use synckit_core::Timestamp;
use synckit_core::Value;
use synckit_core::VectorClock;

#[test]
fn test_empty_delta() {
    let doc = Document::new("doc1".to_string());
    let delta = compute_delta(&doc, &doc);

    assert!(delta.is_empty());
    assert_eq!(delta.len(), 0);
}

#[test]
fn test_compute_delta_new_field() {
    let old = Document::new("doc1".to_string());
    let mut new = old.clone();

    new.set_field(
        "title".to_string(),
        Value::Str("Hello World".to_string()),
        1,
        "client1".to_string(),
    );

    let delta = compute_delta(&old, &new);

    assert_eq!(delta.len(), 1);
    assert_eq!(delta.fields[0].0, "title");
    assert_eq!(delta.fields[0].1.value, Value::Str("Hello World".to_string()));
}

#[test]
fn test_compute_delta_modified_field() {
    let mut old = Document::new("doc1".to_string());
    old.set_field(
        "title".to_string(),
        Value::Str("Old Title".to_string()),
        1,
        "client1".to_string(),
    );

    let mut new = old.clone();
    new.set_field(
        "title".to_string(),
        Value::Str("New Title".to_string()),
        2,
        "client1".to_string(),
    );

    let delta = compute_delta(&old, &new);

    assert_eq!(delta.len(), 1);
    assert_eq!(delta.fields[0].1.value, Value::Str("New Title".to_string()));
    assert_eq!(delta.fields[0].1.timestamp.clock, 2);
}

#[test]
fn test_compute_delta_multiple_changes() {
    let old = Document::new("doc1".to_string());
    let mut new = old.clone();

    new.set_field(
        "title".to_string(),
        Value::Str("Title".to_string()),
        1,
        "client1".to_string(),
    );
    new.set_field(
        "body".to_string(),
        Value::Str("Body".to_string()),
        2,
        "client1".to_string(),
    );
    new.set_field(
        "author".to_string(),
        Value::Str("Alice".to_string()),
        3,
        "client1".to_string(),
    );

    let delta = compute_delta(&old, &new);

    assert_eq!(delta.len(), 3);
    let paths: Vec<&str> = delta.fields.iter().map(|p| p.0.as_str()).collect();
    assert!(paths.contains(&"title"));
    assert!(paths.contains(&"body"));
    assert!(paths.contains(&"author"));
}

#[test]
fn test_apply_delta_new_field() {
    let mut doc = Document::new("doc1".to_string());

    let delta_fields = vec![(
        "title".to_string(),
        Field {
            value: Value::Str("Hello".to_string()),
            timestamp: Timestamp::new(1, "client1".to_string()),
            tombstone: false,
        },
    )];

    let delta = Delta::new("doc1".to_string(), delta_fields, VectorClock::new());

    apply_delta(&mut doc, &delta);

    assert_eq!(
        doc.get_field(&"title".to_string()),
        Some(&Value::Str("Hello".to_string()))
    );
}

#[test]
fn test_apply_delta_lww_merge() {
    let mut doc = Document::new("doc1".to_string());
    doc.set_field(
        "title".to_string(),
        Value::Str("Old".to_string()),
        1,
        "client1".to_string(),
    );

    let delta_fields = vec![(
        "title".to_string(),
        Field {
            value: Value::Str("New".to_string()),
            timestamp: Timestamp::new(2, "client1".to_string()),
            tombstone: false,
        },
    )];

    let delta = Delta::new("doc1".to_string(), delta_fields, VectorClock::new());

    apply_delta(&mut doc, &delta);

    assert_eq!(
        doc.get_field(&"title".to_string()),
        Some(&Value::Str("New".to_string()))
    );
}

#[test]
fn test_apply_delta_keeps_local_if_newer() {
    let mut doc = Document::new("doc1".to_string());
    doc.set_field(
        "title".to_string(),
        Value::Str("New".to_string()),
        2,
        "client1".to_string(),
    );

    let delta_fields = vec![(
        "title".to_string(),
        Field {
            value: Value::Str("Old".to_string()),
            timestamp: Timestamp::new(1, "client1".to_string()),
            tombstone: false,
        },
    )];

    let delta = Delta::new("doc1".to_string(), delta_fields, VectorClock::new());

    apply_delta(&mut doc, &delta);

    assert_eq!(
        doc.get_field(&"title".to_string()),
        Some(&Value::Str("New".to_string()))
    );
}

#[test]
fn test_merge_deltas_non_overlapping() {
    let fields1 = vec![(
        "title".to_string(),
        Field {
            value: Value::Str("Title".to_string()),
            timestamp: Timestamp::new(1, "client1".to_string()),
            tombstone: false,
        },
    )];

    let fields2 = vec![(
        "body".to_string(),
        Field {
            value: Value::Str("Body".to_string()),
            timestamp: Timestamp::new(2, "client1".to_string()),
            tombstone: false,
        },
    )];

    let delta1 = Delta::new("doc1".to_string(), fields1, VectorClock::new());
    let delta2 = Delta::new("doc1".to_string(), fields2, VectorClock::new());

    let merged = merge_deltas(&delta1, &delta2);

    assert_eq!(merged.len(), 2);
    let paths: Vec<&str> = merged.fields.iter().map(|p| p.0.as_str()).collect();
    assert!(paths.contains(&"title"));
    assert!(paths.contains(&"body"));
}

#[test]
fn test_merge_deltas_overlapping_field() {
    let fields1 = vec![(
        "title".to_string(),
        Field {
            value: Value::Str("Old".to_string()),
            timestamp: Timestamp::new(1, "client1".to_string()),
            tombstone: false,
        },
    )];

    let fields2 = vec![(
        "title".to_string(),
        Field {
            value: Value::Str("New".to_string()),
            timestamp: Timestamp::new(2, "client1".to_string()),
            tombstone: false,
        },
    )];

    let delta1 = Delta::new("doc1".to_string(), fields1, VectorClock::new());
    let delta2 = Delta::new("doc1".to_string(), fields2, VectorClock::new());

    let merged = merge_deltas(&delta1, &delta2);

    assert_eq!(merged.len(), 1);
    assert_eq!(merged.fields[0].1.value, Value::Str("New".to_string()));
    assert_eq!(merged.fields[0].1.timestamp.clock, 2);
}

#[test]
fn test_delta_roundtrip() {
    let old = Document::new("doc1".to_string());
    let mut new = old.clone();

    new.set_field(
        "title".to_string(),
        Value::Str("Hello".to_string()),
        1,
        "client1".to_string(),
    );
    new.set_field(
        "body".to_string(),
        Value::Str("World".to_string()),
        2,
        "client1".to_string(),
    );

    let delta = compute_delta(&old, &new);
    let mut reconstructed = old.clone();
    apply_delta(&mut reconstructed, &delta);

    assert_eq!(
        reconstructed.get_field(&"title".to_string()),
        new.get_field(&"title".to_string())
    );
    assert_eq!(
        reconstructed.get_field(&"body".to_string()),
        new.get_field(&"body".to_string())
    );
}

#[test]
fn test_delta_computation() {
    let mut doc1 = Document::new("doc-1".to_string());
    doc1.set_field(
        "name".to_string(),
        Value::Str("Alice".to_string()),
        1,
        "client1".to_string(),
    );
    doc1.set_field("age".to_string(), Value::Int(30), 2, "client1".to_string());

    let mut doc2 = doc1.clone();
    doc2.set_field("age".to_string(), Value::Int(31), 3, "client1".to_string());
    doc2.set_field(
        "city".to_string(),
        Value::Str("NYC".to_string()),
        4,
        "client1".to_string(),
    );

    let delta = DocumentDelta::compute(&doc1, &doc2).unwrap();

    assert_eq!(delta.changes.len(), 2);
}

#[test]
fn test_document_delta_rejects_mismatched_ids() {
    let a = Document::new("doc-a".to_string());
    let b = Document::new("doc-b".to_string());
    let result = DocumentDelta::compute(&a, &b);
    assert!(matches!(result, Err(SyncError::InvalidOperation(_))));
}

#[test]
fn test_document_delta_apply_to() {
    let mut from = Document::new("doc-1".to_string());
    from.set_field(
        "keep".to_string(),
        Value::Str("same".to_string()),
        1,
        "c1".to_string(),
    );

    let mut to = from.clone();
    to.set_field(
        "fresh".to_string(),
        Value::Str("added".to_string()),
        2,
        "c1".to_string(),
    );

    let delta = DocumentDelta::compute(&from, &to).unwrap();

    let mut target = from.clone();
    delta.apply_to(&mut target, "c1").unwrap();

    assert_eq!(
        target.get_field(&"fresh".to_string()),
        Some(&Value::Str("added".to_string()))
    );
    assert_eq!(
        target.get_field(&"keep".to_string()),
        Some(&Value::Str("same".to_string()))
    );

    let mut wrong = Document::new("other".to_string());
    assert!(delta.apply_to(&mut wrong, "c1").is_err());
}

#[test]
fn test_document_delta_carries_tombstones() {
    let mut from = Document::new("doc-1".to_string());
    from.set_field(
        "dropped".to_string(),
        Value::Str("bye".to_string()),
        1,
        "c1".to_string(),
    );
    let to = Document::new("doc-1".to_string());

    let delta = DocumentDelta::compute(&from, &to).unwrap();
    assert_eq!(delta.changes.len(), 1);
    assert!(delta.changes[0].is_delete);
    assert_eq!(delta.changes[0].path, "dropped");
}
