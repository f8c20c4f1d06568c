//! Document behaviour: field writes, LWW merging, convergence.

use synckit_core::document::Field;
use synckit_core::Document;
use synckit_core::Timestamp;
use synckit_core::Value;

#[test]
fn test_document_creation() {
    let doc = Document::new("doc-123".to_string());
    assert_eq!(doc.id, "doc-123");
    assert!(doc.is_empty());
}

#[test]
fn test_set_and_get_field() {
    let mut doc = Document::new("doc-123".to_string());

    doc.set_field(
        "title".to_string(),
        Value::Str("Hello World".to_string()),
        1,
        "client1".to_string(),
    );

    assert_eq!(
        doc.get_field(&"title".to_string()),
        Some(&Value::Str("Hello World".to_string()))
    );
    assert_eq!(doc.field_count(), 1);
}

#[test]
fn test_lww_merge_remote_wins() {
    let mut doc = Document::new("doc-123".to_string());

    doc.set_field(
        "title".to_string(),
        Value::Str("Local Title".to_string()),
        1,
        "client1".to_string(),
    );

    let remote_field = Field {
        value: Value::Str("Remote Title".to_string()),
        timestamp: Timestamp::new(2, "client2".to_string()),
        tombstone: false,
    };

    let updated = doc.merge_field("title".to_string(), remote_field);

    assert!(updated);
    assert_eq!(
        doc.get_field(&"title".to_string()),
        Some(&Value::Str("Remote Title".to_string()))
    );
}

#[test]
fn test_lww_merge_local_wins() {
    let mut doc = Document::new("doc-123".to_string());

    doc.set_field(
        "title".to_string(),
        Value::Str("Local Title".to_string()),
        2,
        "client1".to_string(),
    );

    let remote_field = Field {
        value: Value::Str("Remote Title".to_string()),
        timestamp: Timestamp::new(1, "client2".to_string()),
        tombstone: false,
    };

    let updated = doc.merge_field("title".to_string(), remote_field);

    assert!(!updated);
    assert_eq!(
        doc.get_field(&"title".to_string()),
        Some(&Value::Str("Local Title".to_string()))
    );
}

#[test]
fn test_lww_merge_tie_breaking() {
    let mut doc = Document::new("doc-123".to_string());

    doc.set_field(
        "title".to_string(),
        Value::Str("Local Title".to_string()),
        1,
        "client1".to_string(),
    );

    let remote_field = Field {
        value: Value::Str("Remote Title".to_string()),
        timestamp: Timestamp::new(1, "client2".to_string()),
        tombstone: false,
    };

    let updated = doc.merge_field("title".to_string(), remote_field);

    assert!(updated);
    assert_eq!(
        doc.get_field(&"title".to_string()),
        Some(&Value::Str("Remote Title".to_string()))
    );
}

#[test]
fn test_merge_entire_document() {
    let mut doc1 = Document::new("doc-123".to_string());
    doc1.set_field(
        "field1".to_string(),
        Value::Str("value1".to_string()),
        1,
        "client1".to_string(),
    );
    doc1.set_field(
        "field2".to_string(),
        Value::Str("value2".to_string()),
        1,
        "client1".to_string(),
    );

    let mut doc2 = Document::new("doc-123".to_string());
    doc2.set_field(
        "field1".to_string(),
        Value::Str("new_value1".to_string()),
        2,
        "client2".to_string(),
    );
    doc2.set_field(
        "field3".to_string(),
        Value::Str("value3".to_string()),
        1,
        "client2".to_string(),
    );

    let updated_count = doc1.merge(&doc2);

    assert_eq!(updated_count, 2);
    assert_eq!(
        doc1.get_field(&"field1".to_string()),
        Some(&Value::Str("new_value1".to_string()))
    );
    assert_eq!(
        doc1.get_field(&"field2".to_string()),
        Some(&Value::Str("value2".to_string()))
    );
    assert_eq!(
        doc1.get_field(&"field3".to_string()),
        Some(&Value::Str("value3".to_string()))
    );
}

#[test]
fn test_convergence_property() {
    let mut replica1 = Document::new("doc-123".to_string());
    let mut replica2 = Document::new("doc-123".to_string());

    let mut client1_update = Document::new("doc-123".to_string());
    client1_update.set_field(
        "field1".to_string(),
        Value::Str("A".to_string()),
        1,
        "client1".to_string(),
    );

    let mut client2_update = Document::new("doc-123".to_string());
    client2_update.set_field(
        "field1".to_string(),
        Value::Str("B".to_string()),
        2,
        "client2".to_string(),
    );

    replica1.merge(&client1_update);
    replica1.merge(&client2_update);

    replica2.merge(&client2_update);
    replica2.merge(&client1_update);

    assert_eq!(
        replica1.get_field(&"field1".to_string()),
        replica2.get_field(&"field1".to_string())
    );

    assert_eq!(
        replica1.get_field(&"field1".to_string()),
        Some(&Value::Str("B".to_string()))
    );
    assert_eq!(
        replica2.get_field(&"field1".to_string()),
        Some(&Value::Str("B".to_string()))
    );
}

#[test]
fn test_higher_clock_wins_scenario() {
    let mut doc = Document::new("doc".to_string());
    doc.set_field(
        "title".to_string(),
        Value::Str("Hello".to_string()),
        1,
        "c1".to_string(),
    );
    let remote = Field {
        value: Value::Str("World".to_string()),
        timestamp: Timestamp::new(2, "c0".to_string()),
        tombstone: false,
    };
    let updated = doc.merge_field("title".to_string(), remote);
    assert!(updated);
    assert_eq!(
        doc.get_field(&"title".to_string()),
        Some(&Value::Str("World".to_string()))
    );
}

#[test]
fn test_same_clock_writes_converge_to_lex_greater() {
    // Identical concurrent writes on two replicas, merged in swapped order,
    // both read the value stamped by the lexicographically greater client.
    let mut a = Document::new("d".to_string());
    let mut b = Document::new("d".to_string());

    let wa = Field {
        value: Value::Str("from-cA".to_string()),
        timestamp: Timestamp::new(1, "cA".to_string()),
        tombstone: false,
    };
    let wb = Field {
        value: Value::Str("from-cB".to_string()),
        timestamp: Timestamp::new(1, "cB".to_string()),
        tombstone: false,
    };

    a.merge_field("p".to_string(), wa.clone());
    a.merge_field("p".to_string(), wb.clone());

    b.merge_field("p".to_string(), wb.clone());
    b.merge_field("p".to_string(), wa.clone());

    assert_eq!(
        a.get_field(&"p".to_string()),
        Some(&Value::Str("from-cB".to_string()))
    );
    assert_eq!(
        b.get_field(&"p".to_string()),
        Some(&Value::Str("from-cB".to_string()))
    );
}

#[test]
fn test_delete_field_reads_absent() {
    let mut doc = Document::new("d".to_string());
    doc.set_field(
        "gone".to_string(),
        Value::Int(1),
        1,
        "c1".to_string(),
    );
    doc.delete_field("gone".to_string(), 2, "c1".to_string());
    assert_eq!(doc.get_field(&"gone".to_string()), None);
    // The tombstone still occupies a slot.
    assert_eq!(doc.field_count(), 1);
}

#[test]
fn test_field_paths_lists_all() {
    let mut doc = Document::new("d".to_string());
    doc.set_field("a".to_string(), Value::Int(1), 1, "c".to_string());
    doc.set_field("b".to_string(), Value::Int(2), 1, "c".to_string());
    let paths = doc.field_paths();
    assert_eq!(paths.len(), 2);
    assert_eq!(paths[0], "a");
    assert_eq!(paths[1], "b");
}
