//! Cross-cutting convergence properties, exercised on fixed operation
//! sequences.

use synckit_core::document::Field;
use synckit_core::sync::apply_delta;
use synckit_core::sync::compute_delta;
use synckit_core::ClientID;
use synckit_core::Document;
use synckit_core::Timestamp;
use synckit_core::Value;

struct Operation {
    field: String,
    value: Value,
    timestamp: u64,
    client_id: ClientID,
}

fn fixed_operations() -> Vec<Operation> {
    let mut ops = Vec::new();
    let fields = ["alpha", "beta", "gamma", "alpha", "delta", "beta", "alpha"];
    let clients = ["client1", "client2", "client3", "client2", "client1", "client3", "client2"];
    let clocks: [u64; 7] = [3, 7, 2, 7, 9, 1, 5];
    for i in 0..fields.len() {
        ops.push(Operation {
            field: fields[i].to_string(),
            value: Value::Int(i as i64),
            timestamp: clocks[i],
            client_id: clients[i].to_string(),
        });
    }
    ops
}

fn winner(doc: &Document, field: &str) -> Option<Value> {
    doc.get_field(&field.to_string()).cloned()
}

#[test]
fn prop_convergence() {
    let ops = fixed_operations();
    let mut doc1 = Document::new("test-doc".to_string());
    let mut doc2 = Document::new("test-doc".to_string());

    for op in &ops {
        let mut update = Document::new("test-doc".to_string());
        update.set_field(
            op.field.clone(),
            op.value.clone(),
            op.timestamp,
            op.client_id.clone(),
        );
        doc1.merge(&update);
        doc2.merge(&update);
    }

    assert_eq!(doc1.field_count(), doc2.field_count());
    for field in ["alpha", "beta", "gamma", "delta"] {
        assert_eq!(winner(&doc1, field), winner(&doc2, field));
    }
}

#[test]
fn prop_order_independence() {
    let ops = fixed_operations();
    let mut doc1 = Document::new("test-doc".to_string());
    let mut doc2 = Document::new("test-doc".to_string());

    for op in &ops {
        let mut update = Document::new("test-doc".to_string());
        update.set_field(
            op.field.clone(),
            op.value.clone(),
            op.timestamp,
            op.client_id.clone(),
        );
        doc1.merge(&update);
    }
    for op in ops.iter().rev() {
        let mut update = Document::new("test-doc".to_string());
        update.set_field(
            op.field.clone(),
            op.value.clone(),
            op.timestamp,
            op.client_id.clone(),
        );
        doc2.merge(&update);
    }

    assert_eq!(doc1.field_count(), doc2.field_count());
    for field in ["alpha", "beta", "gamma", "delta"] {
        assert_eq!(winner(&doc1, field), winner(&doc2, field));
    }
}

#[test]
fn prop_idempotence() {
    let ops = fixed_operations();
    let mut once = Document::new("test-doc".to_string());
    let mut twice = Document::new("test-doc".to_string());

    for op in &ops {
        let mut update = Document::new("test-doc".to_string());
        update.set_field(
            op.field.clone(),
            op.value.clone(),
            op.timestamp,
            op.client_id.clone(),
        );
        once.merge(&update);
        twice.merge(&update);
        twice.merge(&update);
    }

    assert_eq!(once.field_count(), twice.field_count());
    for field in ["alpha", "beta", "gamma", "delta"] {
        assert_eq!(winner(&once, field), winner(&twice, field));
    }
}

#[test]
fn prop_delta_convergence() {
    let ops = fixed_operations();

    let mut direct = Document::new("test-doc".to_string());
    for op in &ops {
        direct.set_field(
            op.field.clone(),
            op.value.clone(),
            op.timestamp,
            op.client_id.clone(),
        );
    }

    let mut via_delta = Document::new("test-doc".to_string());
    let mut intermediate = Document::new("test-doc".to_string());
    for op in &ops {
        intermediate.set_field(
            op.field.clone(),
            op.value.clone(),
            op.timestamp,
            op.client_id.clone(),
        );
    }

    let delta = compute_delta(&via_delta, &intermediate);
    apply_delta(&mut via_delta, &delta);

    assert_eq!(direct.field_count(), via_delta.field_count());
    for field in ["alpha", "beta", "gamma", "delta"] {
        assert_eq!(winner(&direct, field), winner(&via_delta, field));
    }
}

#[test]
fn prop_no_data_loss() {
    let ops = fixed_operations();
    let mut doc = Document::new("test-doc".to_string());

    for op in &ops {
        doc.set_field(
            op.field.clone(),
            op.value.clone(),
            op.timestamp,
            op.client_id.clone(),
        );
    }

    for field in ["alpha", "beta", "gamma", "delta"] {
        assert!(doc.get_field(&field.to_string()).is_some());
    }
}

#[test]
fn prop_lww_determinism() {
    // The same pair of merged writes always picks the same winner.
    for _ in 0..5 {
        let mut doc = Document::new("test-doc".to_string());
        doc.merge_field(
            "field".to_string(),
            Field {
                value: Value::Str("first".to_string()),
                timestamp: Timestamp::new(4, "client1".to_string()),
                tombstone: false,
            },
        );
        doc.merge_field(
            "field".to_string(),
            Field {
                value: Value::Str("second".to_string()),
                timestamp: Timestamp::new(4, "client2".to_string()),
                tombstone: false,
            },
        );
        assert_eq!(
            winner(&doc, "field"),
            Some(Value::Str("second".to_string()))
        );
    }
}

#[test]
fn prop_concurrent_operations_commute() {
    let mut doc1 = Document::new("test-doc".to_string());
    let mut doc2 = Document::new("test-doc".to_string());

    doc1.set_field(
        "one".to_string(),
        Value::Int(1),
        5,
        "client1".to_string(),
    );
    doc1.set_field(
        "two".to_string(),
        Value::Int(2),
        5,
        "client2".to_string(),
    );

    doc2.set_field(
        "two".to_string(),
        Value::Int(2),
        5,
        "client2".to_string(),
    );
    doc2.set_field(
        "one".to_string(),
        Value::Int(1),
        5,
        "client1".to_string(),
    );

    assert_eq!(winner(&doc1, "one"), winner(&doc2, "one"));
    assert_eq!(winner(&doc1, "two"), winner(&doc2, "two"));
}

#[test]
fn prop_stress_test_1000_ops() {
    let mut doc = Document::new("test-doc".to_string());

    for i in 0..1000u64 {
        let field = format!("field{}", i % 10);
        doc.set_field(field, Value::Int(i as i64), i + 1, "client1".to_string());
    }

    assert!(!doc.is_empty());
    assert_eq!(doc.field_count(), 10);
}

#[test]
fn prop_document_merge_associative_concrete() {
    let mut x = Document::new("d".to_string());
    x.set_field("p".to_string(), Value::Int(1), 1, "cx".to_string());
    let mut y = Document::new("d".to_string());
    y.set_field("p".to_string(), Value::Int(2), 2, "cy".to_string());
    let mut z = Document::new("d".to_string());
    z.set_field("p".to_string(), Value::Int(3), 2, "cz".to_string());

    let mut left = x.clone();
    left.merge(&y);
    left.merge(&z);

    let mut yz = y.clone();
    yz.merge(&z);
    let mut right = x.clone();
    right.merge(&yz);

    assert_eq!(
        left.get_field(&"p".to_string()),
        right.get_field(&"p".to_string())
    );
    assert_eq!(left.get_field(&"p".to_string()), Some(&Value::Int(3)));
}
