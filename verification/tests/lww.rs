//! LWW register merging.

use synckit_core::sync::LWWField;
use synckit_core::Timestamp;
use synckit_core::Value;

#[test]
fn test_merge_remote_newer() {
    let local = LWWField::new(
        Value::Str("old".to_string()),
        Timestamp::new(1, "client1".into()),
    );
    let remote = LWWField::new(
        Value::Str("new".to_string()),
        Timestamp::new(2, "client2".into()),
    );

    let result = local.merge(&remote);
    assert_eq!(result.value, Value::Str("new".to_string()));
    assert_eq!(result.timestamp.clock, 2);
}

#[test]
fn test_merge_local_newer() {
    let local = LWWField::new(
        Value::Str("new".to_string()),
        Timestamp::new(2, "client1".into()),
    );
    let remote = LWWField::new(
        Value::Str("old".to_string()),
        Timestamp::new(1, "client2".into()),
    );

    let result = local.merge(&remote);
    assert_eq!(result.value, Value::Str("new".to_string()));
    assert_eq!(result.timestamp.clock, 2);
}

#[test]
fn test_merge_same_timestamp_same_client() {
    let local = LWWField::new(
        Value::Str("value".to_string()),
        Timestamp::new(1, "client1".into()),
    );
    let remote = LWWField::new(
        Value::Str("value".to_string()),
        Timestamp::new(1, "client1".into()),
    );

    let result = local.merge(&remote);
    assert_eq!(result.value, Value::Str("value".to_string()));
}

#[test]
fn test_merge_same_timestamp_different_clients() {
    let local = LWWField::new(
        Value::Str("alpha".to_string()),
        Timestamp::new(1, "client_a".into()),
    );
    let remote = LWWField::new(
        Value::Str("beta".to_string()),
        Timestamp::new(1, "client_b".into()),
    );

    let result = local.merge(&remote);
    assert_eq!(result.value, Value::Str("beta".to_string()));

    let result2 = remote.merge(&local);
    assert_eq!(result.value, result2.value);
}

#[test]
fn test_idempotence() {
    let field = LWWField::new(
        Value::Str("value".to_string()),
        Timestamp::new(1, "client1".into()),
    );

    let result = field.merge(&field);
    assert_eq!(result.value, field.value);
    assert_eq!(result.timestamp, field.timestamp);
}

#[test]
fn test_is_newer_than_register() {
    let a = LWWField::new(Value::Int(1), Timestamp::new(3, "c".into()));
    let b = LWWField::new(Value::Int(2), Timestamp::new(2, "z".into()));
    assert!(a.is_newer_than(&b));
    assert!(!b.is_newer_than(&a));
}
