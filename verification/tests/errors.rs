//! Error taxonomy: codes and retryability.

use synckit_core::SyncError;

#[test]
fn test_basic_import() {
    let _client_id: synckit_core::ClientID = "test-client".to_string();
}

#[test]
fn test_error_codes() {
    assert_eq!(
        SyncError::DocumentNotFound("d".to_string()).code(),
        "DOCUMENT_NOT_FOUND"
    );
    assert_eq!(
        SyncError::FieldNotFound("f".to_string()).code(),
        "FIELD_NOT_FOUND"
    );
    assert_eq!(
        SyncError::InvalidTimestamp("t".to_string()).code(),
        "INVALID_TIMESTAMP"
    );
    assert_eq!(
        SyncError::SerializationError("s".to_string()).code(),
        "SERIALIZATION_ERROR"
    );
    assert_eq!(
        SyncError::DeserializationError("d".to_string()).code(),
        "DESERIALIZATION_ERROR"
    );
    assert_eq!(
        SyncError::StorageError("s".to_string()).code(),
        "STORAGE_ERROR"
    );
    assert_eq!(
        SyncError::NetworkError("n".to_string()).code(),
        "NETWORK_ERROR"
    );
    assert_eq!(
        SyncError::ConflictError("c".to_string()).code(),
        "CONFLICT_ERROR"
    );
    assert_eq!(
        SyncError::InvalidOperation("i".to_string()).code(),
        "INVALID_OPERATION"
    );
    assert_eq!(SyncError::Protocol("p".to_string()).code(), "PROTOCOL_ERROR");
}

#[test]
fn test_error_retryability() {
    assert!(SyncError::NetworkError("n".to_string()).is_retryable());
    assert!(SyncError::StorageError("s".to_string()).is_retryable());
    assert!(SyncError::ConflictError("c".to_string()).is_retryable());

    assert!(!SyncError::DocumentNotFound("d".to_string()).is_retryable());
    assert!(!SyncError::FieldNotFound("f".to_string()).is_retryable());
    assert!(!SyncError::InvalidTimestamp("t".to_string()).is_retryable());
    assert!(!SyncError::SerializationError("s".to_string()).is_retryable());
    assert!(!SyncError::DeserializationError("d".to_string()).is_retryable());
    assert!(!SyncError::InvalidOperation("i".to_string()).is_retryable());
    assert!(!SyncError::Protocol("p".to_string()).is_retryable());
}
