//! Typed failure kinds.
//!
//! Pure core functions return these as values; the engine never logs,
//! never terminates the process, and never recovers internally. Callers
//! decide whether to surface or retry.

use vstd::prelude::*;

verus! {

/// The failure kinds a synchronization operation can report.
///
/// Each variant carries a human-readable detail string. Network, storage and
/// conflict failures come from external collaborators and are worth retrying;
/// the rest signal a bug or corrupted input and are not.
#[derive(Debug)]
pub enum SyncError {
    /// A document lookup missed.
    DocumentNotFound(String),
    /// A field lookup missed.
    FieldNotFound(String),
    /// A timestamp was syntactically malformed.
    InvalidTimestamp(String),
    /// A wire payload could not be produced.
    SerializationError(String),
    /// A wire payload could not be parsed.
    DeserializationError(String),
    /// An external storage collaborator failed.
    StorageError(String),
    /// An external transport collaborator failed.
    NetworkError(String),
    /// A collaborator enforcing constraints beyond merge semantics objected;
    /// the core itself never raises this, since merges are total.
    ConflictError(String),
    /// Programmer error: mismatched document ids on delta operations,
    /// position bounds out of order, and the like.
    InvalidOperation(String),
    /// A wire-level schema violation: a required field was missing.
    Protocol(String),
}

impl SyncError {
    /// Whether the failure is worth retrying: true exactly for failures of
    /// external collaborators (network, storage, conflict), false for those
    /// that signal a bug or corrupted input.
    pub fn is_retryable(&self) -> (r: bool)
        ensures
            r <==> (self is NetworkError || self is StorageError || self is ConflictError),
    {
        matches!(
            self,
            SyncError::NetworkError(_) | SyncError::StorageError(_) | SyncError::ConflictError(_)
        )
    }

    /// A stable code for client communication, one per failure kind.
    pub fn code(&self) -> (r: &'static str)
        ensures
            self is DocumentNotFound ==> r@ == "DOCUMENT_NOT_FOUND"@,
            self is FieldNotFound ==> r@ == "FIELD_NOT_FOUND"@,
            self is InvalidTimestamp ==> r@ == "INVALID_TIMESTAMP"@,
            self is SerializationError ==> r@ == "SERIALIZATION_ERROR"@,
            self is DeserializationError ==> r@ == "DESERIALIZATION_ERROR"@,
            self is StorageError ==> r@ == "STORAGE_ERROR"@,
            self is NetworkError ==> r@ == "NETWORK_ERROR"@,
            self is ConflictError ==> r@ == "CONFLICT_ERROR"@,
            self is InvalidOperation ==> r@ == "INVALID_OPERATION"@,
            self is Protocol ==> r@ == "PROTOCOL_ERROR"@,
    {
        match self {
            SyncError::DocumentNotFound(_) => "DOCUMENT_NOT_FOUND",
            SyncError::FieldNotFound(_) => "FIELD_NOT_FOUND",
            SyncError::InvalidTimestamp(_) => "INVALID_TIMESTAMP",
            SyncError::SerializationError(_) => "SERIALIZATION_ERROR",
            SyncError::DeserializationError(_) => "DESERIALIZATION_ERROR",
            SyncError::StorageError(_) => "STORAGE_ERROR",
            SyncError::NetworkError(_) => "NETWORK_ERROR",
            SyncError::ConflictError(_) => "CONFLICT_ERROR",
            SyncError::InvalidOperation(_) => "INVALID_OPERATION",
            SyncError::Protocol(_) => "PROTOCOL_ERROR",
        }
    }
}

} // verus!
