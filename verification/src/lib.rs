//! Synchronization core for a collaborative document engine.
//!
//! Multiple replicas of a logical document diverge independently and later
//! reconverge, deterministically, to one agreed-upon state:
//!
//! - [`sync::VectorClock`] tracks causality between operations on replicas.
//! - [`document::Document`] is a field-addressed document whose fields carry
//!   hybrid timestamps; merges resolve per field by Last-Write-Wins.
//! - [`sync::delta`] computes, applies and coalesces minimal change sets
//!   between document states.
//! - [`crdt`] holds the auxiliary replicated data types: an observed-remove
//!   set, dense fractional position keys, and a YATA-style text sequence.
//!
//! Every merge is commutative, associative and idempotent over the observable
//! state, which the proof functions in each module establish.

use vstd::prelude::*;

pub mod assoc;
pub mod crdt;
pub mod document;
pub mod error;
pub mod order;
pub mod protocol;
pub mod sync;
pub mod value;

pub use document::Document;
pub use error::SyncError;
pub use sync::Timestamp;
pub use sync::VectorClock;
pub use value::Value;

verus! {

/// Client (replica) identifier: opaque printable text, compared
/// lexicographically for tie-breaking.
pub type ClientID = String;

/// Document identifier.
pub type DocumentID = String;

/// Field path within a document, treated opaquely.
pub type FieldPath = String;

} // verus!
