//! Conflict-free replicated data types.
//!
//! Three auxiliary structures share the document engine's convergence
//! contract while working on richer shapes: an observed-remove set, dense
//! fractional position keys, and a YATA-style text sequence.

pub mod fractional_index;
pub mod or_set;
pub mod text;

pub use fractional_index::FractionalIndex;
pub use or_set::ORSet;
pub use text::Text;
