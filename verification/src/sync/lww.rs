//! The Last-Write-Wins register: a single value with a timestamp.
//!
//! Merging two registers keeps the one whose timestamp is strictly greater
//! in the total order on hybrid timestamps; on a tie the local side stays,
//! which is the same outcome everywhere because equal timestamps come from
//! one single write.

use crate::sync::lemma_ts_view_order_total;
use crate::sync::lemma_ts_view_order_transitive;
use crate::sync::ts_view_lt;
use crate::sync::Timestamp;
use crate::sync::TsView;
use crate::value::Value;
use crate::value::ValueView;
use vstd::prelude::*;

verus! {

/// Mathematical shape of an [`LWWField`].
pub struct LWWFieldView {
    /// The stored value.
    pub value: ValueView,
    /// The timestamp that stamped it.
    pub timestamp: TsView,
}

/// A field value with LWW metadata.
#[derive(Debug)]
pub struct LWWField {
    /// The actual field value.
    pub value: Value,
    /// Timestamp for conflict resolution.
    pub timestamp: Timestamp,
}

impl View for LWWField {
    type V = LWWFieldView;

    open spec fn view(&self) -> LWWFieldView {
        LWWFieldView { value: self.value@, timestamp: self.timestamp@ }
    }
}

impl Clone for LWWField {
    /// Cloning preserves the observable register.
    fn clone(&self) -> (res: LWWField)
        ensures
            res@ == self@,
    {
        LWWField { value: self.value.clone(), timestamp: self.timestamp.clone() }
    }
}

impl PartialEq for LWWField {
    fn eq(&self, other: &LWWField) -> (r: bool) {
        self.value == other.value && self.timestamp == other.timestamp
    }
}

impl vstd::std_specs::cmp::PartialEqSpecImpl for LWWField {
    open spec fn obeys_eq_spec() -> bool {
        true
    }

    open spec fn eq_spec(&self, other: &LWWField) -> bool {
        self@ == other@
    }
}

/// The register that survives when `remote` is merged into `local`: the one
/// with the strictly greater timestamp, the local one on a tie.
pub open spec fn lww_register_merge(local: LWWFieldView, remote: LWWFieldView) -> LWWFieldView {
    if ts_view_lt(local.timestamp, remote.timestamp) {
        remote
    } else {
        local
    }
}

impl LWWField {
    /// Create a new LWW field with a value and timestamp.
    pub fn new(value: Value, timestamp: Timestamp) -> (r: LWWField)
        ensures
            r@ == (LWWFieldView { value: value@, timestamp: timestamp@ }),
    {
        LWWField { value, timestamp }
    }

    /// Merge two LWW fields: the strictly newer timestamp wins; on equal
    /// timestamps the local side stays.
    pub fn merge(&self, other: &LWWField) -> (r: LWWField)
        ensures
            r@ == lww_register_merge(self@, other@),
    {
        match self.timestamp.compare_lww(&other.timestamp) {
            core::cmp::Ordering::Less => other.clone(),
            core::cmp::Ordering::Greater => self.clone(),
            core::cmp::Ordering::Equal => {
                proof {
                    lemma_ts_view_order_total(self@.timestamp, other@.timestamp);
                }
                self.clone()
            },
        }
    }

    /// Check if this field's timestamp strictly supersedes another's.
    pub fn is_newer_than(&self, other: &LWWField) -> (r: bool)
        ensures
            r == ts_view_lt(other@.timestamp, self@.timestamp),
    {
        self.timestamp.is_newer_than(&other.timestamp)
    }
}

/// Merging a register with itself changes nothing (idempotence).
pub proof fn lemma_lww_register_merge_idempotent(x: LWWFieldView)
    ensures
        lww_register_merge(x, x) == x,
{
    lemma_ts_view_order_total(x.timestamp, x.timestamp);
}

/// Merging is commutative, provided equal timestamps only ever stamp equal
/// registers — which holds between genuine replicas, where a timestamp is
/// issued once and never reused.
pub proof fn lemma_lww_register_merge_commutative(x: LWWFieldView, y: LWWFieldView)
    requires
        x.timestamp == y.timestamp ==> x == y,
    ensures
        lww_register_merge(x, y) == lww_register_merge(y, x),
{
    lemma_ts_view_order_total(x.timestamp, y.timestamp);
}

/// Merging is associative.
pub proof fn lemma_lww_register_merge_associative(x: LWWFieldView, y: LWWFieldView, z: LWWFieldView)
    ensures
        lww_register_merge(lww_register_merge(x, y), z) == lww_register_merge(
            x,
            lww_register_merge(y, z),
        ),
{
    lemma_ts_view_order_total(x.timestamp, y.timestamp);
    lemma_ts_view_order_total(y.timestamp, z.timestamp);
    lemma_ts_view_order_total(x.timestamp, z.timestamp);
    if ts_view_lt(x.timestamp, y.timestamp) && ts_view_lt(y.timestamp, z.timestamp) {
        lemma_ts_view_order_transitive(x.timestamp, y.timestamp, z.timestamp);
    }
    if ts_view_lt(z.timestamp, y.timestamp) && ts_view_lt(y.timestamp, x.timestamp) {
        lemma_ts_view_order_transitive(z.timestamp, y.timestamp, x.timestamp);
    }
}

} // verus!
