//! Synchronization primitives: hybrid timestamps for Last-Write-Wins
//! conflict resolution, vector clocks for causality tracking, the per-field
//! LWW merge, and delta computation.

use crate::order::lemma_lex_lt_asymmetric;
use crate::order::lemma_lex_lt_total;
use crate::order::lemma_lex_lt_transitive;
use crate::order::cmp_str;
use crate::order::lex_lt;
use crate::ClientID;
use vstd::prelude::*;

pub mod delta;
pub mod lww;
pub mod vector_clock;

pub use delta::{apply_delta, compute_delta, merge_deltas, Delta};
pub use lww::LWWField;
pub use vector_clock::VectorClock;

verus! {

/// Mathematical shape of a [`Timestamp`]: a clock value and a client name.
pub struct TsView {
    /// Logical clock value.
    pub clock: u64,
    /// Client id, as its character sequence.
    pub client: Seq<char>,
}

/// The strict total order on timestamp views: clock first, then client id
/// lexicographically.
pub open spec fn ts_view_lt(a: TsView, b: TsView) -> bool {
    a.clock < b.clock || (a.clock == b.clock && lex_lt(a.client, b.client))
}

/// The order on timestamp views is total and strict: any two views are
/// related in exactly one way.
pub proof fn lemma_ts_view_order_total(a: TsView, b: TsView)
    ensures
        ts_view_lt(a, b) || ts_view_lt(b, a) || a == b,
        ts_view_lt(a, b) ==> !ts_view_lt(b, a) && a != b,
        ts_view_lt(b, a) ==> !ts_view_lt(a, b) && a != b,
        a == b ==> !ts_view_lt(a, b) && !ts_view_lt(b, a),
{
    lemma_lex_lt_total(a.client, b.client);
    if lex_lt(a.client, b.client) {
        lemma_lex_lt_asymmetric(a.client, b.client);
    }
    if lex_lt(b.client, a.client) {
        lemma_lex_lt_asymmetric(b.client, a.client);
    }
}

/// The order on timestamp views is transitive.
pub proof fn lemma_ts_view_order_transitive(a: TsView, b: TsView, c: TsView)
    requires
        ts_view_lt(a, b),
        ts_view_lt(b, c),
    ensures
        ts_view_lt(a, c),
{
    if a.clock == b.clock && b.clock == c.clock {
        lemma_lex_lt_transitive(a.client, b.client, c.client);
    }
}

/// Timestamp for Last-Write-Wins conflict resolution.
///
/// Carries a logical clock value and a client id for deterministic
/// tie-breaking: writes are ordered by clock first, and when clocks are equal
/// the lexicographically greater client id wins. This total order is what
/// makes concurrent writes to one field converge identically on all replicas.
#[derive(Debug)]
pub struct Timestamp {
    /// Logical clock value (higher = more recent).
    pub clock: u64,
    /// Client id for tie-breaking when clocks are equal.
    pub client_id: ClientID,
}

impl Clone for Timestamp {
    /// Cloning yields the same timestamp.
    fn clone(&self) -> (res: Timestamp)
        ensures
            res == *self,
    {
        Timestamp { clock: self.clock, client_id: self.client_id.clone() }
    }
}

impl View for Timestamp {
    type V = TsView;

    open spec fn view(&self) -> TsView {
        TsView { clock: self.clock, client: self.client_id@ }
    }
}

impl Timestamp {
    /// `self` comes strictly before `other` in the total LWW order.
    pub open spec fn spec_lt(self, other: Timestamp) -> bool {
        ts_view_lt(self@, other@)
    }

    /// `self` and `other` name the same instant: equal clock, equal client.
    pub open spec fn spec_eq(self, other: Timestamp) -> bool {
        self@ == other@
    }

    /// Create a new timestamp.
    pub fn new(clock: u64, client_id: ClientID) -> (r: Timestamp)
        ensures
            r.clock == clock,
            r.client_id == client_id,
    {
        Timestamp { clock, client_id }
    }

    /// Three-way comparison in the total LWW order: clock first, then client
    /// id lexicographically.
    pub fn compare_lww(&self, other: &Timestamp) -> (r: core::cmp::Ordering)
        ensures
            r == core::cmp::Ordering::Less <==> self.spec_lt(*other),
            r == core::cmp::Ordering::Greater <==> other.spec_lt(*self),
            r == core::cmp::Ordering::Equal <==> self.spec_eq(*other),
    {
        if self.clock < other.clock {
            core::cmp::Ordering::Less
        } else if self.clock > other.clock {
            core::cmp::Ordering::Greater
        } else {
            cmp_str(self.client_id.as_str(), other.client_id.as_str())
        }
    }

    /// `self` strictly supersedes `other` in the LWW order.
    pub fn is_newer_than(&self, other: &Timestamp) -> (r: bool)
        ensures
            r == other.spec_lt(*self),
    {
        matches!(self.compare_lww(other), core::cmp::Ordering::Greater)
    }
}

impl PartialEq for Timestamp {
    fn eq(&self, other: &Timestamp) -> (r: bool) {
        self.clock == other.clock && self.client_id == other.client_id
    }
}

impl vstd::std_specs::cmp::PartialEqSpecImpl for Timestamp {
    open spec fn obeys_eq_spec() -> bool {
        true
    }

    open spec fn eq_spec(&self, other: &Timestamp) -> bool {
        self.spec_eq(*other)
    }
}

/// The LWW order on timestamps is total: any two timestamps are related, and
/// in exactly one way. This is what makes the winner of two writes a function
/// of their timestamps alone, on every replica alike.
pub proof fn lemma_timestamp_order_total(a: Timestamp, b: Timestamp)
    ensures
        a.spec_lt(b) || b.spec_lt(a) || a.spec_eq(b),
        a.spec_lt(b) ==> !b.spec_lt(a) && !a.spec_eq(b),
        b.spec_lt(a) ==> !a.spec_lt(b) && !a.spec_eq(b),
        a.spec_eq(b) ==> !a.spec_lt(b) && !b.spec_lt(a),
{
    lemma_lex_lt_total(a.client_id@, b.client_id@);
    if lex_lt(a.client_id@, b.client_id@) {
        lemma_lex_lt_asymmetric(a.client_id@, b.client_id@);
    }
    if lex_lt(b.client_id@, a.client_id@) {
        lemma_lex_lt_asymmetric(b.client_id@, a.client_id@);
    }
}

/// The LWW order on timestamps is transitive.
pub proof fn lemma_timestamp_order_transitive(a: Timestamp, b: Timestamp, c: Timestamp)
    requires
        a.spec_lt(b),
        b.spec_lt(c),
    ensures
        a.spec_lt(c),
{
    if a.clock == b.clock && b.clock == c.clock {
        lemma_lex_lt_transitive(a.client_id@, b.client_id@, c.client_id@);
    }
}

} // verus!
