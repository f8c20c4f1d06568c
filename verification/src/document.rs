//! Documents with field-level Last-Write-Wins conflict resolution.
//!
//! A document is a map from field paths to values, each value stamped with a
//! hybrid timestamp, plus a vector clock recording what the document has
//! seen. Merging resolves each field independently: the write with the
//! strictly greater timestamp wins, and on equal timestamps the local value
//! stays — which is the same outcome on every replica, because equal
//! timestamps come from one single write.

use crate::assoc::assoc_get;
use crate::assoc::assoc_has;
use crate::assoc::assoc_index_of;
use crate::assoc::lemma_assoc_get_absent;
use crate::assoc::lemma_assoc_get_first;
use crate::assoc::lemma_assoc_get_snoc;
use crate::assoc::lemma_assoc_get_update;
use crate::assoc::unique_keys;
use crate::sync::lemma_ts_view_order_total;
use crate::sync::lemma_ts_view_order_transitive;
use crate::sync::vector_clock::max_u64;
use crate::sync::ts_view_lt;
use crate::sync::Timestamp;
use crate::sync::TsView;
use crate::sync::VectorClock;
use crate::value::Value;
use crate::value::ValueView;
use crate::ClientID;
use crate::DocumentID;
use crate::FieldPath;
use vstd::prelude::*;

verus! {

/// Mathematical shape of a [`Field`].
pub struct FieldView {
    /// The stored value.
    pub value: ValueView,
    /// The timestamp that stamped it.
    pub timestamp: TsView,
    /// Whether this entry is a deletion marker.
    pub tombstone: bool,
}

/// A single field: a value with LWW metadata.
///
/// A tombstone is a field whose content has been deleted; it keeps its
/// timestamp so that later merges can still order the deletion against
/// concurrent writes, and is distinct from the field being absent.
#[derive(Debug)]
pub struct Field {
    /// Field value.
    pub value: Value,
    /// Timestamp for LWW conflict resolution.
    pub timestamp: Timestamp,
    /// Whether this entry marks a deletion.
    pub tombstone: bool,
}

impl View for Field {
    type V = FieldView;

    open spec fn view(&self) -> FieldView {
        FieldView { value: self.value@, timestamp: self.timestamp@, tombstone: self.tombstone }
    }
}

impl Clone for Field {
    /// Cloning preserves the observable field.
    fn clone(&self) -> (res: Field)
        ensures
            res@ == self@,
    {
        Field {
            value: self.value.clone(),
            timestamp: self.timestamp.clone(),
            tombstone: self.tombstone,
        }
    }
}

impl PartialEq for Field {
    fn eq(&self, other: &Field) -> (r: bool) {
        self.value == other.value && self.timestamp == other.timestamp && self.tombstone
            == other.tombstone
    }
}

impl vstd::std_specs::cmp::PartialEqSpecImpl for Field {
    open spec fn obeys_eq_spec() -> bool {
        true
    }

    open spec fn eq_spec(&self, other: &Field) -> bool {
        self@ == other@
    }
}

impl Field {
    /// Create a live (non-tombstone) field.
    pub fn new(value: Value, timestamp: Timestamp) -> (r: Field)
        ensures
            r@ == (FieldView { value: value@, timestamp: timestamp@, tombstone: false }),
    {
        Field { value, timestamp, tombstone: false }
    }
}

/// The field stored under path `p`, observably.
pub open spec fn fields_at(entries: Seq<(FieldPath, Field)>, p: Seq<char>) -> Option<FieldView> {
    match assoc_get(entries, p) {
        Some(f) => Some(f@),
        None => None,
    }
}

/// Last-Write-Wins resolution of one field slot: a missing side loses, and
/// between two fields the strictly greater timestamp wins — on a tie the
/// local (left) side stays.
pub open spec fn lww_field_merge(
    local: Option<FieldView>,
    remote: Option<FieldView>,
) -> Option<FieldView> {
    match (local, remote) {
        (None, r) => r,
        (Some(l), None) => Some(l),
        (Some(l), Some(r)) => if ts_view_lt(l.timestamp, r.timestamp) {
            Some(r)
        } else {
            Some(l)
        },
    }
}

/// Whether installing `remote` over `local` changes the slot.
pub open spec fn lww_updates(local: Option<FieldView>, remote: FieldView) -> bool {
    match local {
        None => true,
        Some(l) => ts_view_lt(l.timestamp, remote.timestamp),
    }
}

/// How many of the first `t` remote entries win against `doc`'s fields.
pub open spec fn count_updated(doc: Document, entries: Seq<(FieldPath, Field)>, t: int) -> int
    decreases t,
{
    if t <= 0 {
        0
    } else {
        count_updated(doc, entries, t - 1) + if lww_updates(
            doc.field_at(entries[t - 1].0@),
            entries[t - 1].1@,
        ) {
            1int
        } else {
            0int
        }
    }
}

/// A document: identified fields with LWW metadata and a version clock.
#[derive(Debug)]
pub struct Document {
    /// Unique document identifier.
    pub id: DocumentID,
    /// Document fields, keys pairwise distinct.
    pub fields: Vec<(FieldPath, Field)>,
    /// Vector clock for causality tracking.
    pub version: VectorClock,
}

impl Clone for Document {
    /// Cloning preserves the id, every field, and the version clock.
    fn clone(&self) -> (res: Document)
        ensures
            res.id@ == self.id@,
            res.fields@ == self.fields@,
            res.version.clocks@ == self.version.clocks@,
    {
        let mut fields: Vec<(FieldPath, Field)> = Vec::new();
        let mut i: usize = 0;
        while i < self.fields.len()
            invariant
                i <= self.fields@.len(),
                fields@ == self.fields@.take(i as int),
            decreases self.fields@.len() - i,
        {
            let pair = (self.fields[i].0.clone(), self.fields[i].1.deep_copy());
            fields.push(pair);
            proof {
                assert(fields@ =~= self.fields@.take(i + 1));
            }
            i = i + 1;
        }
        proof {
            assert(self.fields@.take(self.fields@.len() as int) =~= self.fields@);
        }
        Document { id: self.id.clone(), fields, version: self.version.clone() }
    }
}

impl Field {
    /// An exact copy: the same value, timestamp and marker, equal as a value.
    pub(crate) fn deep_copy(&self) -> (res: Field)
        ensures
            res == *self,
    {
        let value = match &self.value {
            Value::Null => Value::Null,
            Value::Bool(b) => Value::Bool(*b),
            Value::Int(i) => Value::Int(*i),
            Value::Str(s) => Value::Str(s.clone()),
            Value::Json(s) => Value::Json(s.clone()),
        };
        Field { value, timestamp: self.timestamp.clone(), tombstone: self.tombstone }
    }
}

impl Document {
    /// Well-formed: field paths are unique and the version clock is sound.
    pub open spec fn wf(self) -> bool {
        unique_keys(self.fields@) && self.version.wf()
    }

    /// The field stored under path `p`, observably.
    pub open spec fn field_at(self, p: Seq<char>) -> Option<FieldView> {
        fields_at(self.fields@, p)
    }

    /// Create a new, empty document.
    pub fn new(id: DocumentID) -> (r: Document)
        ensures
            r.wf(),
            r.id == id,
            forall|p: Seq<char>| #[trigger] r.field_at(p) is None,
            forall|c: Seq<char>| #[trigger] r.version.entry(c) == 0,
    {
        Document { id, fields: Vec::new(), version: VectorClock::new() }
    }

    /// Install `field` under `field_path`, replacing any previous entry.
    fn install_field(&mut self, field_path: FieldPath, field: Field)
        requires
            old(self).wf(),
        ensures
            final(self).wf(),
            final(self).id == old(self).id,
            final(self).version == old(self).version,
            final(self).field_at(field_path@) == Some(field@),
            forall|p: Seq<char>|
                p != field_path@ ==> #[trigger] final(self).field_at(p) == old(self).field_at(p),
    {
        let ghost old_entries = self.fields@;
        let ghost key = field_path@;
        match assoc_index_of(&self.fields, field_path.as_str()) {
            Some(i) => {
                self.fields[i] = (field_path, field);
                proof {
                    lemma_assoc_get_update(old_entries, self.fields@, i as int, key);
                }
            },
            None => {
                self.fields.push((field_path, field));
                proof {
                    let entries = self.fields@;
                    let last = entries[old_entries.len() as int];
                    assert(entries =~= old_entries.push(last));
                    assert(last.0@ == key);
                    assert(!assoc_has(old_entries, key));
                    lemma_assoc_get_snoc(old_entries, last, key);
                    assert forall|p: Seq<char>| p != key implies #[trigger] assoc_get(entries, p)
                        == assoc_get(old_entries, p) by {
                        lemma_assoc_get_snoc(old_entries, last, p);
                        if !assoc_has(old_entries, p) {
                            lemma_assoc_get_absent(old_entries, p);
                        }
                    }
                    assert(unique_keys(entries));
                }
            },
        }
    }

    /// Set a field value, stamping it with a fresh timestamp built from
    /// `(clock, client_id)`. The write installs unconditionally: choosing a
    /// clock greater than anything previously observed for this field is the
    /// caller's responsibility (typically by ticking its vector clock first).
    pub fn set_field(&mut self, field_path: FieldPath, value: Value, clock: u64, client_id: ClientID)
        requires
            old(self).wf(),
        ensures
            final(self).wf(),
            final(self).id == old(self).id,
            final(self).version == old(self).version,
            final(self).field_at(field_path@) == Some(
                FieldView {
                    value: value@,
                    timestamp: TsView { clock, client: client_id@ },
                    tombstone: false,
                },
            ),
            forall|p: Seq<char>|
                p != field_path@ ==> #[trigger] final(self).field_at(p) == old(self).field_at(p),
    {
        let timestamp = Timestamp::new(clock, client_id);
        let field = Field { value, timestamp, tombstone: false };
        self.install_field(field_path, field);
    }

    /// Install a tombstone at `field_path` with a fresh timestamp: the field
    /// reads as absent afterwards, but the deletion still carries a timestamp
    /// so later merges can order it against concurrent writes.
    pub fn delete_field(&mut self, field_path: FieldPath, clock: u64, client_id: ClientID)
        requires
            old(self).wf(),
        ensures
            final(self).wf(),
            final(self).id == old(self).id,
            final(self).version == old(self).version,
            final(self).field_at(field_path@) == Some(
                FieldView {
                    value: ValueView::Null,
                    timestamp: TsView { clock, client: client_id@ },
                    tombstone: true,
                },
            ),
            forall|p: Seq<char>|
                p != field_path@ ==> #[trigger] final(self).field_at(p) == old(self).field_at(p),
    {
        let timestamp = Timestamp::new(clock, client_id);
        let field = Field { value: Value::Null, timestamp, tombstone: true };
        self.install_field(field_path, field);
    }

    /// Get a field value. Tombstoned and absent fields both read as `None`.
    pub fn get_field(&self, field_path: &FieldPath) -> (r: Option<&Value>)
        requires
            self.wf(),
        ensures
            r matches Some(v) ==> (self.field_at(field_path@) matches Some(f) && v@ == f.value
                && !f.tombstone),
            r is None ==> (self.field_at(field_path@) is None || (self.field_at(
                field_path@,
            ) matches Some(f) && f.tombstone)),
    {
        match assoc_index_of(&self.fields, field_path.as_str()) {
            Some(i) => {
                proof {
                    lemma_assoc_get_first(self.fields@, i as int, field_path@);
                }
                if self.fields[i].1.tombstone {
                    None
                } else {
                    Some(&self.fields[i].1.value)
                }
            },
            None => {
                proof {
                    lemma_assoc_get_absent(self.fields@, field_path@);
                }
                None
            },
        }
    }

    /// Merge a remote field into this document under the LWW rule: install it
    /// if the slot is empty or the remote timestamp is strictly greater.
    /// Returns whether the local document changed.
    pub fn merge_field(&mut self, field_path: FieldPath, remote_field: Field) -> (r: bool)
        requires
            old(self).wf(),
        ensures
            final(self).wf(),
            final(self).id == old(self).id,
            final(self).version == old(self).version,
            final(self).field_at(field_path@) == lww_field_merge(
                old(self).field_at(field_path@),
                Some(remote_field@),
            ),
            forall|p: Seq<char>|
                p != field_path@ ==> #[trigger] final(self).field_at(p) == old(self).field_at(p),
            r == lww_updates(old(self).field_at(field_path@), remote_field@),
    {
        lww_install(&mut self.fields, field_path, remote_field)
    }

    /// Merge an entire remote document: every remote field is merged under
    /// the LWW rule, then the version clocks merge pointwise. Returns the
    /// number of fields the merge changed.
    pub fn merge(&mut self, remote: &Document) -> (r: usize)
        requires
            old(self).wf(),
            remote.wf(),
        ensures
            final(self).wf(),
            final(self).id == old(self).id,
            forall|p: Seq<char>| #[trigger]
                final(self).field_at(p) == lww_field_merge(
                    old(self).field_at(p),
                    remote.field_at(p),
                ),
            forall|c: Seq<char>| #[trigger]
                final(self).version.entry(c) == max_u64(
                    old(self).version.entry(c),
                    remote.version.entry(c),
                ),
            r == count_updated(*old(self), remote.fields@, remote.fields@.len() as int),
    {
        let ghost prior = *self;
        let mut updated_count: usize = 0;
        let mut t: usize = 0;
        while t < remote.fields.len()
            invariant
                self.wf(),
                remote.wf(),
                t <= remote.fields@.len(),
                self.id == prior.id,
                self.version == prior.version,
                updated_count <= t,
                updated_count == count_updated(prior, remote.fields@, t as int),
                forall|p: Seq<char>|
                    self.field_at(p) == lww_field_merge(
                        #[trigger] prior.field_at(p),
                        fields_at(remote.fields@.take(t as int), p),
                    ),
            decreases remote.fields@.len() - t,
        {
            let ghost before = *self;
            let path = remote.fields[t].0.clone();
            let field = remote.fields[t].1.clone();
            let ghost key = remote.fields@[t as int].0@;
            proof {
                let taken = remote.fields@.take(t as int);
                assert(!assoc_has(taken, key)) by {
                    if assoc_has(taken, key) {
                        let j = choose|j: int| 0 <= j < taken.len() && taken[j].0@ == key;
                        assert(remote.fields@[j].0@ == remote.fields@[t as int].0@);
                    }
                }
                lemma_assoc_get_absent(taken, key);
                assert(before.field_at(key) == prior.field_at(key));
            }
            let updated = self.merge_field(path, field);
            if updated {
                updated_count = updated_count + 1;
            }
            proof {
                let taken = remote.fields@.take(t as int);
                let taken1 = remote.fields@.take(t + 1);
                assert(taken1 =~= taken.push(remote.fields@[t as int]));
                assert forall|p: Seq<char>| self.field_at(p) == lww_field_merge(
                    #[trigger] prior.field_at(p),
                    fields_at(taken1, p),
                ) by {
                    lemma_assoc_get_snoc(taken, remote.fields@[t as int], p);
                    if p != key {
                        if !assoc_has(taken, p) {
                            lemma_assoc_get_absent(taken, p);
                        }
                        assert(self.field_at(p) == before.field_at(p));
                    }
                }
            }
            t = t + 1;
        }
        proof {
            assert(remote.fields@.take(remote.fields@.len() as int) =~= remote.fields@);
            assert forall|p: Seq<char>| self.field_at(p) == lww_field_merge(
                #[trigger] prior.field_at(p),
                remote.field_at(p),
            ) by {
                assert(fields_at(remote.fields@.take(remote.fields@.len() as int), p)
                    == remote.field_at(p));
            }
        }
        self.version.merge(&remote.version);
        updated_count
    }

    /// All field paths, in storage order; tombstoned paths included.
    pub fn field_paths(&self) -> (r: Vec<&FieldPath>)
        ensures
            r@.len() == self.fields@.len(),
            forall|i: int| 0 <= i < r@.len() ==> r@[i]@ == #[trigger] self.fields@[i].0@,
    {
        let mut out: Vec<&FieldPath> = Vec::new();
        let mut i: usize = 0;
        while i < self.fields.len()
            invariant
                i <= self.fields@.len(),
                out@.len() == i,
                forall|j: int| 0 <= j < i ==> out@[j]@ == #[trigger] self.fields@[j].0@,
            decreases self.fields@.len() - i,
        {
            out.push(&self.fields[i].0);
            i = i + 1;
        }
        out
    }

    /// Whether the document records no fields at all (tombstones count as
    /// recorded).
    pub fn is_empty(&self) -> (r: bool)
        ensures
            r <==> self.fields@.len() == 0,
    {
        self.fields.is_empty()
    }

    /// Number of recorded fields, tombstones included.
    pub fn field_count(&self) -> (r: usize)
        ensures
            r == self.fields@.len(),
    {
        self.fields.len()
    }
}

/// Install `remote_field` under `field_path` in an LWW field list: it lands
/// if the slot is empty or its timestamp is strictly greater. Returns whether
/// the list changed.
pub(crate) fn lww_install(
    entries: &mut Vec<(FieldPath, Field)>,
    field_path: FieldPath,
    remote_field: Field,
) -> (r: bool)
    requires
        unique_keys(old(entries)@),
    ensures
        unique_keys(final(entries)@),
        fields_at(final(entries)@, field_path@) == lww_field_merge(
            fields_at(old(entries)@, field_path@),
            Some(remote_field@),
        ),
        forall|p: Seq<char>|
            p != field_path@ ==> #[trigger] fields_at(final(entries)@, p) == fields_at(
                old(entries)@,
                p,
            ),
        r == lww_updates(fields_at(old(entries)@, field_path@), remote_field@),
{
    let ghost old_entries = entries@;
    let ghost key = field_path@;
    match assoc_index_of(entries, field_path.as_str()) {
        Some(i) => {
            proof {
                lemma_assoc_get_first(entries@, i as int, key);
            }
            if remote_field.timestamp.is_newer_than(&entries[i].1.timestamp) {
                entries[i] = (field_path, remote_field);
                proof {
                    lemma_assoc_get_update(old_entries, entries@, i as int, key);
                }
                true
            } else {
                false
            }
        },
        None => {
            proof {
                lemma_assoc_get_absent(entries@, key);
            }
            entries.push((field_path, remote_field));
            proof {
                let new_entries = entries@;
                let last = new_entries[old_entries.len() as int];
                assert(new_entries =~= old_entries.push(last));
                assert(last.0@ == key);
                assert(!assoc_has(old_entries, key));
                lemma_assoc_get_snoc(old_entries, last, key);
                assert forall|p: Seq<char>| p != key implies #[trigger] assoc_get(new_entries, p)
                    == assoc_get(old_entries, p) by {
                    lemma_assoc_get_snoc(old_entries, last, p);
                    if !assoc_has(old_entries, p) {
                        lemma_assoc_get_absent(old_entries, p);
                    }
                }
                assert(unique_keys(new_entries));
            }
            true
        },
    }
}

/// The field that path `p` holds after merging `b` into `a`.
pub open spec fn merged_field(a: Document, b: Document, p: Seq<char>) -> Option<FieldView> {
    lww_field_merge(a.field_at(p), b.field_at(p))
}

/// Merging a document with itself leaves every field unchanged (idempotence).
pub proof fn lemma_document_merge_idempotent(a: Document)
    ensures
        forall|p: Seq<char>| #[trigger] merged_field(a, a, p) == a.field_at(p),
{
    assert forall|p: Seq<char>| #[trigger] merged_field(a, a, p) == a.field_at(p) by {
        match a.field_at(p) {
            Some(l) => {
                lemma_ts_view_order_total(l.timestamp, l.timestamp);
            },
            None => {},
        }
    }
}

/// Merging is commutative over the observable fields, provided equal
/// timestamps only ever stamp equal fields — which holds between genuine
/// replicas, where a timestamp is issued once and never reused.
pub proof fn lemma_document_merge_commutative(a: Document, b: Document)
    requires
        forall|p: Seq<char>|
            match (#[trigger] a.field_at(p), b.field_at(p)) {
                (Some(x), Some(y)) => x.timestamp == y.timestamp ==> x == y,
                _ => true,
            },
    ensures
        forall|p: Seq<char>| #[trigger] merged_field(a, b, p) == merged_field(b, a, p),
{
    assert forall|p: Seq<char>| #[trigger] merged_field(a, b, p) == merged_field(b, a, p) by {
        match (a.field_at(p), b.field_at(p)) {
            (Some(x), Some(y)) => {
                lemma_ts_view_order_total(x.timestamp, y.timestamp);
            },
            _ => {},
        }
    }
}

/// Merging is associative over the observable fields.
pub proof fn lemma_document_merge_associative(a: Document, b: Document, c: Document)
    ensures
        forall|p: Seq<char>|
            lww_field_merge(#[trigger] merged_field(a, b, p), c.field_at(p)) == lww_field_merge(
                a.field_at(p),
                merged_field(b, c, p),
            ),
{
    assert forall|p: Seq<char>| lww_field_merge(
        #[trigger] merged_field(a, b, p),
        c.field_at(p),
    ) == lww_field_merge(a.field_at(p), merged_field(b, c, p)) by {
        match (a.field_at(p), b.field_at(p), c.field_at(p)) {
            (Some(x), Some(y), Some(z)) => {
                lemma_ts_view_order_total(x.timestamp, y.timestamp);
                lemma_ts_view_order_total(y.timestamp, z.timestamp);
                lemma_ts_view_order_total(x.timestamp, z.timestamp);
                if ts_view_lt(x.timestamp, y.timestamp) && ts_view_lt(y.timestamp, z.timestamp) {
                    lemma_ts_view_order_transitive(x.timestamp, y.timestamp, z.timestamp);
                }
                if ts_view_lt(z.timestamp, y.timestamp) && ts_view_lt(y.timestamp, x.timestamp) {
                    lemma_ts_view_order_transitive(z.timestamp, y.timestamp, x.timestamp);
                }
            },
            _ => {},
        }
    }
}

} // verus!
