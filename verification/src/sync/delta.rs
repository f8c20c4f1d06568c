//! Delta computation for efficient synchronization.
//!
//! A delta holds only the fields that changed between two document states,
//! so replicas can exchange minimal change sets instead of full documents.
//! Applying a delta merges each carried field under the LWW rule and merges
//! the version clocks.

use crate::assoc::assoc_get;
use crate::assoc::assoc_has;
use crate::assoc::lemma_assoc_get_absent;
use crate::assoc::lemma_assoc_get_snoc;
use crate::assoc::unique_keys;
use crate::document::fields_at;
use crate::document::lww_field_merge;
use crate::document::lww_install;
use crate::document::Document;
use crate::document::Field;
use crate::document::FieldView;
use crate::sync::ts_view_lt;
use crate::sync::vector_clock::max_u64;
use crate::sync::VectorClock;
use crate::DocumentID;
use crate::FieldPath;
use vstd::prelude::*;

verus! {

/// Changes between two document states: only the fields that differ, plus
/// the version clock the changes lead to.
#[derive(Debug)]
pub struct Delta {
    /// Document this delta applies to.
    pub document_id: DocumentID,
    /// Changed fields, keys pairwise distinct.
    pub fields: Vec<(FieldPath, Field)>,
    /// Vector clock after applying this delta.
    pub version: VectorClock,
}

impl Delta {
    /// Well-formed: field paths are unique and the version clock is sound.
    pub open spec fn wf(self) -> bool {
        unique_keys(self.fields@) && self.version.wf()
    }

    /// The change recorded for path `p`, observably.
    pub open spec fn field_at(self, p: Seq<char>) -> Option<FieldView> {
        fields_at(self.fields@, p)
    }

    /// Create a new delta from its parts.
    pub fn new(document_id: DocumentID, fields: Vec<(FieldPath, Field)>, version: VectorClock) -> (r:
        Delta)
        requires
            unique_keys(fields@),
            version.wf(),
        ensures
            r.wf(),
            r.document_id == document_id,
            r.fields@ == fields@,
            r.version == version,
    {
        Delta { document_id, fields, version }
    }

    /// Create an empty delta: no changes.
    pub fn empty(document_id: DocumentID, version: VectorClock) -> (r: Delta)
        requires
            version.wf(),
        ensures
            r.wf(),
            r.document_id == document_id,
            r.fields@.len() == 0,
            forall|p: Seq<char>| #[trigger] r.field_at(p) is None,
            r.version == version,
    {
        Delta { document_id, fields: Vec::new(), version }
    }

    /// Whether the delta carries no changes.
    pub fn is_empty(&self) -> (r: bool)
        ensures
            r <==> self.fields@.len() == 0,
    {
        self.fields.is_empty()
    }

    /// The number of changed fields.
    pub fn len(&self) -> (r: usize)
        ensures
            r == self.fields@.len(),
    {
        self.fields.len()
    }
}

/// What a delta computed from `old_doc` to `new_doc` carries for path `p`:
/// the new field where it is fresh or differs from the old one, nothing
/// otherwise. Fields deleted outright from `new_doc` are not tracked here;
/// the wire-level delta carries those as explicit tombstone changes.
pub open spec fn changed_slot(old_doc: Document, new_doc: Document, p: Seq<char>) -> Option<
    FieldView,
> {
    changed_slot_in(old_doc, new_doc.fields@, p)
}

/// As [`changed_slot`], against an explicit list of new fields.
pub open spec fn changed_slot_in(
    old_doc: Document,
    new_entries: Seq<(FieldPath, Field)>,
    p: Seq<char>,
) -> Option<FieldView> {
    match fields_at(new_entries, p) {
        Some(f) => if old_doc.field_at(p) == Some(f) {
            None
        } else {
            Some(f)
        },
        None => None,
    }
}

/// Compute the delta between two documents: the fields of `new_doc` that are
/// fresh or differ from `old_doc`, with `new_doc`'s id and version.
pub fn compute_delta(old_doc: &Document, new_doc: &Document) -> (r: Delta)
    requires
        old_doc.wf(),
        new_doc.wf(),
    ensures
        r.wf(),
        r.document_id@ == new_doc.id@,
        forall|p: Seq<char>| #[trigger] r.field_at(p) == changed_slot(*old_doc, *new_doc, p),
        r.version.clocks@ == new_doc.version.clocks@,
{
    let mut changed: Vec<(FieldPath, Field)> = Vec::new();
    let mut t: usize = 0;
    while t < new_doc.fields.len()
        invariant
            old_doc.wf(),
            new_doc.wf(),
            t <= new_doc.fields@.len(),
            unique_keys(changed@),
            forall|j: int|
                0 <= j < changed@.len() ==> exists|k: int|
                    0 <= k < t && #[trigger] changed@[j].0@ == new_doc.fields@[k].0@,
            forall|p: Seq<char>|
                fields_at(changed@, p) == #[trigger] changed_slot_in(
                    *old_doc,
                    new_doc.fields@.take(t as int),
                    p,
                ),
        decreases new_doc.fields@.len() - t,
    {
        let ghost key = new_doc.fields@[t as int].0@;
        let ghost prior_changed = changed@;
        let entry_field = &new_doc.fields[t].1;
        let carried = match crate::assoc::assoc_index_of(&old_doc.fields, new_doc.fields[t].0.as_str()) {
            Some(i) => {
                proof {
                    crate::assoc::lemma_assoc_get_first(old_doc.fields@, i as int, key);
                }
                !(old_doc.fields[i].1 == *entry_field)
            },
            None => {
                proof {
                    lemma_assoc_get_absent(old_doc.fields@, key);
                }
                true
            },
        };
        if carried {
            let pair = (new_doc.fields[t].0.clone(), entry_field.deep_copy());
            proof {
                assert(!assoc_has(prior_changed, key)) by {
                    if assoc_has(prior_changed, key) {
                        let j = choose|j: int|
                            0 <= j < prior_changed.len() && prior_changed[j].0@ == key;
                        let k = choose|k: int|
                            0 <= k < t && prior_changed[j].0@ == new_doc.fields@[k].0@;
                        assert(new_doc.fields@[k].0@ == new_doc.fields@[t as int].0@);
                    }
                }
            }
            changed.push(pair);
            proof {
                let last = changed@[prior_changed.len() as int];
                assert(changed@ =~= prior_changed.push(last));
                assert(last.0@ == key);
                assert(unique_keys(changed@)) by {
                    assert(forall|j: int|
                        0 <= j < prior_changed.len() ==> #[trigger] prior_changed[j].0@ != key);
                }
            }
        }
        proof {
            let taken = new_doc.fields@.take(t as int);
            let taken1 = new_doc.fields@.take(t + 1);
            assert(taken1 =~= taken.push(new_doc.fields@[t as int]));
            assert(!assoc_has(taken, key)) by {
                if assoc_has(taken, key) {
                    let j = choose|j: int| 0 <= j < taken.len() && taken[j].0@ == key;
                    assert(new_doc.fields@[j].0@ == new_doc.fields@[t as int].0@);
                }
            }
            lemma_assoc_get_absent(taken, key);
            assert forall|p: Seq<char>| fields_at(changed@, p) == #[trigger] changed_slot_in(
                *old_doc,
                taken1,
                p,
            ) by {
                assert(fields_at(prior_changed, p) == changed_slot_in(*old_doc, taken, p));
                lemma_assoc_get_snoc(taken, new_doc.fields@[t as int], p);
                if p == key {
                    assert(fields_at(taken1, p) == Some(new_doc.fields@[t as int].1@));
                    if carried {
                        lemma_assoc_get_snoc(
                            prior_changed,
                            changed@[prior_changed.len() as int],
                            p,
                        );
                        lemma_assoc_get_absent(prior_changed, p);
                        assert(fields_at(changed@, p) == Some(new_doc.fields@[t as int].1@));
                        assert(!(old_doc.field_at(p) == Some(new_doc.fields@[t as int].1@)));
                    } else {
                        assert(old_doc.field_at(p) == Some(new_doc.fields@[t as int].1@));
                        assert(fields_at(taken, p) is None);
                        assert(fields_at(changed@, p) is None);
                    }
                } else {
                    if !assoc_has(taken, p) {
                        lemma_assoc_get_absent(taken, p);
                    }
                    if carried {
                        lemma_assoc_get_snoc(
                            prior_changed,
                            changed@[prior_changed.len() as int],
                            p,
                        );
                        if !assoc_has(prior_changed, p) {
                            lemma_assoc_get_absent(prior_changed, p);
                        }
                    }
                }
            }
        }
        t = t + 1;
    }
    proof {
        assert(new_doc.fields@.take(new_doc.fields@.len() as int) =~= new_doc.fields@);
        assert forall|p: Seq<char>| fields_at(changed@, p) == #[trigger] changed_slot_in(
            *old_doc,
            new_doc.fields@,
            p,
        ) by {
            assert(fields_at(changed@, p) == changed_slot_in(
                *old_doc,
                new_doc.fields@.take(new_doc.fields@.len() as int),
                p,
            ));
        }
    }
    Delta {
        document_id: new_doc.id.clone(),
        fields: changed,
        version: new_doc.version.clone(),
    }
}

/// Apply a delta to a document: every carried field is merged under the LWW
/// rule, then the version clocks merge pointwise.
pub fn apply_delta(doc: &mut Document, delta: &Delta)
    requires
        old(doc).wf(),
        delta.wf(),
        old(doc).id@ == delta.document_id@,
    ensures
        final(doc).wf(),
        final(doc).id == old(doc).id,
        forall|p: Seq<char>|
            final(doc).field_at(p) == lww_field_merge(
                #[trigger] old(doc).field_at(p),
                delta.field_at(p),
            ),
        forall|c: Seq<char>| #[trigger]
            final(doc).version.entry(c) == max_u64(
                old(doc).version.entry(c),
                delta.version.entry(c),
            ),
{
    let ghost prior = *doc;
    let mut t: usize = 0;
    while t < delta.fields.len()
        invariant
            doc.wf(),
            delta.wf(),
            t <= delta.fields@.len(),
            doc.id == prior.id,
            doc.version == prior.version,
            forall|p: Seq<char>|
                doc.field_at(p) == lww_field_merge(
                    #[trigger] prior.field_at(p),
                    fields_at(delta.fields@.take(t as int), p),
                ),
        decreases delta.fields@.len() - t,
    {
        let ghost before = *doc;
        let path = delta.fields[t].0.clone();
        let field = delta.fields[t].1.clone();
        let ghost key = delta.fields@[t as int].0@;
        proof {
            let taken = delta.fields@.take(t as int);
            assert(!assoc_has(taken, key)) by {
                if assoc_has(taken, key) {
                    let j = choose|j: int| 0 <= j < taken.len() && taken[j].0@ == key;
                    assert(delta.fields@[j].0@ == delta.fields@[t as int].0@);
                }
            }
            lemma_assoc_get_absent(taken, key);
            assert(before.field_at(key) == prior.field_at(key));
        }
        doc.merge_field(path, field);
        proof {
            let taken = delta.fields@.take(t as int);
            let taken1 = delta.fields@.take(t + 1);
            assert(taken1 =~= taken.push(delta.fields@[t as int]));
            assert forall|p: Seq<char>| doc.field_at(p) == lww_field_merge(
                #[trigger] prior.field_at(p),
                fields_at(taken1, p),
            ) by {
                lemma_assoc_get_snoc(taken, delta.fields@[t as int], p);
                if p != key {
                    if !assoc_has(taken, p) {
                        lemma_assoc_get_absent(taken, p);
                    }
                    assert(doc.field_at(p) == before.field_at(p));
                }
            }
        }
        t = t + 1;
    }
    proof {
        assert(delta.fields@.take(delta.fields@.len() as int) =~= delta.fields@);
        assert forall|p: Seq<char>| doc.field_at(p) == lww_field_merge(
            #[trigger] prior.field_at(p),
            delta.field_at(p),
        ) by {
            assert(fields_at(delta.fields@.take(delta.fields@.len() as int), p) == delta.field_at(
                p,
            ));
        }
    }
    doc.version.merge(&delta.version);
}

/// Merge two deltas for the same document into one: the union of their
/// changes, resolving shared paths by the LWW rule, with the version clocks
/// merged pointwise. Used for batching outbound changes.
pub fn merge_deltas(delta1: &Delta, delta2: &Delta) -> (r: Delta)
    requires
        delta1.wf(),
        delta2.wf(),
        delta1.document_id@ == delta2.document_id@,
    ensures
        r.wf(),
        r.document_id@ == delta1.document_id@,
        forall|p: Seq<char>|
            r.field_at(p) == lww_field_merge(
                #[trigger] delta1.field_at(p),
                delta2.field_at(p),
            ),
        forall|c: Seq<char>| #[trigger]
            r.version.entry(c) == max_u64(delta1.version.entry(c), delta2.version.entry(c)),
{
    let mut merged_fields: Vec<(FieldPath, Field)> = Vec::new();
    let mut i: usize = 0;
    while i < delta1.fields.len()
        invariant
            i <= delta1.fields@.len(),
            merged_fields@.len() == i,
            forall|j: int| 0 <= j < i ==> merged_fields@[j] == #[trigger] delta1.fields@[j],
        decreases delta1.fields@.len() - i,
    {
        let pair = (delta1.fields[i].0.clone(), delta1.fields[i].1.deep_copy());
        merged_fields.push(pair);
        i = i + 1;
    }
    proof {
        assert(merged_fields@ =~= delta1.fields@);
    }
    let ghost base = merged_fields@;
    let mut t: usize = 0;
    while t < delta2.fields.len()
        invariant
            delta2.wf(),
            t <= delta2.fields@.len(),
            unique_keys(merged_fields@),
            forall|p: Seq<char>|
                fields_at(merged_fields@, p) == lww_field_merge(
                    #[trigger] fields_at(base, p),
                    fields_at(delta2.fields@.take(t as int), p),
                ),
        decreases delta2.fields@.len() - t,
    {
        let ghost before = merged_fields@;
        let path = delta2.fields[t].0.clone();
        let field = delta2.fields[t].1.clone();
        let ghost key = delta2.fields@[t as int].0@;
        proof {
            let taken = delta2.fields@.take(t as int);
            assert(!assoc_has(taken, key)) by {
                if assoc_has(taken, key) {
                    let j = choose|j: int| 0 <= j < taken.len() && taken[j].0@ == key;
                    assert(delta2.fields@[j].0@ == delta2.fields@[t as int].0@);
                }
            }
            lemma_assoc_get_absent(taken, key);
            assert(fields_at(before, key) == fields_at(base, key));
        }
        lww_install(&mut merged_fields, path, field);
        proof {
            let taken = delta2.fields@.take(t as int);
            let taken1 = delta2.fields@.take(t + 1);
            assert(taken1 =~= taken.push(delta2.fields@[t as int]));
            assert forall|p: Seq<char>| fields_at(merged_fields@, p) == lww_field_merge(
                #[trigger] fields_at(base, p),
                fields_at(taken1, p),
            ) by {
                lemma_assoc_get_snoc(taken, delta2.fields@[t as int], p);
                if p != key {
                    if !assoc_has(taken, p) {
                        lemma_assoc_get_absent(taken, p);
                    }
                    assert(fields_at(merged_fields@, p) == fields_at(before, p));
                }
            }
        }
        t = t + 1;
    }
    proof {
        assert(delta2.fields@.take(delta2.fields@.len() as int) =~= delta2.fields@);
        assert forall|p: Seq<char>| fields_at(merged_fields@, p) == lww_field_merge(
            #[trigger] fields_at(base, p),
            fields_at(delta2.fields@, p),
        ) by {
            assert(fields_at(delta2.fields@.take(delta2.fields@.len() as int), p) == fields_at(
                delta2.fields@,
                p,
            ));
        }
    }
    let mut merged_version = delta1.version.clone();
    merged_version.merge(&delta2.version);
    Delta {
        document_id: delta1.document_id.clone(),
        fields: merged_fields,
        version: merged_version,
    }
}

/// The change that path `p` carries after coalescing `b` into `a`.
pub open spec fn merged_delta_field(a: Delta, b: Delta, p: Seq<char>) -> Option<FieldView> {
    lww_field_merge(a.field_at(p), b.field_at(p))
}

/// Coalescing a delta with itself leaves every change unchanged
/// (idempotence).
pub proof fn lemma_delta_merge_idempotent(a: Delta)
    ensures
        forall|p: Seq<char>| #[trigger] merged_delta_field(a, a, p) == a.field_at(p),
{
    assert forall|p: Seq<char>| #[trigger] merged_delta_field(a, a, p) == a.field_at(p) by {
        match a.field_at(p) {
            Some(l) => {
                crate::sync::lemma_ts_view_order_total(l.timestamp, l.timestamp);
            },
            None => {},
        }
    }
}

/// Coalescing is commutative over the observable changes, provided equal
/// timestamps only ever stamp equal changes — which holds between genuine
/// replicas, where a timestamp is issued once and never reused.
pub proof fn lemma_delta_merge_commutative(a: Delta, b: Delta)
    requires
        forall|p: Seq<char>|
            match (#[trigger] a.field_at(p), b.field_at(p)) {
                (Some(x), Some(y)) => x.timestamp == y.timestamp ==> x == y,
                _ => true,
            },
    ensures
        forall|p: Seq<char>| #[trigger] merged_delta_field(a, b, p) == merged_delta_field(b, a, p),
{
    assert forall|p: Seq<char>| #[trigger] merged_delta_field(a, b, p) == merged_delta_field(
        b,
        a,
        p,
    ) by {
        match (a.field_at(p), b.field_at(p)) {
            (Some(x), Some(y)) => {
                crate::sync::lemma_ts_view_order_total(x.timestamp, y.timestamp);
            },
            _ => {},
        }
    }
}

/// Coalescing is associative over the observable changes.
pub proof fn lemma_delta_merge_associative(a: Delta, b: Delta, c: Delta)
    ensures
        forall|p: Seq<char>|
            lww_field_merge(#[trigger] merged_delta_field(a, b, p), c.field_at(p))
                == lww_field_merge(a.field_at(p), merged_delta_field(b, c, p)),
{
    assert forall|p: Seq<char>| lww_field_merge(
        #[trigger] merged_delta_field(a, b, p),
        c.field_at(p),
    ) == lww_field_merge(a.field_at(p), merged_delta_field(b, c, p)) by {
        match (a.field_at(p), b.field_at(p), c.field_at(p)) {
            (Some(x), Some(y), Some(z)) => {
                crate::sync::lemma_ts_view_order_total(x.timestamp, y.timestamp);
                crate::sync::lemma_ts_view_order_total(y.timestamp, z.timestamp);
                crate::sync::lemma_ts_view_order_total(x.timestamp, z.timestamp);
                if ts_view_lt(x.timestamp, y.timestamp) && ts_view_lt(y.timestamp, z.timestamp) {
                    crate::sync::lemma_ts_view_order_transitive(
                        x.timestamp,
                        y.timestamp,
                        z.timestamp,
                    );
                }
                if ts_view_lt(z.timestamp, y.timestamp) && ts_view_lt(y.timestamp, x.timestamp) {
                    crate::sync::lemma_ts_view_order_transitive(
                        z.timestamp,
                        y.timestamp,
                        x.timestamp,
                    );
                }
            },
            _ => {},
        }
    }
}

/// Delta round trip: applying to `old_doc` the delta computed from `old_doc`
/// to `new_doc` reproduces `new_doc`'s fields exactly, provided `new_doc`
/// still carries every path of `old_doc` and each carried field is either
/// unchanged or stamped strictly newer than the old one.
pub proof fn lemma_delta_round_trip(old_doc: Document, new_doc: Document)
    requires
        forall|p: Seq<char>|
            (#[trigger] old_doc.field_at(p)) matches Some(l) ==> (new_doc.field_at(
                p,
            ) matches Some(n) && (n == l || ts_view_lt(l.timestamp, n.timestamp))),
    ensures
        forall|p: Seq<char>|
            lww_field_merge(#[trigger] old_doc.field_at(p), changed_slot(old_doc, new_doc, p))
                == new_doc.field_at(p),
{
}

} // verus!
