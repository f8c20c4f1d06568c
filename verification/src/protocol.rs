//! Wire-level deltas: explicit change lists between document states.
//!
//! A [`DocumentDelta`] records, change by change, how one document state
//! becomes another: modified and fresh fields, and explicit tombstone
//! changes for fields that were dropped. It carries the vector clocks from
//! before and after, so receivers can order it against their own state.

use crate::document::lww_field_merge;
use crate::document::Document;
use crate::document::Field;
use crate::document::FieldView;
use crate::error::SyncError;
use crate::sync::vector_clock::max_u64;
use crate::sync::VectorClock;
use crate::value::Value;
use vstd::prelude::*;

verus! {

/// Mathematical shape of a [`FieldChange`].
pub struct FieldChangeView {
    /// Path to the field.
    pub path: Seq<char>,
    /// The carried field.
    pub field: FieldView,
    /// Whether this change is a deletion.
    pub is_delete: bool,
}

/// A change to a single field.
#[derive(Debug)]
pub struct FieldChange {
    /// Path to the field.
    pub path: String,
    /// Field with its metadata.
    pub field: Field,
    /// Whether this is a deletion.
    pub is_delete: bool,
}

impl View for FieldChange {
    type V = FieldChangeView;

    open spec fn view(&self) -> FieldChangeView {
        FieldChangeView { path: self.path@, field: self.field@, is_delete: self.is_delete }
    }
}

impl Clone for FieldChange {
    /// Cloning preserves the observable change.
    fn clone(&self) -> (res: FieldChange)
        ensures
            res@ == self@,
    {
        FieldChange {
            path: self.path.clone(),
            field: self.field.clone(),
            is_delete: self.is_delete,
        }
    }
}

/// The changes of a list, observably.
pub open spec fn change_views(changes: Seq<FieldChange>) -> Seq<FieldChangeView> {
    changes.map_values(|c: FieldChange| c@)
}

/// The changes that carry `to`'s fresh or modified fields, walking `entries`
/// (the fields of `to`) in order.
pub open spec fn modified_changes(from: Document, entries: Seq<(String, Field)>) -> Seq<
    FieldChangeView,
>
    decreases entries.len(),
{
    if entries.len() == 0 {
        Seq::empty()
    } else {
        let prefix = modified_changes(from, entries.drop_last());
        let e = entries.last();
        if from.field_at(e.0@) == Some(e.1@) {
            prefix
        } else {
            prefix.push(FieldChangeView { path: e.0@, field: e.1@, is_delete: false })
        }
    }
}

/// The tombstone changes for fields of `entries` (the fields of `from`) that
/// `to` no longer carries; each keeps the dropped field's timestamp.
pub open spec fn removed_changes(to: Document, entries: Seq<(String, Field)>) -> Seq<
    FieldChangeView,
>
    decreases entries.len(),
{
    if entries.len() == 0 {
        Seq::empty()
    } else {
        let prefix = removed_changes(to, entries.drop_last());
        let e = entries.last();
        if to.field_at(e.0@) is Some {
            prefix
        } else {
            prefix.push(FieldChangeView { path: e.0@, field: e.1@, is_delete: true })
        }
    }
}

/// The field a change installs when it wins: the carried value and
/// timestamp, tombstoned when the change is a deletion.
pub open spec fn applied_change(c: FieldChangeView) -> FieldView {
    FieldView { value: c.field.value, timestamp: c.field.timestamp, tombstone: c.is_delete }
}

/// What path `p` holds after folding `changes` over `base`, left to right,
/// merging each change under the LWW rule.
pub open spec fn apply_changes_at(
    base: Document,
    changes: Seq<FieldChangeView>,
    p: Seq<char>,
) -> Option<FieldView>
    decreases changes.len(),
{
    if changes.len() == 0 {
        base.field_at(p)
    } else {
        let prev = apply_changes_at(base, changes.drop_last(), p);
        let c = changes.last();
        if c.path == p {
            lww_field_merge(prev, Some(applied_change(c)))
        } else {
            prev
        }
    }
}

/// A delta between two document states, as an explicit change list.
#[derive(Debug)]
pub struct DocumentDelta {
    /// Document this delta applies to.
    pub document_id: String,
    /// Field changes, in order.
    pub changes: Vec<FieldChange>,
    /// Version before the changes.
    pub base_version: VectorClock,
    /// Version after the changes.
    pub new_version: VectorClock,
}

impl DocumentDelta {
    /// Well-formed: both version clocks are sound.
    pub open spec fn wf(self) -> bool {
        self.base_version.wf() && self.new_version.wf()
    }

    /// Create a new, empty delta.
    pub fn new(document_id: String) -> (r: DocumentDelta)
        ensures
            r.wf(),
            r.document_id == document_id,
            r.changes@.len() == 0,
            forall|c: Seq<char>| #[trigger] r.base_version.entry(c) == 0,
            forall|c: Seq<char>| #[trigger] r.new_version.entry(c) == 0,
    {
        DocumentDelta {
            document_id,
            changes: Vec::new(),
            base_version: VectorClock::new(),
            new_version: VectorClock::new(),
        }
    }

    /// Compute the delta between two documents: the minimal change list that
    /// turns `from`'s fields into `to`'s. Fails with an invalid-operation
    /// error exactly when the ids name different documents.
    pub fn compute(from: &Document, to: &Document) -> (r: Result<DocumentDelta, SyncError>)
        requires
            from.wf(),
            to.wf(),
        ensures
            r is Ok <==> from.id@ == to.id@,
            r matches Err(e) ==> e is InvalidOperation,
            r matches Ok(d) ==> d.wf() && d.document_id@ == from.id@
                && d.base_version.clocks@ == from.version.clocks@ && d.new_version.clocks@
                == to.version.clocks@ && change_views(d.changes@) == modified_changes(
                *from,
                to.fields@,
            ) + removed_changes(*to, from.fields@),
    {
        if !(from.id == to.id) {
            return Err(
                SyncError::InvalidOperation(
                    "cannot compute a delta between different documents".to_owned(),
                ),
            );
        }
        let mut changes: Vec<FieldChange> = Vec::new();
        let mut t: usize = 0;
        while t < to.fields.len()
            invariant
                from.wf(),
                to.wf(),
                t <= to.fields@.len(),
                change_views(changes@) == modified_changes(*from, to.fields@.take(t as int)),
            decreases to.fields@.len() - t,
        {
            let ghost prior = changes@;
            let ghost key = to.fields@[t as int].0@;
            let carried = match crate::assoc::assoc_index_of(&from.fields, to.fields[t].0.as_str()) {
                Some(i) => {
                    proof {
                        crate::assoc::lemma_assoc_get_first(from.fields@, i as int, key);
                    }
                    !(from.fields[i].1 == to.fields[t].1)
                },
                None => {
                    proof {
                        crate::assoc::lemma_assoc_get_absent(from.fields@, key);
                    }
                    true
                },
            };
            if carried {
                let change = FieldChange {
                    path: to.fields[t].0.clone(),
                    field: to.fields[t].1.deep_copy(),
                    is_delete: false,
                };
                changes.push(change);
            }
            proof {
                let taken = to.fields@.take(t as int);
                let taken1 = to.fields@.take(t + 1);
                assert(taken1.drop_last() =~= taken);
                assert(taken1.last() == to.fields@[t as int]);
                if carried {
                    assert(change_views(changes@) =~= change_views(prior).push(
                        changes@[prior.len() as int]@,
                    ));
                } else {
                    assert(change_views(changes@) =~= change_views(prior));
                }
            }
            t = t + 1;
        }
        let ghost modified = change_views(changes@);
        proof {
            assert(to.fields@.take(to.fields@.len() as int) =~= to.fields@);
        }
        let mut t2: usize = 0;
        while t2 < from.fields.len()
            invariant
                from.wf(),
                to.wf(),
                t2 <= from.fields@.len(),
                modified == modified_changes(*from, to.fields@),
                change_views(changes@) == modified + removed_changes(
                    *to,
                    from.fields@.take(t2 as int),
                ),
            decreases from.fields@.len() - t2,
        {
            let ghost prior = changes@;
            let ghost key = from.fields@[t2 as int].0@;
            let dropped = match crate::assoc::assoc_index_of(&to.fields, from.fields[t2].0.as_str()) {
                Some(i) => {
                    proof {
                        crate::assoc::lemma_assoc_get_first(to.fields@, i as int, key);
                    }
                    false
                },
                None => {
                    proof {
                        crate::assoc::lemma_assoc_get_absent(to.fields@, key);
                    }
                    true
                },
            };
            if dropped {
                let change = FieldChange {
                    path: from.fields[t2].0.clone(),
                    field: from.fields[t2].1.deep_copy(),
                    is_delete: true,
                };
                changes.push(change);
            }
            proof {
                let taken = from.fields@.take(t2 as int);
                let taken1 = from.fields@.take(t2 + 1);
                assert(taken1.drop_last() =~= taken);
                assert(taken1.last() == from.fields@[t2 as int]);
                if dropped {
                    assert(change_views(changes@) =~= change_views(prior).push(
                        changes@[prior.len() as int]@,
                    ));
                } else {
                    assert(change_views(changes@) =~= change_views(prior));
                }
            }
            t2 = t2 + 1;
        }
        proof {
            assert(from.fields@.take(from.fields@.len() as int) =~= from.fields@);
        }
        Ok(
            DocumentDelta {
                document_id: from.id.clone(),
                changes,
                base_version: from.version.clone(),
                new_version: to.version.clone(),
            },
        )
    }

    /// Apply this delta to a document: each change is merged under the LWW
    /// rule in order — a deletion installs a tombstone when it wins — and the
    /// document's version clock absorbs the delta's new version. Fails with
    /// an invalid-operation error exactly when the ids name different
    /// documents, leaving the document untouched.
    pub fn apply_to(&self, document: &mut Document, _client_id: &str) -> (r: Result<
        (),
        SyncError,
    >)
        requires
            old(document).wf(),
            self.wf(),
        ensures
            r is Ok <==> old(document).id@ == self.document_id@,
            final(document).wf(),
            final(document).id == old(document).id,
            r matches Err(e) ==> e is InvalidOperation && *final(document) == *old(document),
            r is Ok ==> forall|p: Seq<char>|
                #[trigger] final(document).field_at(p) == apply_changes_at(
                    *old(document),
                    change_views(self.changes@),
                    p,
                ),
            r is Ok ==> forall|c: Seq<char>| #[trigger]
                final(document).version.entry(c) == max_u64(
                    old(document).version.entry(c),
                    self.new_version.entry(c),
                ),
    {
        if !(document.id == self.document_id) {
            return Err(
                SyncError::InvalidOperation(
                    "cannot apply a delta to a different document".to_owned(),
                ),
            );
        }
        let ghost prior = *document;
        let mut t: usize = 0;
        while t < self.changes.len()
            invariant
                document.wf(),
                t <= self.changes@.len(),
                document.id == prior.id,
                document.version == prior.version,
                forall|p: Seq<char>|
                    document.field_at(p) == #[trigger] apply_changes_at(
                        prior,
                        change_views(self.changes@.take(t as int)),
                        p,
                    ),
            decreases self.changes@.len() - t,
        {
            let ghost before = *document;
            let change = &self.changes[t];
            let path = change.path.clone();
            let field = Field {
                value: change.field.value.clone(),
                timestamp: change.field.timestamp.clone(),
                tombstone: change.is_delete,
            };
            let ghost key = self.changes@[t as int]@.path;
            document.merge_field(path, field);
            proof {
                let vt = change_views(self.changes@.take(t as int));
                let vt1 = change_views(self.changes@.take(t + 1));
                assert(vt1.drop_last() =~= vt);
                assert(vt1.last() == self.changes@[t as int]@);
                assert forall|p: Seq<char>| document.field_at(p) == #[trigger] apply_changes_at(
                    prior,
                    vt1,
                    p,
                ) by {
                    assert(before.field_at(p) == apply_changes_at(prior, vt, p));
                    if p != key {
                        assert(document.field_at(p) == before.field_at(p));
                    }
                }
            }
            t = t + 1;
        }
        proof {
            assert(self.changes@.take(self.changes@.len() as int) =~= self.changes@);
            assert forall|p: Seq<char>| #[trigger] document.field_at(p) == apply_changes_at(
                prior,
                change_views(self.changes@),
                p,
            ) by {
                assert(document.field_at(p) == apply_changes_at(
                    prior,
                    change_views(self.changes@.take(self.changes@.len() as int)),
                    p,
                ));
            }
        }
        document.version.merge(&self.new_version);
        Ok(())
    }
}

} // verus!
