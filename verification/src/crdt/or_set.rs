//! OR-Set: an observed-remove set.
//!
//! Every add is stamped with a tag that is never reissued; a remove retires
//! exactly the tags it has observed. An element is present while at least
//! one of its tags is still live, so an add that a remove never saw survives
//! the remove — add wins. Merging is the union of tags and of retired tags.
//!
//! Tag uniqueness needs no clock agreement between replicas: a per-replica
//! counter that only grows makes `(replica, counter)` fresh forever, and a
//! monotonic local counter therefore stands in for wall-clock microseconds
//! in the tag's timestamp slot.

use crate::assoc::assoc_get;
use crate::assoc::assoc_has;
use crate::assoc::assoc_index_of;
use crate::assoc::lemma_assoc_get_absent;
use crate::assoc::lemma_assoc_get_first;
use crate::assoc::lemma_assoc_get_snoc;
use crate::assoc::lemma_assoc_get_update;
use crate::assoc::unique_keys;
use crate::ClientID;
use vstd::prelude::*;

verus! {

/// Mathematical shape of a [`UniqueTag`].
pub struct TagView {
    /// The replica that issued the tag.
    pub replica: Seq<char>,
    /// The issuing replica's counter reading when the tag was made.
    pub timestamp: u64,
    /// The issuing replica's add counter; distinguishes adds even at one
    /// instant.
    pub sequence: u64,
}

/// Unique identifier for one add operation: globally fresh because the
/// issuing replica never reuses a sequence number.
#[derive(Debug)]
struct UniqueTag {
    /// The replica that issued the tag.
    replica_id: ClientID,
    /// Counter reading when the tag was made.
    timestamp: u64,
    /// Per-replica add counter.
    sequence: u64,
}

impl View for UniqueTag {
    type V = TagView;

    closed spec fn view(&self) -> TagView {
        TagView { replica: self.replica_id@, timestamp: self.timestamp, sequence: self.sequence }
    }
}

impl UniqueTag {
    /// An exact copy, equal as a value.
    fn duplicate(&self) -> (r: UniqueTag)
        ensures
            r == *self,
    {
        UniqueTag {
            replica_id: self.replica_id.clone(),
            timestamp: self.timestamp,
            sequence: self.sequence,
        }
    }

    /// Whether two tags are the same tag.
    fn same_as(&self, other: &UniqueTag) -> (r: bool)
        ensures
            r == (self@ == other@),
    {
        self.timestamp == other.timestamp && self.sequence == other.sequence && matches!(
            crate::order::cmp_str(self.replica_id.as_str(), other.replica_id.as_str()),
            core::cmp::Ordering::Equal
        )
    }
}

/// The tags of a list, observably.
pub closed spec fn tag_views(tags: Seq<UniqueTag>) -> Seq<TagView> {
    tags.map_values(|t: UniqueTag| t@)
}

/// Membership distributes over concatenation.
proof fn lemma_contains_concat<A>(a: Seq<A>, b: Seq<A>, x: A)
    ensures
        (a + b).contains(x) <==> a.contains(x) || b.contains(x),
{
    if (a + b).contains(x) {
        let i = choose|i: int| 0 <= i < (a + b).len() && (a + b)[i] == x;
        if i < a.len() {
            assert(a[i] == x);
        } else {
            assert(b[i - a.len()] == x);
        }
    }
    if a.contains(x) {
        let i = choose|i: int| 0 <= i < a.len() && a[i] == x;
        assert((a + b)[i] == x);
    }
    if b.contains(x) {
        let i = choose|i: int| 0 <= i < b.len() && b[i] == x;
        assert((a + b)[a.len() + i] == x);
    }
}

/// Every tag in the list that names `replica` has a sequence number at most
/// `bound`.
pub open spec fn tags_below(tags: Seq<UniqueTag>, replica: Seq<char>, bound: u64) -> bool {
    forall|j: int|
        0 <= j < tags.len() && (#[trigger] tags[j])@.replica == replica ==> tags[j]@.sequence
            <= bound
}

/// The tag at `j` of `cur` was already present in the given prior state:
/// either at the same place of its retired list, or somewhere among its
/// element tag lists.
spec fn tag_sourced(
    removed0: Seq<UniqueTag>,
    elements0: Seq<(String, Vec<UniqueTag>)>,
    cur: Seq<UniqueTag>,
    j: int,
) -> bool {
    (j < removed0.len() && cur[j] == removed0[j]) || (exists|ei: int, ej: int|
        0 <= ei < elements0.len() && 0 <= ej < elements0[ei].1@.len() && cur[j]
            == elements0[ei].1@[ej])
}

/// Observed-remove set of strings.
#[derive(Debug)]
pub struct ORSet {
    /// This replica's identifier.
    replica_id: ClientID,
    /// Per element, the tags of the adds that were observed for it.
    elements: Vec<(String, Vec<UniqueTag>)>,
    /// Tags whose adds have been removed.
    removed_tags: Vec<UniqueTag>,
    /// This replica's add counter; never reset.
    sequence: u64,
}

impl ORSet {
    /// The tags recorded for `e`, observably.
    pub closed spec fn element_tags(self, e: Seq<char>) -> Seq<TagView> {
        match assoc_get(self.elements@, e) {
            Some(ts) => tag_views(ts@),
            None => Seq::empty(),
        }
    }

    /// The retired tags, observably.
    pub closed spec fn removed(self) -> Seq<TagView> {
        tag_views(self.removed_tags@)
    }

    /// An element is present while some tag of its is not retired.
    pub open spec fn spec_contains(self, e: Seq<char>) -> bool {
        exists|t: TagView|
            #[trigger] self.element_tags(e).contains(t) && !self.removed().contains(t)
    }

    /// Every tag of this replica that the set has seen, anywhere, stays at or
    /// below the add counter — so the next counter value is fresh.
    pub closed spec fn own_tags_bounded(self) -> bool {
        tags_below(self.removed_tags@, self.replica_id@, self.sequence) && (forall|i: int|
            0 <= i < self.elements@.len() ==> tags_below(
                (#[trigger] self.elements@[i]).1@,
                self.replica_id@,
                self.sequence,
            ))
    }

    /// Well-formed: element keys are unique and no tag of this replica is
    /// ahead of the add counter.
    pub closed spec fn wf(self) -> bool {
        unique_keys(self.elements@) && self.own_tags_bounded()
    }

    /// This replica's add counter reading.
    pub closed spec fn counter(self) -> u64 {
        self.sequence
    }

    /// This replica's identifier.
    pub closed spec fn replica(self) -> Seq<char> {
        self.replica_id@
    }

    /// Every tag anywhere in the set that names `replica` has a sequence
    /// number at most `bound`.
    pub closed spec fn tags_bounded_by(self, replica: Seq<char>, bound: u64) -> bool {
        tags_below(self.removed_tags@, replica, bound) && (forall|i: int|
            0 <= i < self.elements@.len() ==> tags_below(
                (#[trigger] self.elements@[i]).1@,
                replica,
                bound,
            ))
    }

    /// The present elements, in storage order.
    pub closed spec fn present(self) -> Seq<Seq<char>> {
        self.present_elements(self.elements@)
    }

    /// Create a new, empty set for the given replica.
    pub fn new(replica_id: ClientID) -> (r: ORSet)
        ensures
            r.wf(),
            r.replica() == replica_id@,
            r.counter() == 0,
            forall|e: Seq<char>| #[trigger] r.element_tags(e) == Seq::<TagView>::empty(),
            r.removed() == Seq::<TagView>::empty(),
            forall|e: Seq<char>| !#[trigger] r.spec_contains(e),
            forall|rep: Seq<char>, b: u64| #[trigger] r.tags_bounded_by(rep, b),
    {
        let r = ORSet {
            replica_id,
            elements: Vec::new(),
            removed_tags: Vec::new(),
            sequence: 0,
        };
        proof {
            assert(tag_views(r.removed_tags@) =~= Seq::<TagView>::empty());
            assert forall|e: Seq<char>| #[trigger] r.element_tags(e)
                == Seq::<TagView>::empty() by {
                assert(r.elements@.len() == 0);
            }
        }
        r
    }

    /// Add an element, stamping the add with a fresh tag. The element is
    /// present afterwards: the fresh tag cannot already be retired.
    pub fn add(&mut self, element: String)
        requires
            old(self).wf(),
            old(self).counter() < u64::MAX,
        ensures
            final(self).wf(),
            final(self).replica() == old(self).replica(),
            final(self).counter() == old(self).counter() + 1,
            forall|t: TagView| #[trigger]
                final(self).element_tags(element@).contains(t) <==> (old(self).element_tags(
                    element@,
                ).contains(t) || t == (TagView {
                    replica: old(self).replica(),
                    timestamp: (old(self).counter() + 1) as u64,
                    sequence: (old(self).counter() + 1) as u64,
                })),
            forall|e: Seq<char>|
                e != element@ ==> #[trigger] final(self).element_tags(e) == old(
                    self,
                ).element_tags(e),
            final(self).removed() == old(self).removed(),
            !final(self).removed().contains(
                TagView {
                    replica: old(self).replica(),
                    timestamp: (old(self).counter() + 1) as u64,
                    sequence: (old(self).counter() + 1) as u64,
                },
            ),
            final(self).spec_contains(element@),
            forall|rep: Seq<char>, b: u64|
                old(self).tags_bounded_by(rep, b) && (rep != old(self).replica() || b > old(
                    self,
                ).counter()) ==> #[trigger] final(self).tags_bounded_by(rep, b),
    {
        self.sequence = self.sequence + 1;
        let tag = UniqueTag {
            replica_id: self.replica_id.clone(),
            timestamp: self.sequence,
            sequence: self.sequence,
        };
        let ghost fresh = tag@;
        let ghost old_entries = self.elements@;
        let ghost key = element@;
        match assoc_index_of(&self.elements, element.as_str()) {
            Some(i) => {
                proof {
                    lemma_assoc_get_first(self.elements@, i as int, key);
                }
                let mut tags = self.elements.remove(i).1;
                tags.push(tag);
                self.elements.insert(i, (element, tags));
                proof {
                    let entries = self.elements@;
                    assert(entries.len() == old_entries.len());
                    assert(forall|j: int|
                        0 <= j < entries.len() && j != i ==> entries[j] == old_entries[j]);
                    assert(entries[i as int].0@ == key);
                    assert(entries[i as int].1@ =~= old_entries[i as int].1@.push(
                        entries[i as int].1@[old_entries[i as int].1@.len() as int],
                    ));
                    lemma_assoc_get_update(old_entries, entries, i as int, key);
                    assert(tag_views(entries[i as int].1@) =~= tag_views(
                        old_entries[i as int].1@,
                    ).push(fresh));
                    assert forall|t: TagView| #[trigger] self.element_tags(key).contains(t) <==> (
                    old(self).element_tags(key).contains(t) || t == fresh) by {
                        lemma_contains_concat(
                            tag_views(old_entries[i as int].1@),
                            seq![fresh],
                            t,
                        );
                        assert(tag_views(old_entries[i as int].1@).push(fresh) =~= tag_views(
                            old_entries[i as int].1@,
                        ) + seq![fresh]);
                        if t == fresh {
                            assert((tag_views(old_entries[i as int].1@) + seq![fresh])[(tag_views(
                                old_entries[i as int].1@,
                            ) + seq![fresh]).len() - 1] == fresh);
                        }
                    }
                }
            },
            None => {
                proof {
                    lemma_assoc_get_absent(self.elements@, key);
                }
                let mut tags: Vec<UniqueTag> = Vec::new();
                tags.push(tag);
                self.elements.push((element, tags));
                proof {
                    let entries = self.elements@;
                    let last = entries[old_entries.len() as int];
                    assert(entries =~= old_entries.push(last));
                    assert(last.0@ == key);
                    assert(!assoc_has(old_entries, key));
                    lemma_assoc_get_snoc(old_entries, last, key);
                    assert(unique_keys(entries));
                    assert(tag_views(last.1@) =~= seq![fresh]);
                    assert forall|e: Seq<char>| e != key implies #[trigger] assoc_get(entries, e)
                        == assoc_get(old_entries, e) by {
                        lemma_assoc_get_snoc(old_entries, last, e);
                        if !assoc_has(old_entries, e) {
                            lemma_assoc_get_absent(old_entries, e);
                        }
                    }
                    assert forall|t: TagView| #[trigger] self.element_tags(key).contains(t) <==> (
                    old(self).element_tags(key).contains(t) || t == fresh) by {
                        if t == fresh {
                            assert(tag_views(last.1@)[0] == fresh);
                        }
                    }
                }
            },
        }
        proof {
            let fresh_t = TagView {
                replica: old(self).replica(),
                timestamp: (old(self).counter() + 1) as u64,
                sequence: (old(self).counter() + 1) as u64,
            };
            assert(!self.removed().contains(fresh_t)) by {
                if self.removed().contains(fresh_t) {
                    let j = choose|j: int|
                        0 <= j < tag_views(self.removed_tags@).len() && tag_views(
                            self.removed_tags@,
                        )[j] == fresh_t;
                    assert(self.removed_tags@[j]@ == fresh_t);
                }
            }
            assert(final(self).spec_contains(key)) by {
                assert(self.element_tags(key).contains(fresh_t));
            }
            assert forall|rep: Seq<char>, b: u64|
                old(self).tags_bounded_by(rep, b) && (rep != old(self).replica() || b > old(
                    self,
                ).counter()) implies #[trigger] self.tags_bounded_by(rep, b) by {
                assert(tags_below(self.removed_tags@, rep, b)) by {
                    assert(self.removed_tags@ == old(self).removed_tags@);
                }
                assert forall|idx: int| 0 <= idx < self.elements@.len() implies tags_below(
                    (#[trigger] self.elements@[idx]).1@,
                    rep,
                    b,
                ) by {
                    let cur = self.elements@[idx].1@;
                    assert forall|j: int|
                        0 <= j < cur.len() && (#[trigger] cur[j])@.replica == rep implies cur[
                    j]@.sequence <= b by {
                        if idx < old_entries.len() && self.elements@[idx] == old_entries[idx] {
                        } else {
                            // The entry that changed carries its old tags
                            // followed by the fresh one.
                            if j < cur.len() - 1 {
                                assert(cur[j] == old_entries[idx].1@[j]);
                            } else {
                                assert(cur[j]@ == fresh_t);
                            }
                        }
                    }
                }
            }
        }
    }

    /// Remove an element: every tag currently recorded for it is retired.
    /// A no-op when the element is absent. The element reads as absent
    /// afterwards — until a later add stamps a fresh tag.
    pub fn remove(&mut self, element: &String)
        requires
            old(self).wf(),
        ensures
            final(self).wf(),
            final(self).replica() == old(self).replica(),
            final(self).counter() == old(self).counter(),
            forall|e: Seq<char>| #[trigger]
                final(self).element_tags(e) == old(self).element_tags(e),
            forall|t: TagView| #[trigger]
                final(self).removed().contains(t) <==> (old(self).removed().contains(t) || old(
                    self,
                ).element_tags(element@).contains(t)),
            !final(self).spec_contains(element@),
            forall|rep: Seq<char>, b: u64|
                old(self).tags_bounded_by(rep, b) ==> #[trigger] final(self).tags_bounded_by(
                    rep,
                    b,
                ),
    {
        let ghost key = element@;
        match assoc_index_of(&self.elements, element.as_str()) {
            Some(i) => {
                proof {
                    lemma_assoc_get_first(self.elements@, i as int, key);
                }
                let ghost old_removed = self.removed_tags@;
                let tag_count = self.elements[i].1.len();
                let mut k: usize = 0;
                while k < tag_count
                    invariant
                        i < self.elements@.len(),
                        tag_count == self.elements@[i as int].1@.len(),
                        k <= tag_count,
                        self.removed_tags@ =~= old_removed + self.elements@[i as int].1@.take(
                            k as int,
                        ),
                        self.elements@ == old(self).elements@,
                        self.replica_id@ == old(self).replica_id@,
                        self.sequence == old(self).sequence,
                    decreases tag_count - k,
                {
                    let stored = self.elements[i].1[k].duplicate();
                    self.removed_tags.push(stored);
                    proof {
                        assert(self.removed_tags@ =~= old_removed + self.elements@[i as int].1@.take(
                            k + 1,
                        )) by {
                            assert(self.elements@[i as int].1@.take(k + 1)
                                =~= self.elements@[i as int].1@.take(k as int).push(
                                self.elements@[i as int].1@[k as int],
                            ));
                            assert(self.removed_tags@.last() == self.elements@[i as int].1@[
                                k as int]);
                        }
                    }
                    k = k + 1;
                }
                proof {
                    assert(self.elements@[i as int].1@.take(tag_count as int)
                        =~= self.elements@[i as int].1@);
                    assert(self.removed_tags@ =~= old_removed + self.elements@[i as int].1@);
                    assert(tag_views(self.removed_tags@) =~= tag_views(old_removed) + tag_views(
                        self.elements@[i as int].1@,
                    ));
                    assert forall|t: TagView| #[trigger] self.removed().contains(t) <==> (old(
                        self,
                    ).removed().contains(t) || old(self).element_tags(key).contains(t)) by {
                        lemma_contains_concat(
                            tag_views(old_removed),
                            tag_views(self.elements@[i as int].1@),
                            t,
                        );
                    }
                    assert(!self.spec_contains(key)) by {
                        if self.spec_contains(key) {
                            let t = choose|t: TagView|
                                #[trigger] self.element_tags(key).contains(t)
                                    && !self.removed().contains(t);
                            assert(tag_views(self.elements@[i as int].1@).contains(t));
                            lemma_contains_concat(
                                tag_views(old_removed),
                                tag_views(self.elements@[i as int].1@),
                                t,
                            );
                        }
                    }
                    assert forall|rep: Seq<char>, b: u64|
                        old(self).tags_bounded_by(rep, b) implies #[trigger] self.tags_bounded_by(
                        rep,
                        b,
                    ) by {
                        assert forall|j: int|
                            0 <= j < self.removed_tags@.len() && (#[trigger] self.removed_tags@[
                            j])@.replica == rep implies self.removed_tags@[j]@.sequence <= b by {
                            if j < old_removed.len() {
                                assert(self.removed_tags@[j] == old_removed[j]);
                            } else {
                                assert(self.removed_tags@[j] == self.elements@[i as int].1@[j
                                    - old_removed.len()]);
                            }
                        }
                    }
                    assert(tags_below(self.removed_tags@, self.replica_id@, self.sequence)) by {
                        assert(self.tags_bounded_by(self.replica_id@, self.sequence)) by {
                            assert(old(self).tags_bounded_by(self.replica_id@, self.sequence));
                        }
                    }
                }
            },
            None => {
                proof {
                    lemma_assoc_get_absent(self.elements@, key);
                    assert(self.element_tags(key) =~= Seq::<TagView>::empty());
                    assert forall|t: TagView| #[trigger] self.removed().contains(t) <==> (old(
                        self,
                    ).removed().contains(t) || old(self).element_tags(key).contains(t)) by {}
                }
            },
        }
    }

    /// Whether an element is present: some tag of its is not retired.
    pub fn contains(&self, element: &String) -> (r: bool)
        ensures
            r == self.spec_contains(element@),
    {
        let ghost key = element@;
        match assoc_index_of(&self.elements, element.as_str()) {
            Some(i) => {
                proof {
                    lemma_assoc_get_first(self.elements@, i as int, key);
                }
                let live = self.has_live_tag_at(i);
                proof {
                    assert(self.element_tags(key) == tag_views(self.elements@[i as int].1@));
                    if live {
                        let t = choose|t: TagView|
                            #[trigger] tag_views(self.elements@[i as int].1@).contains(t)
                                && !self.removed().contains(t);
                        assert(self.element_tags(key).contains(t));
                    } else {
                        if self.spec_contains(key) {
                            let t = choose|t: TagView|
                                #[trigger] self.element_tags(key).contains(t)
                                    && !self.removed().contains(t);
                            assert(tag_views(self.elements@[i as int].1@).contains(t));
                        }
                    }
                }
                live
            },
            None => {
                proof {
                    lemma_assoc_get_absent(self.elements@, key);
                    assert(self.element_tags(key) =~= Seq::<TagView>::empty());
                    if self.spec_contains(key) {
                        let t = choose|t: TagView|
                            #[trigger] self.element_tags(key).contains(t) && !self.removed(
                            ).contains(t);
                        assert(Seq::<TagView>::empty().contains(t));
                    }
                }
                false
            },
        }
    }

    /// Whether the entry at `i` holds a tag that is not retired.
    fn has_live_tag_at(&self, i: usize) -> (r: bool)
        requires
            i < self.elements@.len(),
        ensures
            r == exists|t: TagView|
                #[trigger] tag_views(self.elements@[i as int].1@).contains(t)
                    && !self.removed().contains(t),
    {
        let tags = &self.elements[i].1;
        let mut k: usize = 0;
        while k < tags.len()
            invariant
                i < self.elements@.len(),
                tags == &self.elements@[i as int].1,
                k <= tags@.len(),
                forall|j: int|
                    0 <= j < k ==> #[trigger] self.removed().contains(tags@[j]@),
            decreases tags@.len() - k,
        {
            if !self.is_removed(&tags[k]) {
                proof {
                    assert(tag_views(tags@)[k as int] == tags@[k as int]@);
                    assert(tag_views(tags@).contains(tags@[k as int]@));
                }
                return true;
            }
            k = k + 1;
        }
        proof {
            assert forall|t: TagView| !(#[trigger] tag_views(
                self.elements@[i as int].1@,
            ).contains(t) && !self.removed().contains(t)) by {
                if tag_views(tags@).contains(t) {
                    let j = choose|j: int|
                        0 <= j < tag_views(tags@).len() && tag_views(tags@)[j] == t;
                    assert(tags@[j]@ == t);
                    assert(self.removed().contains(tags@[j]@));
                }
            }
        }
        false
    }

    /// Whether a tag has been retired.
    fn is_removed(&self, tag: &UniqueTag) -> (r: bool)
        ensures
            r == self.removed().contains(tag@),
    {
        let mut k: usize = 0;
        while k < self.removed_tags.len()
            invariant
                k <= self.removed_tags@.len(),
                forall|j: int| 0 <= j < k ==> self.removed_tags@[j]@ != tag@,
            decreases self.removed_tags@.len() - k,
        {
            if self.removed_tags[k].same_as(tag) {
                proof {
                    assert(tag_views(self.removed_tags@)[k as int] == tag@);
                }
                return true;
            }
            k = k + 1;
        }
        proof {
            if self.removed().contains(tag@) {
                let j = choose|j: int|
                    0 <= j < tag_views(self.removed_tags@).len() && tag_views(
                        self.removed_tags@,
                    )[j] == tag@;
                assert(self.removed_tags@[j]@ == tag@);
            }
        }
        false
    }

    /// The present elements, in storage order.
    closed spec fn present_elements(self, entries: Seq<(String, Vec<UniqueTag>)>) -> Seq<
        Seq<char>,
    >
        decreases entries.len(),
    {
        if entries.len() == 0 {
            Seq::empty()
        } else {
            let prefix = self.present_elements(entries.drop_last());
            let e = entries.last();
            if exists|t: TagView|
                #[trigger] tag_views(e.1@).contains(t) && !self.removed().contains(t) {
                prefix.push(e.0@)
            } else {
                prefix
            }
        }
    }

    /// All present elements, in storage order.
    pub fn iter(&self) -> (r: Vec<String>)
        ensures
            r@.map_values(|s: String| s@) == self.present(),
    {
        let mut out: Vec<String> = Vec::new();
        let mut i: usize = 0;
        while i < self.elements.len()
            invariant
                i <= self.elements@.len(),
                out@.map_values(|s: String| s@) == self.present_elements(
                    self.elements@.take(i as int),
                ),
            decreases self.elements@.len() - i,
        {
            let ghost prior = out@;
            if self.has_live_tag_at(i) {
                out.push(self.elements[i].0.clone());
            }
            proof {
                let taken = self.elements@.take(i as int);
                let taken1 = self.elements@.take(i + 1);
                assert(taken1.drop_last() =~= taken);
                assert(taken1.last() == self.elements@[i as int]);
                if out@.len() > prior.len() {
                    assert(out@.map_values(|s: String| s@) =~= prior.map_values(|s: String| s@)
                        .push(self.elements@[i as int].0@));
                } else {
                    assert(out@.map_values(|s: String| s@) =~= prior.map_values(
                        |s: String| s@,
                    ));
                }
            }
            i = i + 1;
        }
        proof {
            assert(self.elements@.take(self.elements@.len() as int) =~= self.elements@);
        }
        out
    }

    /// The number of present elements.
    pub fn len(&self) -> (r: usize)
        ensures
            r == self.present().len(),
    {
        let items = self.iter();
        proof {
            assert(items@.map_values(|s: String| s@).len() == items@.len());
        }
        items.len()
    }

    /// Whether no element is present.
    pub fn is_empty(&self) -> (r: bool)
        ensures
            r <==> self.present().len() == 0,
    {
        self.len() == 0
    }

    /// The largest sequence number carried by any of the other set's tags
    /// that name `replica`; zero when there are none.
    fn peak_for(other: &ORSet, replica: &ClientID) -> (r: u64)
        ensures
            other.tags_bounded_by(replica@, r),
    {
        let mut peak: u64 = 0;
        let mut k: usize = 0;
        while k < other.removed_tags.len()
            invariant
                k <= other.removed_tags@.len(),
                forall|j: int|
                    0 <= j < k && (#[trigger] other.removed_tags@[j])@.replica == replica@
                        ==> other.removed_tags@[j]@.sequence <= peak,
            decreases other.removed_tags@.len() - k,
        {
            let tag = &other.removed_tags[k];
            if matches!(
                crate::order::cmp_str(tag.replica_id.as_str(), replica.as_str()),
                core::cmp::Ordering::Equal
            ) {
                if tag.sequence > peak {
                    peak = tag.sequence;
                }
            }
            k = k + 1;
        }
        let mut i: usize = 0;
        while i < other.elements.len()
            invariant
                i <= other.elements@.len(),
                tags_below(other.removed_tags@, replica@, peak),
                forall|ii: int|
                    0 <= ii < i ==> tags_below(
                        (#[trigger] other.elements@[ii]).1@,
                        replica@,
                        peak,
                    ),
            decreases other.elements@.len() - i,
        {
            let list_len = other.elements[i].1.len();
            let mut k2: usize = 0;
            while k2 < list_len
                invariant
                    i < other.elements@.len(),
                    list_len == other.elements@[i as int].1@.len(),
                    k2 <= list_len,
                    tags_below(other.removed_tags@, replica@, peak),
                    forall|ii: int|
                        0 <= ii < i ==> tags_below(
                            (#[trigger] other.elements@[ii]).1@,
                            replica@,
                            peak,
                        ),
                    forall|j: int|
                        0 <= j < k2 && (#[trigger] other.elements@[i as int].1@[j])@.replica
                            == replica@ ==> other.elements@[i as int].1@[j]@.sequence <= peak,
                decreases list_len - k2,
            {
                let tag = &other.elements[i].1[k2];
                if matches!(
                    crate::order::cmp_str(tag.replica_id.as_str(), replica.as_str()),
                    core::cmp::Ordering::Equal
                ) {
                    if tag.sequence > peak {
                        let ghost old_peak = peak;
                        peak = tag.sequence;
                        proof {
                            assert forall|j: int|
                                0 <= j < other.removed_tags@.len() && (
                                #[trigger] other.removed_tags@[j])@.replica == replica@ implies
                            other.removed_tags@[j]@.sequence <= peak by {}
                            assert forall|ii: int| 0 <= ii < i implies tags_below(
                                (#[trigger] other.elements@[ii]).1@,
                                replica@,
                                peak,
                            ) by {
                                assert(tags_below(other.elements@[ii].1@, replica@, old_peak));
                            }
                        }
                    }
                }
                k2 = k2 + 1;
            }
            i = i + 1;
        }
        peak
    }

    /// Merge another set's state into this one: the union of the observed
    /// tags, per element, and the union of the retired tags. The merge is
    /// total: the local add counter first advances past any of this
    /// replica's own tags the other side carries, so future adds stay
    /// fresh; the replica id stays as it is.
    pub fn merge(&mut self, other: &ORSet)
        requires
            old(self).wf(),
            other.wf(),
        ensures
            final(self).wf(),
            final(self).replica() == old(self).replica(),
            final(self).counter() >= old(self).counter(),
            forall|e: Seq<char>|
                #[trigger] final(self).element_tags(e) == old(self).element_tags(e)
                    + other.element_tags(e),
            final(self).removed() == old(self).removed() + other.removed(),
    {
        let peak = Self::peak_for(other, &self.replica_id);
        if peak > self.sequence {
            self.sequence = peak;
        }
        let ghost seq0 = self.sequence;
        proof {
            // The other side's tags naming this replica now sit at or below
            // the counter, and so do this replica's own prior tags.
            assert(other.tags_bounded_by(self.replica_id@, seq0)) by {
                assert(other.tags_bounded_by(self.replica_id@, peak));
                assert forall|j: int|
                    0 <= j < other.removed_tags@.len() && (#[trigger] other.removed_tags@[j])@.replica
                        == self.replica_id@ implies other.removed_tags@[j]@.sequence <= seq0 by {}
                assert forall|ii: int| 0 <= ii < other.elements@.len() implies tags_below(
                    (#[trigger] other.elements@[ii]).1@,
                    self.replica_id@,
                    seq0,
                ) by {
                    assert(tags_below(other.elements@[ii].1@, self.replica_id@, peak));
                }
            }
            assert(self.own_tags_bounded()) by {
                assert forall|j: int|
                    0 <= j < self.removed_tags@.len() && (#[trigger] self.removed_tags@[j])@.replica
                        == self.replica_id@ implies self.removed_tags@[j]@.sequence <= seq0 by {
                    assert(tags_below(old(self).removed_tags@, old(self).replica_id@, old(self).sequence));
                }
                assert forall|ii: int| 0 <= ii < self.elements@.len() implies tags_below(
                    (#[trigger] self.elements@[ii]).1@,
                    self.replica_id@,
                    seq0,
                ) by {
                    assert(tags_below(old(self).elements@[ii].1@, old(self).replica_id@, old(self).sequence));
                }
            }
            assert(self.wf());
        }
        let ghost prior = *self;
        proof {
            assert forall|e: Seq<char>| #[trigger] self.element_tags(e) == prior.element_tags(e)
                + element_tags_in(other.elements@.take(0), e) by {
                assert(element_tags_in(other.elements@.take(0), e) =~= Seq::<TagView>::empty());
                assert(prior.element_tags(e) + Seq::<TagView>::empty() =~= prior.element_tags(e));
            }
        }
        let mut u: usize = 0;
        while u < other.elements.len()
            invariant
                prior.wf(),
                other.wf(),
                u <= other.elements@.len(),
                self.replica_id@ == prior.replica_id@,
                self.sequence == prior.sequence,
                self.removed_tags@ == prior.removed_tags@,
                self.wf(),
                forall|i: int|
                    0 <= i < other.elements@.len() ==> tags_below(
                        (#[trigger] other.elements@[i]).1@,
                        prior.replica_id@,
                        prior.sequence,
                    ),
                forall|e: Seq<char>|
                    #[trigger] self.element_tags(e) == prior.element_tags(e) + element_tags_in(
                        other.elements@.take(u as int),
                        e,
                    ),
            decreases other.elements@.len() - u,
        {
            let ghost before = *self;
            let ghost key = other.elements@[u as int].0@;
            let ghost incoming = tag_views(other.elements@[u as int].1@);
            proof {
                let taken = other.elements@.take(u as int);
                assert(!assoc_has(taken, key)) by {
                    if assoc_has(taken, key) {
                        let j = choose|j: int| 0 <= j < taken.len() && taken[j].0@ == key;
                        assert(other.elements@[j].0@ == other.elements@[u as int].0@);
                    }
                }
                lemma_assoc_get_absent(taken, key);
                assert(element_tags_in(taken, key) =~= Seq::<TagView>::empty());
            }
            self.absorb_element(&other.elements[u].0, &other.elements[u].1);
            proof {
                let taken = other.elements@.take(u as int);
                let taken1 = other.elements@.take(u + 1);
                assert(taken1 =~= taken.push(other.elements@[u as int]));
                assert forall|e: Seq<char>| #[trigger] self.element_tags(e) == prior.element_tags(
                    e,
                ) + element_tags_in(taken1, e) by {
                    lemma_assoc_get_snoc(taken, other.elements@[u as int], e);
                    assert(before.element_tags(e) == prior.element_tags(e) + element_tags_in(
                        taken,
                        e,
                    ));
                    if e == key {
                        assert(element_tags_in(taken1, e) == incoming);
                        assert(element_tags_in(taken, e) =~= Seq::<TagView>::empty());
                        assert(before.element_tags(e) =~= prior.element_tags(e));
                        assert(self.element_tags(e) == before.element_tags(e) + incoming);
                        assert(prior.element_tags(e) + element_tags_in(taken1, e)
                            =~= before.element_tags(e) + incoming);
                    } else {
                        if !assoc_has(taken, e) {
                            lemma_assoc_get_absent(taken, e);
                        }
                        assert(self.element_tags(e) == before.element_tags(e));
                        assert(element_tags_in(taken1, e) == element_tags_in(taken, e));
                    }
                }
            }
            u = u + 1;
        }
        let ghost elements_after = self.elements@;
        proof {
            assert(other.elements@.take(other.elements@.len() as int) =~= other.elements@);
            assert forall|e: Seq<char>| #[trigger] element_tags_in(elements_after, e)
                == prior.element_tags(e) + other.element_tags(e) by {
                assert(element_tags_in(elements_after, e) == self.element_tags(e));
                assert(element_tags_in(
                    other.elements@.take(other.elements@.len() as int),
                    e,
                ) == other.element_tags(e));
            }
        }
        // Retire everything the other side has retired.
        let ghost removed_before = self.removed_tags@;
        let mut k: usize = 0;
        while k < other.removed_tags.len()
            invariant
                k <= other.removed_tags@.len(),
                self.removed_tags@ =~= removed_before + other.removed_tags@.take(k as int),
                self.elements@ == elements_after,
                self.replica_id@ == prior.replica_id@,
                self.sequence == prior.sequence,
            decreases other.removed_tags@.len() - k,
        {
            let stored = other.removed_tags[k].duplicate();
            self.removed_tags.push(stored);
            proof {
                assert(self.removed_tags@ =~= removed_before + other.removed_tags@.take(k + 1))
                    by {
                    assert(other.removed_tags@.take(k + 1) =~= other.removed_tags@.take(
                        k as int,
                    ).push(other.removed_tags@[k as int]));
                    assert(self.removed_tags@.last() == other.removed_tags@[k as int]);
                }
            }
            k = k + 1;
        }
        proof {
            assert(other.removed_tags@.take(other.removed_tags@.len() as int)
                =~= other.removed_tags@);
            assert(self.removed_tags@ =~= removed_before + other.removed_tags@);
            assert(tag_views(self.removed_tags@) =~= tag_views(removed_before) + tag_views(
                other.removed_tags@,
            ));
            assert(removed_before == prior.removed_tags@);
            assert(self.removed() == prior.removed() + other.removed());
            assert forall|t: TagView| #[trigger] self.removed().contains(t) <==> (prior.removed()
                .contains(t) || other.removed().contains(t)) by {
                lemma_contains_concat(
                    tag_views(removed_before),
                    tag_views(other.removed_tags@),
                    t,
                );
            }
            assert forall|e: Seq<char>| #[trigger] self.element_tags(e) == prior.element_tags(e)
                + other.element_tags(e) by {
                assert(self.element_tags(e) == element_tags_in(elements_after, e));
            }
            assert forall|e: Seq<char>, t: TagView| #[trigger] self.element_tags(e).contains(t)
                <==> (prior.element_tags(e).contains(t) || #[trigger] other.element_tags(
                e,
            ).contains(t)) by {
                assert(self.element_tags(e) == prior.element_tags(e) + other.element_tags(e));
                lemma_contains_concat(prior.element_tags(e), other.element_tags(e), t);
            }
            // The union of two bounded tag lists stays bounded.
            assert(tags_below(self.removed_tags@, self.replica_id@, self.sequence)) by {
                assert forall|j: int|
                    0 <= j < self.removed_tags@.len() && (#[trigger] self.removed_tags@[j])@.replica
                        == self.replica_id@ implies self.removed_tags@[j]@.sequence
                    <= self.sequence by {
                    if j < removed_before.len() {
                        assert(self.removed_tags@[j] == removed_before[j]);
                    } else {
                        assert(self.removed_tags@[j] == other.removed_tags@[j
                            - removed_before.len()]);
                    }
                }
            }
        }
    }

    /// Record every tag of `tags` for `element`, keeping tags already there.
    fn absorb_element(&mut self, element: &String, tags: &Vec<UniqueTag>)
        requires
            old(self).wf(),
            tags_below(tags@, old(self).replica_id@, old(self).sequence),
        ensures
            final(self).wf(),
            final(self).replica_id@ == old(self).replica_id@,
            final(self).sequence == old(self).sequence,
            final(self).removed_tags@ == old(self).removed_tags@,
            final(self).element_tags(element@) == old(self).element_tags(element@) + tag_views(
                tags@,
            ),
            forall|e: Seq<char>|
                e != element@ ==> #[trigger] final(self).element_tags(e) == old(
                    self,
                ).element_tags(e),
    {
        let ghost key = element@;
        let ghost old_entries = self.elements@;
        match assoc_index_of(&self.elements, element.as_str()) {
            Some(i) => {
                proof {
                    lemma_assoc_get_first(self.elements@, i as int, key);
                }
                let mut local_tags = self.elements.remove(i).1;
                let ghost local_before = local_tags@;
                let mut k: usize = 0;
                while k < tags.len()
                    invariant
                        k <= tags@.len(),
                        local_tags@ =~= local_before + tags@.take(k as int),
                    decreases tags@.len() - k,
                {
                    let stored = tags[k].duplicate();
                    local_tags.push(stored);
                    proof {
                        assert(local_tags@ =~= local_before + tags@.take(k + 1)) by {
                            assert(tags@.take(k + 1) =~= tags@.take(k as int).push(
                                tags@[k as int],
                            ));
                            assert(local_tags@.last() == tags@[k as int]);
                        }
                    }
                    k = k + 1;
                }
                let element_copy = self.element_key_copy(element);
                self.elements.insert(i, (element_copy, local_tags));
                proof {
                    assert(tags@.take(tags@.len() as int) =~= tags@);
                    let entries = self.elements@;
                    assert(entries.len() == old_entries.len());
                    assert(forall|j: int|
                        0 <= j < entries.len() && j != i ==> entries[j] == old_entries[j]);
                    assert(entries[i as int].0@ == key);
                    lemma_assoc_get_update(old_entries, entries, i as int, key);
                    assert(tag_views(entries[i as int].1@) =~= tag_views(local_before)
                        + tag_views(tags@));
                    assert(self.element_tags(key) == old(self).element_tags(key) + tag_views(
                        tags@,
                    ));
                }
            },
            None => {
                proof {
                    lemma_assoc_get_absent(self.elements@, key);
                    assert(old(self).element_tags(key) =~= Seq::<TagView>::empty());
                }
                let mut local_tags: Vec<UniqueTag> = Vec::new();
                let mut k: usize = 0;
                while k < tags.len()
                    invariant
                        k <= tags@.len(),
                        local_tags@ =~= tags@.take(k as int),
                    decreases tags@.len() - k,
                {
                    let stored = tags[k].duplicate();
                    local_tags.push(stored);
                    proof {
                        assert(local_tags@ =~= tags@.take(k + 1)) by {
                            assert(tags@.take(k + 1) =~= tags@.take(k as int).push(
                                tags@[k as int],
                            ));
                            assert(local_tags@.last() == tags@[k as int]);
                        }
                    }
                    k = k + 1;
                }
                let element_copy = self.element_key_copy(element);
                self.elements.push((element_copy, local_tags));
                proof {
                    assert(tags@.take(tags@.len() as int) =~= tags@);
                    let entries = self.elements@;
                    let last = entries[old_entries.len() as int];
                    assert(entries =~= old_entries.push(last));
                    assert(last.0@ == key);
                    assert(!assoc_has(old_entries, key));
                    lemma_assoc_get_snoc(old_entries, last, key);
                    assert(unique_keys(entries));
                    assert(tag_views(last.1@) =~= tag_views(tags@));
                    assert forall|e: Seq<char>| e != key implies #[trigger] assoc_get(entries, e)
                        == assoc_get(old_entries, e) by {
                        lemma_assoc_get_snoc(old_entries, last, e);
                        if !assoc_has(old_entries, e) {
                            lemma_assoc_get_absent(old_entries, e);
                        }
                    }
                    assert(Seq::<TagView>::empty() + tag_views(tags@) =~= tag_views(tags@));
                    assert(self.element_tags(key) == old(self).element_tags(key) + tag_views(
                        tags@,
                    ));
                }
            },
        }
    }

    /// A copy of an element key.
    fn element_key_copy(&self, element: &String) -> (r: String)
        ensures
            r@ == element@,
            r == *element,
    {
        element.clone()
    }

    /// Retire every tag of every element: nothing is present afterwards.
    pub fn clear(&mut self)
        requires
            old(self).wf(),
        ensures
            final(self).wf(),
            final(self).replica() == old(self).replica(),
            final(self).counter() == old(self).counter(),
            forall|e: Seq<char>| #[trigger]
                final(self).element_tags(e) == old(self).element_tags(e),
            forall|e: Seq<char>| !#[trigger] final(self).spec_contains(e),
            forall|rep: Seq<char>, b: u64|
                old(self).tags_bounded_by(rep, b) ==> #[trigger] final(self).tags_bounded_by(
                    rep,
                    b,
                ),
    {
        let count = self.elements.len();
        let mut i: usize = 0;
        while i < count
            invariant
                old(self).wf(),
                count == self.elements@.len(),
                i <= count,
                self.elements@ == old(self).elements@,
                self.replica_id@ == old(self).replica_id@,
                self.sequence == old(self).sequence,
                self.wf(),
                forall|t: TagView| #[trigger]
                    old(self).removed().contains(t) ==> self.removed().contains(t),
                forall|j: int, t: TagView|
                    0 <= j < i && #[trigger] tag_views(self.elements@[j].1@).contains(t)
                        ==> self.removed().contains(t),
                forall|j: int|
                    0 <= j < self.removed_tags@.len() ==> #[trigger] tag_sourced(
                        old(self).removed_tags@,
                        old(self).elements@,
                        self.removed_tags@,
                        j,
                    ),
            decreases count - i,
        {
            let ghost removed_before = self.removed_tags@;
            let tag_count = self.elements[i].1.len();
            let mut k: usize = 0;
            while k < tag_count
                invariant
                    old(self).wf(),
                    i < self.elements@.len(),
                    tag_count == self.elements@[i as int].1@.len(),
                    k <= tag_count,
                    self.removed_tags@ =~= removed_before + self.elements@[i as int].1@.take(
                        k as int,
                    ),
                    self.elements@ == old(self).elements@,
                    self.replica_id@ == old(self).replica_id@,
                    self.sequence == old(self).sequence,
                decreases tag_count - k,
            {
                let stored = self.elements[i].1[k].duplicate();
                self.removed_tags.push(stored);
                proof {
                    assert(self.removed_tags@ =~= removed_before + self.elements@[i as int].1@.take(
                        k + 1,
                    )) by {
                        assert(self.elements@[i as int].1@.take(k + 1)
                            =~= self.elements@[i as int].1@.take(k as int).push(
                            self.elements@[i as int].1@[k as int],
                        ));
                        assert(self.removed_tags@.last() == self.elements@[i as int].1@[k as int]);
                    }
                }
                k = k + 1;
            }
            proof {
                assert(self.elements@[i as int].1@.take(tag_count as int)
                    =~= self.elements@[i as int].1@);
                assert(tag_views(self.removed_tags@) =~= tag_views(removed_before) + tag_views(
                    self.elements@[i as int].1@,
                ));
                assert forall|t: TagView| #[trigger] tag_views(removed_before).contains(t)
                    ==> self.removed().contains(t) by {
                    lemma_contains_concat(
                        tag_views(removed_before),
                        tag_views(self.elements@[i as int].1@),
                        t,
                    );
                }
                assert forall|t: TagView| tag_views(self.elements@[i as int].1@).contains(t)
                    implies self.removed().contains(t) by {
                    lemma_contains_concat(
                        tag_views(removed_before),
                        tag_views(self.elements@[i as int].1@),
                        t,
                    );
                }
                assert(tags_below(self.removed_tags@, self.replica_id@, self.sequence)) by {
                    assert forall|j: int|
                        0 <= j < self.removed_tags@.len() && (#[trigger] self.removed_tags@[j])@.replica
                            == self.replica_id@ implies self.removed_tags@[j]@.sequence
                        <= self.sequence by {
                        if j < removed_before.len() {
                            assert(self.removed_tags@[j] == removed_before[j]);
                        } else {
                            assert(self.removed_tags@[j] == self.elements@[i as int].1@[j
                                - removed_before.len()]);
                        }
                    }
                }
                assert forall|j: int| 0 <= j < self.removed_tags@.len() implies #[trigger]
                tag_sourced(
                    old(self).removed_tags@,
                    old(self).elements@,
                    self.removed_tags@,
                    j,
                ) by {
                    if j < removed_before.len() {
                        assert(self.removed_tags@[j] == removed_before[j]);
                        assert(tag_sourced(
                            old(self).removed_tags@,
                            old(self).elements@,
                            removed_before,
                            j,
                        ));
                        if !(j < old(self).removed_tags@.len() && removed_before[j] == old(
                            self,
                        ).removed_tags@[j]) {
                            let (ei, ej) = choose|ei: int, ej: int|
                                0 <= ei < old(self).elements@.len() && 0 <= ej < old(
                                    self,
                                ).elements@[ei].1@.len() && removed_before[j] == old(
                                    self,
                                ).elements@[ei].1@[ej];
                            assert(self.removed_tags@[j] == old(self).elements@[ei].1@[ej]);
                        }
                    } else {
                        assert(self.removed_tags@[j] == old(self).elements@[i as int].1@[j
                            - removed_before.len()]);
                    }
                }
            }
            i = i + 1;
        }
        proof {
            assert forall|rep: Seq<char>, b: u64|
                old(self).tags_bounded_by(rep, b) implies #[trigger] self.tags_bounded_by(
                rep,
                b,
            ) by {
                assert forall|j: int|
                    0 <= j < self.removed_tags@.len() && (#[trigger] self.removed_tags@[j])@.replica
                        == rep implies self.removed_tags@[j]@.sequence <= b by {
                    assert(tag_sourced(
                        old(self).removed_tags@,
                        old(self).elements@,
                        self.removed_tags@,
                        j,
                    ));
                    if !(j < old(self).removed_tags@.len() && self.removed_tags@[j] == old(
                        self,
                    ).removed_tags@[j]) {
                        let (ei, ej) = choose|ei: int, ej: int|
                            0 <= ei < old(self).elements@.len() && 0 <= ej < old(
                                self,
                            ).elements@[ei].1@.len() && self.removed_tags@[j] == old(
                                self,
                            ).elements@[ei].1@[ej];
                        assert(tags_below(old(self).elements@[ei].1@, rep, b));
                    }
                }
            }
            assert forall|e: Seq<char>| !#[trigger] self.spec_contains(e) by {
                if self.spec_contains(e) {
                    let t = choose|t: TagView|
                        #[trigger] self.element_tags(e).contains(t) && !self.removed().contains(
                            t,
                        );
                    if assoc_has(self.elements@, e) {
                        let j = choose|j: int|
                            0 <= j < self.elements@.len() && self.elements@[j].0@ == e;
                        assert(forall|m: int| 0 <= m < j ==> self.elements@[m].0@ != e);
                        lemma_assoc_get_first(self.elements@, j, e);
                        assert(tag_views(self.elements@[j].1@).contains(t));
                    } else {
                        lemma_assoc_get_absent(self.elements@, e);
                        assert(self.element_tags(e) =~= Seq::<TagView>::empty());
                    }
                }
            }
        }
    }
}

/// The tags recorded for `e` in an explicit entry list.
spec fn element_tags_in(entries: Seq<(String, Vec<UniqueTag>)>, e: Seq<char>) -> Seq<
    TagView,
> {
    match assoc_get(entries, e) {
        Some(ts) => tag_views(ts@),
        None => Seq::empty(),
    }
}

/// A tag that sits beyond a set's recorded bound for its replica occurs
/// nowhere in that set: not among the retired tags and not among any
/// element's tags. This is how a receiver knows a freshly issued foreign
/// tag cannot already be retired on its side.
pub proof fn lemma_bounded_excludes(s: ORSet, rep: Seq<char>, b: u64, t: TagView)
    requires
        s.tags_bounded_by(rep, b),
        t.replica == rep,
        t.sequence > b,
    ensures
        !s.removed().contains(t),
        forall|e: Seq<char>| !#[trigger] s.element_tags(e).contains(t),
{
    assert(!s.removed().contains(t)) by {
        if s.removed().contains(t) {
            let j = choose|j: int|
                0 <= j < tag_views(s.removed_tags@).len() && tag_views(s.removed_tags@)[j] == t;
            assert(s.removed_tags@[j]@ == t);
        }
    }
    assert forall|e: Seq<char>| !#[trigger] s.element_tags(e).contains(t) by {
        if s.element_tags(e).contains(t) {
            crate::assoc::lemma_assoc_get_is_entry(s.elements@, e);
            let i = choose|i: int|
                0 <= i < s.elements@.len() && (#[trigger] s.elements@[i]).0@ == e && assoc_get(
                    s.elements@,
                    e,
                ) == Some(s.elements@[i].1);
            let j = choose|j: int|
                0 <= j < tag_views(s.elements@[i].1@).len() && tag_views(s.elements@[i].1@)[j]
                    == t;
            assert(s.elements@[i].1@[j]@ == t);
            assert(tags_below(s.elements@[i].1@, rep, b));
        }
    }
}

/// An element is present when some observed tag is retired by neither
/// side: what one replica reads for it after merging, stated over the same
/// tag lists that `merge` promises.
pub open spec fn or_live(tags: Seq<TagView>, removed: Seq<TagView>) -> bool {
    exists|t: TagView| #[trigger] tags.contains(t) && !removed.contains(t)
}

/// Merging a set with itself changes nothing observable: presence over the
/// doubled tag lists is presence over the originals (idempotence).
pub proof fn lemma_or_set_merge_idempotent(tags: Seq<TagView>, removed: Seq<TagView>)
    ensures
        or_live(tags + tags, removed + removed) == or_live(tags, removed),
{
    if or_live(tags + tags, removed + removed) {
        let t = choose|t: TagView|
            #[trigger] (tags + tags).contains(t) && !(removed + removed).contains(t);
        lemma_contains_concat(tags, tags, t);
        lemma_contains_concat(removed, removed, t);
        assert(tags.contains(t) && !removed.contains(t));
    }
    if or_live(tags, removed) {
        let t = choose|t: TagView| #[trigger] tags.contains(t) && !removed.contains(t);
        lemma_contains_concat(tags, tags, t);
        lemma_contains_concat(removed, removed, t);
        assert((tags + tags).contains(t) && !(removed + removed).contains(t));
    }
}

/// Merging is commutative over the observable state: presence after the
/// union does not depend on which side came first.
pub proof fn lemma_or_set_merge_commutative(
    tags_a: Seq<TagView>,
    tags_b: Seq<TagView>,
    removed_a: Seq<TagView>,
    removed_b: Seq<TagView>,
)
    ensures
        or_live(tags_a + tags_b, removed_a + removed_b) == or_live(
            tags_b + tags_a,
            removed_b + removed_a,
        ),
{
    if or_live(tags_a + tags_b, removed_a + removed_b) {
        let t = choose|t: TagView|
            #[trigger] (tags_a + tags_b).contains(t) && !(removed_a + removed_b).contains(t);
        lemma_contains_concat(tags_a, tags_b, t);
        lemma_contains_concat(tags_b, tags_a, t);
        lemma_contains_concat(removed_a, removed_b, t);
        lemma_contains_concat(removed_b, removed_a, t);
        assert((tags_b + tags_a).contains(t) && !(removed_b + removed_a).contains(t));
    }
    if or_live(tags_b + tags_a, removed_b + removed_a) {
        let t = choose|t: TagView|
            #[trigger] (tags_b + tags_a).contains(t) && !(removed_b + removed_a).contains(t);
        lemma_contains_concat(tags_a, tags_b, t);
        lemma_contains_concat(tags_b, tags_a, t);
        lemma_contains_concat(removed_a, removed_b, t);
        lemma_contains_concat(removed_b, removed_a, t);
        assert((tags_a + tags_b).contains(t) && !(removed_a + removed_b).contains(t));
    }
}

/// Merging is associative: grouping the unions either way reads the same.
pub proof fn lemma_or_set_merge_associative(
    tags_a: Seq<TagView>,
    tags_b: Seq<TagView>,
    tags_c: Seq<TagView>,
    removed_a: Seq<TagView>,
    removed_b: Seq<TagView>,
    removed_c: Seq<TagView>,
)
    ensures
        or_live((tags_a + tags_b) + tags_c, (removed_a + removed_b) + removed_c) == or_live(
            tags_a + (tags_b + tags_c),
            removed_a + (removed_b + removed_c),
        ),
{
    assert((tags_a + tags_b) + tags_c =~= tags_a + (tags_b + tags_c));
    assert((removed_a + removed_b) + removed_c =~= removed_a + (removed_b + removed_c));
}

/// Add wins: a tag observed by one replica and retired by neither side
/// keeps its element present after the merge, whatever else the other
/// replica removed.
pub proof fn lemma_or_set_add_wins(
    tags_a: Seq<TagView>,
    tags_b: Seq<TagView>,
    removed_a: Seq<TagView>,
    removed_b: Seq<TagView>,
    t: TagView,
)
    requires
        tags_a.contains(t),
        !removed_a.contains(t),
        !removed_b.contains(t),
    ensures
        or_live(tags_a + tags_b, removed_a + removed_b),
{
    lemma_contains_concat(tags_a, tags_b, t);
    lemma_contains_concat(removed_a, removed_b, t);
    assert((tags_a + tags_b).contains(t) && !(removed_a + removed_b).contains(t));
}

} // verus!
