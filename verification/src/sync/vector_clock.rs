//! Vector clocks for causality tracking between replicas.
//!
//! A vector clock maps replica identifiers to logical clock values; absent
//! entries read as zero. Merging takes the pointwise maximum, and comparison
//! decides the happens-before relation four ways: before, after, equal, or
//! concurrent.

use crate::order::cmp_str;
use crate::sync::Timestamp;
use crate::ClientID;
use vstd::prelude::*;

verus! {

/// Outcome of comparing two vector clocks.
///
/// `Equal` means the clocks agree on every entry; `Concurrent` means neither
/// dominates the other. The two are deliberately distinct: conflating them
/// would hide divergence from callers that need to detect it.
#[derive(Clone, Copy, Debug, PartialEq, Eq, Structural)]
pub enum ClockOrder {
    /// Every entry of the left clock is at or below the right one, and at
    /// least one is strictly below: the left clock happened before.
    Before,
    /// The mirror image: the left clock happened after.
    After,
    /// The clocks agree on every entry.
    Equal,
    /// Each clock exceeds the other somewhere: neither happened first.
    Concurrent,
}

/// The larger of two clock values.
pub open spec fn max_u64(a: u64, b: u64) -> u64 {
    if a >= b {
        a
    } else {
        b
    }
}

/// The value recorded for replica `r` in an entry list: the first entry with
/// that key, or zero when no entry carries it.
pub open spec fn entry_of(entries: Seq<(ClientID, u64)>, r: Seq<char>) -> u64
    decreases entries.len(),
{
    if entries.len() == 0 {
        0
    } else if entries[0].0@ == r {
        entries[0].1
    } else {
        entry_of(entries.skip(1), r)
    }
}

/// Some entry of the list carries key `r`.
pub open spec fn has_key(entries: Seq<(ClientID, u64)>, r: Seq<char>) -> bool {
    exists|j: int| 0 <= j < entries.len() && entries[j].0@ == r
}

/// A list with no entry for `r` reads as zero there.
proof fn lemma_entry_of_absent(entries: Seq<(ClientID, u64)>, r: Seq<char>)
    requires
        forall|j: int| 0 <= j < entries.len() ==> entries[j].0@ != r,
    ensures
        entry_of(entries, r) == 0,
    decreases entries.len(),
{
    if entries.len() > 0 {
        assert(forall|j: int|
            0 <= j < entries.skip(1).len() ==> entries.skip(1)[j] == entries[j + 1]);
        lemma_entry_of_absent(entries.skip(1), r);
    }
}

/// The first entry carrying `r` decides the value read for `r`.
proof fn lemma_entry_of_first(entries: Seq<(ClientID, u64)>, i: int, r: Seq<char>)
    requires
        0 <= i < entries.len(),
        entries[i].0@ == r,
        forall|j: int| 0 <= j < i ==> entries[j].0@ != r,
    ensures
        entry_of(entries, r) == entries[i].1,
    decreases i,
{
    if i > 0 {
        assert(forall|j: int|
            0 <= j < entries.skip(1).len() ==> entries.skip(1)[j] == entries[j + 1]);
        lemma_entry_of_first(entries.skip(1), i - 1, r);
    }
}

/// Appending one entry changes only the value read for a key the list did not
/// yet carry.
proof fn lemma_entry_of_snoc(entries: Seq<(ClientID, u64)>, p: (ClientID, u64), r: Seq<char>)
    ensures
        entry_of(entries.push(p), r) == if has_key(entries, r) {
            entry_of(entries, r)
        } else if p.0@ == r {
            p.1
        } else {
            0u64
        },
    decreases entries.len(),
{
    if entries.len() == 0 {
        assert(entries.push(p)[0] == p);
        assert(entries.push(p).skip(1) =~= Seq::<(ClientID, u64)>::empty());
        assert(!has_key(entries, r));
        if p.0@ == r {
            assert(entry_of(entries.push(p), r) == p.1);
        } else {
            assert(entry_of(Seq::<(ClientID, u64)>::empty(), r) == 0);
            assert(entry_of(entries.push(p), r) == 0);
        }
    } else {
        assert(entries.push(p)[0] == entries[0]);
        assert(entries.push(p).skip(1) =~= entries.skip(1).push(p));
        lemma_entry_of_snoc(entries.skip(1), p, r);
        assert(forall|j: int|
            0 <= j < entries.skip(1).len() ==> entries.skip(1)[j] == entries[j + 1]);
        if entries[0].0@ == r {
            assert(has_key(entries, r));
            assert(entry_of(entries.push(p), r) == entries[0].1);
            assert(entry_of(entries, r) == entries[0].1);
        }
        if entries[0].0@ != r {
            assert(has_key(entries, r) == has_key(entries.skip(1), r)) by {
                if has_key(entries, r) {
                    let j = choose|j: int| 0 <= j < entries.len() && entries[j].0@ == r;
                    assert(entries.skip(1)[j - 1].0@ == r);
                }
                if has_key(entries.skip(1), r) {
                    let j = choose|j: int|
                        0 <= j < entries.skip(1).len() && entries.skip(1)[j].0@ == r;
                    assert(entries[j + 1].0@ == r);
                }
            }
            assert(entry_of(entries.push(p), r) == entry_of(entries.skip(1).push(p), r));
            assert(entry_of(entries, r) == entry_of(entries.skip(1), r));
            if has_key(entries, r) {
                assert(entry_of(entries.push(p), r) == entry_of(entries, r));
            } else if p.0@ == r {
                assert(entry_of(entries.push(p), r) == p.1);
            } else {
                assert(entry_of(entries.push(p), r) == 0);
            }
        }
    }
}

/// Vector clock: one logical clock value per replica.
#[derive(Debug)]
pub struct VectorClock {
    /// The recorded entries, one per replica, keys pairwise distinct.
    pub clocks: Vec<(ClientID, u64)>,
}

impl Clone for VectorClock {
    /// Cloning preserves every entry.
    fn clone(&self) -> (res: VectorClock)
        ensures
            res.clocks@ == self.clocks@,
    {
        let mut out: Vec<(ClientID, u64)> = Vec::new();
        let mut i: usize = 0;
        while i < self.clocks.len()
            invariant
                i <= self.clocks@.len(),
                out@ == self.clocks@.take(i as int),
            decreases self.clocks@.len() - i,
        {
            let pair = (self.clocks[i].0.clone(), self.clocks[i].1);
            out.push(pair);
            proof {
                assert(out@ =~= self.clocks@.take(i + 1));
            }
            i = i + 1;
        }
        proof {
            assert(self.clocks@.take(self.clocks@.len() as int) =~= self.clocks@);
        }
        VectorClock { clocks: out }
    }
}

impl VectorClock {
    /// Well-formed: no replica is recorded twice.
    pub open spec fn wf(self) -> bool {
        forall|i: int, j: int|
            0 <= i < j < self.clocks@.len() ==> self.clocks@[i].0@ != self.clocks@[j].0@
    }

    /// The logical clock recorded for replica `r`; absent entries read as 0.
    pub open spec fn entry(self, r: Seq<char>) -> u64 {
        entry_of(self.clocks@, r)
    }

    /// Pointwise dominance: `other` has seen at least as much as `self`.
    pub open spec fn spec_le(self, other: VectorClock) -> bool {
        forall|r: Seq<char>| #[trigger] self.entry(r) <= other.entry(r)
    }

    /// Observable equality: the clocks agree on every replica.
    pub open spec fn spec_same(self, other: VectorClock) -> bool {
        forall|r: Seq<char>| #[trigger] self.entry(r) == other.entry(r)
    }

    /// Create a new, empty vector clock: every replica reads as zero.
    pub fn new() -> (r: VectorClock)
        ensures
            r.wf(),
            forall|c: Seq<char>| #[trigger] r.entry(c) == 0,
    {
        VectorClock { clocks: Vec::new() }
    }

    /// A clock that records just the timestamp's clock value for the
    /// timestamp's client, and zero for everyone else.
    pub fn from_timestamp(timestamp: &Timestamp) -> (r: VectorClock)
        ensures
            r.wf(),
            r.entry(timestamp.client_id@) == timestamp.clock,
            forall|c: Seq<char>| c != timestamp.client_id@ ==> #[trigger] r.entry(c) == 0,
    {
        let mut clocks: Vec<(ClientID, u64)> = Vec::new();
        clocks.push((timestamp.client_id.clone(), timestamp.clock));
        let r = VectorClock { clocks };
        proof {
            assert forall|c: Seq<char>|
                c != timestamp.client_id@ implies #[trigger] r.entry(c) == 0 by {
                assert(r.clocks@[0].0@ == timestamp.client_id@);
                lemma_entry_of_absent(r.clocks@, c);
            }
        }
        r
    }

    /// Index of the entry for `client_id`, if one exists.
    fn index_of(&self, client_id: &str) -> (r: Option<usize>)
        ensures
            match r {
                Some(i) => i < self.clocks@.len() && self.clocks@[i as int].0@ == client_id@ && (
                forall|j: int| 0 <= j < i ==> self.clocks@[j].0@ != client_id@),
                None => forall|j: int|
                    0 <= j < self.clocks@.len() ==> self.clocks@[j].0@ != client_id@,
            },
    {
        let mut i: usize = 0;
        while i < self.clocks.len()
            invariant
                i <= self.clocks@.len(),
                forall|j: int| 0 <= j < i ==> self.clocks@[j].0@ != client_id@,
            decreases self.clocks@.len() - i,
        {
            if matches!(cmp_str(self.clocks[i].0.as_str(), client_id), core::cmp::Ordering::Equal) {
                return Some(i);
            }
            i = i + 1;
        }
        None
    }

    /// Get the clock value for a specific client; absent entries read as 0.
    pub fn get(&self, client_id: &ClientID) -> (r: u64)
        ensures
            r == self.entry(client_id@),
    {
        match self.index_of(client_id.as_str()) {
            Some(i) => {
                proof {
                    lemma_entry_of_first(self.clocks@, i as int, client_id@);
                }
                self.clocks[i].1
            },
            None => {
                proof {
                    lemma_entry_of_absent(self.clocks@, client_id@);
                }
                0
            },
        }
    }

    /// Increment the clock for a specific client by one.
    pub fn tick(&mut self, client_id: &ClientID)
        requires
            old(self).wf(),
            old(self).entry(client_id@) < u64::MAX,
        ensures
            final(self).wf(),
            final(self).entry(client_id@) == old(self).entry(client_id@) + 1,
            forall|c: Seq<char>|
                c != client_id@ ==> #[trigger] final(self).entry(c) == old(self).entry(c),
    {
        let current = self.get(client_id);
        self.set_entry(client_id, current + 1);
    }

    /// Set the clock for a specific client to a specific value,
    /// unconditionally. Used when ingesting trusted remote state.
    pub fn update(&mut self, client_id: &ClientID, value: u64)
        requires
            old(self).wf(),
        ensures
            final(self).wf(),
            final(self).entry(client_id@) == value,
            forall|c: Seq<char>|
                c != client_id@ ==> #[trigger] final(self).entry(c) == old(self).entry(c),
    {
        self.set_entry(client_id, value);
    }

    /// Install `value` for `client_id`, replacing an existing entry or
    /// appending a new one.
    fn set_entry(&mut self, client_id: &ClientID, value: u64)
        requires
            old(self).wf(),
        ensures
            final(self).wf(),
            final(self).entry(client_id@) == value,
            forall|c: Seq<char>|
                c != client_id@ ==> #[trigger] final(self).entry(c) == old(self).entry(c),
    {
        let ghost old_entries = self.clocks@;
        match self.index_of(client_id.as_str()) {
            Some(i) => {
                self.clocks[i] = (client_id.clone(), value);
                proof {
                    let entries = self.clocks@;
                    assert(entries[i as int].0@ == client_id@);
                    assert(forall|j: int|
                        0 <= j < entries.len() && j != i ==> entries[j] == old_entries[j]);
                    assert(self.wf());
                    lemma_entry_of_first(entries, i as int, client_id@);
                    assert forall|c: Seq<char>| c != client_id@ implies #[trigger] entry_of(
                        entries,
                        c,
                    ) == entry_of(old_entries, c) by {
                        if has_key(old_entries, c) {
                            let j = choose|j: int|
                                0 <= j < old_entries.len() && old_entries[j].0@ == c;
                            assert(forall|k: int| 0 <= k < j ==> old_entries[k].0@ != c);
                            assert(forall|k: int| 0 <= k < j ==> entries[k].0@ != c);
                            lemma_entry_of_first(old_entries, j, c);
                            lemma_entry_of_first(entries, j, c);
                        } else {
                            lemma_entry_of_absent(old_entries, c);
                            lemma_entry_of_absent(entries, c);
                        }
                    }
                }
            },
            None => {
                self.clocks.push((client_id.clone(), value));
                proof {
                    let entries = self.clocks@;
                    let p = (*client_id, value);
                    assert(entries[old_entries.len() as int].0@ == client_id@);
                    assert(entries =~= old_entries.push(entries[old_entries.len() as int]));
                    assert(!has_key(old_entries, client_id@));
                    lemma_entry_of_snoc(
                        old_entries,
                        entries[old_entries.len() as int],
                        client_id@,
                    );
                    assert(self.wf());
                    assert forall|c: Seq<char>| c != client_id@ implies #[trigger] entry_of(
                        entries,
                        c,
                    ) == entry_of(old_entries, c) by {
                        lemma_entry_of_snoc(old_entries, entries[old_entries.len() as int], c);
                        if !has_key(old_entries, c) {
                            lemma_entry_of_absent(old_entries, c);
                        }
                    }
                }
            },
        }
    }

    /// All recorded entries.
    pub fn clocks(&self) -> (r: &Vec<(ClientID, u64)>)
        ensures
            r == &self.clocks,
    {
        &self.clocks
    }

    /// Merge with another vector clock, taking the pointwise maximum of the
    /// entries. Used when receiving remote operations, so that all causal
    /// dependencies stay tracked.
    pub fn merge(&mut self, other: &VectorClock)
        requires
            old(self).wf(),
            other.wf(),
        ensures
            final(self).wf(),
            forall|c: Seq<char>| #[trigger]
                final(self).entry(c) == max_u64(old(self).entry(c), other.entry(c)),
    {
        let ghost prior = *self;
        let mut t: usize = 0;
        while t < other.clocks.len()
            invariant
                other.wf(),
                self.wf(),
                t <= other.clocks@.len(),
                forall|c: Seq<char>| #[trigger]
                    self.entry(c) == max_u64(
                        prior.entry(c),
                        entry_of(other.clocks@.take(t as int), c),
                    ),
            decreases other.clocks@.len() - t,
        {
            let ghost before = *self;
            let key = &other.clocks[t].0;
            let remote = other.clocks[t].1;
            let local = self.get(key);
            if local < remote {
                self.set_entry(key, remote);
            }
            proof {
                let taken = other.clocks@.take(t as int);
                let taken1 = other.clocks@.take(t + 1);
                assert(taken1 =~= taken.push(other.clocks@[t as int]));
                assert(!has_key(taken, key@)) by {
                    if has_key(taken, key@) {
                        let j = choose|j: int| 0 <= j < taken.len() && taken[j].0@ == key@;
                        assert(other.clocks@[j].0@ == other.clocks@[t as int].0@);
                    }
                }
                lemma_entry_of_absent(taken, key@);
                assert forall|c: Seq<char>| #[trigger] self.entry(c) == max_u64(
                    prior.entry(c),
                    entry_of(taken1, c),
                ) by {
                    lemma_entry_of_snoc(taken, other.clocks@[t as int], c);
                    assert(before.entry(c) == max_u64(prior.entry(c), entry_of(taken, c)));
                    if c == key@ {
                        assert(entry_of(taken, c) == 0);
                        assert(entry_of(taken1, c) == remote);
                        if local < remote {
                            assert(self.entry(c) == remote);
                        } else {
                            assert(self.entry(c) == before.entry(c));
                        }
                    } else {
                        if !has_key(taken, c) {
                            lemma_entry_of_absent(taken, c);
                        }
                        assert(entry_of(taken1, c) == entry_of(taken, c));
                        assert(self.entry(c) == before.entry(c));
                    }
                }
            }
            t = t + 1;
        }
        proof {
            assert(other.clocks@.take(other.clocks@.len() as int) =~= other.clocks@);
        }
    }

    /// Compare two vector clocks and classify the happens-before relation.
    ///
    /// `Equal` is returned only for clocks that agree everywhere; clocks that
    /// each exceed the other somewhere are reported `Concurrent`.
    pub fn compare(&self, other: &VectorClock) -> (r: ClockOrder)
        requires
            self.wf(),
            other.wf(),
        ensures
            r == ClockOrder::Equal <==> self.spec_same(*other),
            r == ClockOrder::Before <==> self.spec_le(*other) && !self.spec_same(*other),
            r == ClockOrder::After <==> other.spec_le(*self) && !self.spec_same(*other),
            r == ClockOrder::Concurrent <==> !self.spec_le(*other) && !other.spec_le(*self),
    {
        let (saw_less, saw_greater) = self.scan_differences(other);
        proof {
            if saw_less {
                let c = choose|c: Seq<char>| #[trigger] self.entry(c) < other.entry(c);
                assert(self.entry(c) != other.entry(c));
            }
            if saw_greater {
                let c = choose|c: Seq<char>| #[trigger] self.entry(c) > other.entry(c);
                assert(self.entry(c) != other.entry(c));
            }
        }
        if saw_less && saw_greater {
            ClockOrder::Concurrent
        } else if saw_less {
            ClockOrder::Before
        } else if saw_greater {
            ClockOrder::After
        } else {
            ClockOrder::Equal
        }
    }

    /// Whether some entry of `self` is below `other`, and whether some entry
    /// is above.
    fn scan_differences(&self, other: &VectorClock) -> (r: (bool, bool))
        requires
            self.wf(),
            other.wf(),
        ensures
            r.0 <==> exists|c: Seq<char>| #[trigger] self.entry(c) < other.entry(c),
            r.1 <==> exists|c: Seq<char>| #[trigger] self.entry(c) > other.entry(c),
    {
        let mut saw_less = false;
        let mut saw_greater = false;
        let mut i: usize = 0;
        while i < self.clocks.len()
            invariant
                self.wf(),
                other.wf(),
                i <= self.clocks@.len(),
                saw_less <==> exists|j: int|
                    0 <= j < i && self.clocks@[j].1 < #[trigger] entry_of(
                        other.clocks@,
                        self.clocks@[j].0@,
                    ),
                saw_greater <==> exists|j: int|
                    0 <= j < i && self.clocks@[j].1 > #[trigger] entry_of(
                        other.clocks@,
                        self.clocks@[j].0@,
                    ),
            decreases self.clocks@.len() - i,
        {
            let local = self.clocks[i].1;
            let remote = other.get(&self.clocks[i].0);
            if local < remote {
                saw_less = true;
            }
            if local > remote {
                saw_greater = true;
            }
            i = i + 1;
        }
        // Keys recorded only by `other` read as zero here; a positive entry
        // there means `self` is behind on that replica.
        let ghost less_from_self = saw_less;
        let mut k: usize = 0;
        while k < other.clocks.len()
            invariant
                self.wf(),
                other.wf(),
                k <= other.clocks@.len(),
                saw_greater <==> exists|j: int|
                    0 <= j < self.clocks@.len() && self.clocks@[j].1 > #[trigger] entry_of(
                        other.clocks@,
                        self.clocks@[j].0@,
                    ),
                less_from_self <==> exists|j: int|
                    0 <= j < self.clocks@.len() && self.clocks@[j].1 < #[trigger] entry_of(
                        other.clocks@,
                        self.clocks@[j].0@,
                    ),
                saw_less <==> less_from_self || exists|j: int|
                    0 <= j < k && other.clocks@[j].1 > 0 && !#[trigger] has_key(
                        self.clocks@,
                        other.clocks@[j].0@,
                    ),
            decreases other.clocks@.len() - k,
        {
            match self.index_of(other.clocks[k].0.as_str()) {
                Some(i) => {
                    // Also recorded here, so the first scan covered this key.
                    proof {
                        assert(self.clocks@[i as int].0@ == other.clocks@[k as int].0@);
                        assert(has_key(self.clocks@, other.clocks@[k as int].0@));
                    }
                },
                None => {
                    if other.clocks[k].1 > 0 {
                        saw_less = true;
                        proof {
                            assert(!has_key(self.clocks@, other.clocks@[k as int].0@));
                        }
                    }
                },
            }
            k = k + 1;
        }
        proof {
            if saw_less {
                if less_from_self {
                    let j = choose|j: int|
                        0 <= j < self.clocks@.len() && self.clocks@[j].1 < #[trigger] entry_of(
                            other.clocks@,
                            self.clocks@[j].0@,
                        );
                    assert(forall|m: int| 0 <= m < j ==> self.clocks@[m].0@ != self.clocks@[j].0@);
                    lemma_entry_of_first(self.clocks@, j, self.clocks@[j].0@);
                    assert(self.entry(self.clocks@[j].0@) < other.entry(self.clocks@[j].0@));
                } else {
                    let j = choose|j: int|
                        0 <= j < other.clocks@.len() && other.clocks@[j].1 > 0 && !#[trigger] has_key(
                            self.clocks@,
                            other.clocks@[j].0@,
                        );
                    let c = other.clocks@[j].0@;
                    lemma_entry_of_absent(self.clocks@, c);
                    assert(forall|m: int| 0 <= m < j ==> other.clocks@[m].0@ != c);
                    lemma_entry_of_first(other.clocks@, j, c);
                    assert(self.entry(c) < other.entry(c));
                }
            } else {
                assert forall|c: Seq<char>| !(#[trigger] self.entry(c) < other.entry(c)) by {
                    if self.entry(c) < other.entry(c) {
                        if has_key(self.clocks@, c) {
                            let j = choose|j: int|
                                0 <= j < self.clocks@.len() && self.clocks@[j].0@ == c;
                            assert(forall|m: int| 0 <= m < j ==> self.clocks@[m].0@ != c);
                            lemma_entry_of_first(self.clocks@, j, c);
                        } else {
                            lemma_entry_of_absent(self.clocks@, c);
                            assert(other.entry(c) > 0);
                            if has_key(other.clocks@, c) {
                                let j = choose|j: int|
                                    0 <= j < other.clocks@.len() && other.clocks@[j].0@ == c;
                                assert(forall|m: int| 0 <= m < j ==> other.clocks@[m].0@ != c);
                                lemma_entry_of_first(other.clocks@, j, c);
                            } else {
                                lemma_entry_of_absent(other.clocks@, c);
                            }
                        }
                    }
                }
            }
            if saw_greater {
                let j = choose|j: int|
                    0 <= j < self.clocks@.len() && self.clocks@[j].1 > #[trigger] entry_of(
                        other.clocks@,
                        self.clocks@[j].0@,
                    );
                assert(forall|m: int| 0 <= m < j ==> self.clocks@[m].0@ != self.clocks@[j].0@);
                lemma_entry_of_first(self.clocks@, j, self.clocks@[j].0@);
                assert(self.entry(self.clocks@[j].0@) > other.entry(self.clocks@[j].0@));
            } else {
                assert forall|c: Seq<char>| !(#[trigger] self.entry(c) > other.entry(c)) by {
                    if self.entry(c) > other.entry(c) {
                        if has_key(self.clocks@, c) {
                            let j = choose|j: int|
                                0 <= j < self.clocks@.len() && self.clocks@[j].0@ == c;
                            assert(forall|m: int| 0 <= m < j ==> self.clocks@[m].0@ != c);
                            lemma_entry_of_first(self.clocks@, j, c);
                        } else {
                            lemma_entry_of_absent(self.clocks@, c);
                        }
                    }
                }
            }
        }
        (saw_less, saw_greater)
    }

    /// Two clocks are concurrent when each has advanced past the other
    /// somewhere: neither happened before the other, and they are not equal.
    pub fn is_concurrent(&self, other: &VectorClock) -> (r: bool)
        requires
            self.wf(),
            other.wf(),
        ensures
            r <==> !self.spec_le(*other) && !other.spec_le(*self),
    {
        let (saw_less, saw_greater) = self.scan_differences(other);
        saw_less && saw_greater
    }

    /// `self` happened strictly before `other`: dominated everywhere and
    /// strictly behind somewhere.
    pub fn happened_before(&self, other: &VectorClock) -> (r: bool)
        requires
            self.wf(),
            other.wf(),
        ensures
            r <==> self.spec_le(*other) && !self.spec_same(*other),
    {
        matches!(self.compare(other), ClockOrder::Before)
    }
}

/// What merging records for one replica: the larger of the two entries.
pub open spec fn merged_entry(a: VectorClock, b: VectorClock, r: Seq<char>) -> u64 {
    max_u64(a.entry(r), b.entry(r))
}

/// Merging a clock with itself leaves every entry unchanged (idempotence).
pub proof fn lemma_vector_clock_merge_idempotent(a: VectorClock)
    ensures
        forall|r: Seq<char>| #[trigger] merged_entry(a, a, r) == a.entry(r),
{
}

/// Merging is commutative over the observable state: each entry of the merge
/// is the larger of the two inputs' entries, in either order.
pub proof fn lemma_vector_clock_merge_commutative(a: VectorClock, b: VectorClock)
    ensures
        forall|r: Seq<char>| #[trigger] merged_entry(a, b, r) == merged_entry(b, a, r),
{
}

/// Merging is associative over the observable state.
pub proof fn lemma_vector_clock_merge_associative(a: VectorClock, b: VectorClock, c: VectorClock)
    ensures
        forall|r: Seq<char>|
            max_u64(#[trigger] merged_entry(a, b, r), c.entry(r)) == max_u64(
                a.entry(r),
                merged_entry(b, c, r),
            ),
{
}

/// Ticking a copy of a clock puts the source clock strictly before the copy:
/// the copy dominates everywhere and exceeds it on the ticked replica, so
/// comparing reports `Before` one way and `After` the other.
pub proof fn lemma_tick_happened_before(a: VectorClock, b: VectorClock, r: Seq<char>)
    requires
        b.entry(r) == a.entry(r) + 1,
        forall|c: Seq<char>| c != r ==> #[trigger] b.entry(c) == a.entry(c),
    ensures
        a.spec_le(b),
        !a.spec_same(b),
        !b.spec_le(a),
{
    assert(a.entry(r) < b.entry(r));
    assert forall|c: Seq<char>| #[trigger] a.entry(c) <= b.entry(c) by {
        if c != r {
            assert(b.entry(c) == a.entry(c));
        }
    }
}

} // verus!
