//! Association lists keyed by strings.
//!
//! Documents, deltas and sets all store their entries as vectors of
//! `(String, value)` pairs with pairwise-distinct keys. This module gives the
//! shared lookup specification — the first entry with a matching key decides —
//! together with the lemmas that connect it to indices, appends and in-place
//! updates, and the executable key search.

use crate::order::cmp_str;
use vstd::prelude::*;

verus! {

/// The value stored under `key`: the first entry with that key, if any.
pub open spec fn assoc_get<V>(entries: Seq<(String, V)>, key: Seq<char>) -> Option<V>
    decreases entries.len(),
{
    if entries.len() == 0 {
        None
    } else if entries[0].0@ == key {
        Some(entries[0].1)
    } else {
        assoc_get(entries.skip(1), key)
    }
}

/// Some entry carries `key`.
pub open spec fn assoc_has<V>(entries: Seq<(String, V)>, key: Seq<char>) -> bool {
    exists|j: int| 0 <= j < entries.len() && entries[j].0@ == key
}

/// No key occurs twice.
pub open spec fn unique_keys<V>(entries: Seq<(String, V)>) -> bool {
    forall|i: int, j: int| 0 <= i < j < entries.len() ==> entries[i].0@ != entries[j].0@
}

/// A list without the key stores nothing under it.
pub proof fn lemma_assoc_get_absent<V>(entries: Seq<(String, V)>, key: Seq<char>)
    requires
        forall|j: int| 0 <= j < entries.len() ==> entries[j].0@ != key,
    ensures
        assoc_get(entries, key) is None,
    decreases entries.len(),
{
    if entries.len() > 0 {
        assert(forall|j: int|
            0 <= j < entries.skip(1).len() ==> entries.skip(1)[j] == entries[j + 1]);
        lemma_assoc_get_absent(entries.skip(1), key);
    }
}

/// The first entry carrying `key` decides the stored value.
pub proof fn lemma_assoc_get_first<V>(entries: Seq<(String, V)>, i: int, key: Seq<char>)
    requires
        0 <= i < entries.len(),
        entries[i].0@ == key,
        forall|j: int| 0 <= j < i ==> entries[j].0@ != key,
    ensures
        assoc_get(entries, key) == Some(entries[i].1),
    decreases i,
{
    if i > 0 {
        assert(forall|j: int|
            0 <= j < entries.skip(1).len() ==> entries.skip(1)[j] == entries[j + 1]);
        lemma_assoc_get_first(entries.skip(1), i - 1, key);
    }
}

/// Appending one entry changes only what is stored under a key the list did
/// not yet carry.
pub proof fn lemma_assoc_get_snoc<V>(entries: Seq<(String, V)>, p: (String, V), key: Seq<char>)
    ensures
        assoc_get(entries.push(p), key) == if assoc_has(entries, key) {
            assoc_get(entries, key)
        } else if p.0@ == key {
            Some(p.1)
        } else {
            None::<V>
        },
    decreases entries.len(),
{
    if entries.len() == 0 {
        assert(entries.push(p)[0] == p);
        assert(entries.push(p).skip(1) =~= Seq::<(String, V)>::empty());
        assert(!assoc_has(entries, key));
        if p.0@ != key {
            assert(assoc_get(Seq::<(String, V)>::empty(), key) is None);
            assert(assoc_get(entries.push(p), key) is None);
        }
    } else {
        assert(entries.push(p)[0] == entries[0]);
        assert(entries.push(p).skip(1) =~= entries.skip(1).push(p));
        lemma_assoc_get_snoc(entries.skip(1), p, key);
        assert(forall|j: int|
            0 <= j < entries.skip(1).len() ==> entries.skip(1)[j] == entries[j + 1]);
        if entries[0].0@ == key {
            assert(assoc_has(entries, key));
            assert(assoc_get(entries.push(p), key) == Some(entries[0].1));
            assert(assoc_get(entries, key) == Some(entries[0].1));
        } else {
            assert(assoc_has(entries, key) == assoc_has(entries.skip(1), key)) by {
                if assoc_has(entries, key) {
                    let j = choose|j: int| 0 <= j < entries.len() && entries[j].0@ == key;
                    assert(entries.skip(1)[j - 1].0@ == key);
                }
                if assoc_has(entries.skip(1), key) {
                    let j = choose|j: int|
                        0 <= j < entries.skip(1).len() && entries.skip(1)[j].0@ == key;
                    assert(entries[j + 1].0@ == key);
                }
            }
        }
    }
}

/// Overwriting the entry at one index changes only what is stored under its
/// key, provided keys are unique and the key itself stays put.
pub proof fn lemma_assoc_get_update<V>(
    old_entries: Seq<(String, V)>,
    new_entries: Seq<(String, V)>,
    i: int,
    key: Seq<char>,
)
    requires
        unique_keys(old_entries),
        old_entries.len() == new_entries.len(),
        0 <= i < old_entries.len(),
        old_entries[i].0@ == key,
        new_entries[i].0@ == key,
        forall|j: int| 0 <= j < old_entries.len() && j != i ==> new_entries[j] == old_entries[j],
    ensures
        unique_keys(new_entries),
        assoc_get(new_entries, key) == Some(new_entries[i].1),
        forall|k: Seq<char>|
            k != key ==> #[trigger] assoc_get(new_entries, k) == assoc_get(old_entries, k),
{
    assert(forall|j: int| 0 <= j < new_entries.len() ==> new_entries[j].0@ == old_entries[j].0@);
    lemma_assoc_get_first(new_entries, i, key);
    assert forall|k: Seq<char>| k != key implies #[trigger] assoc_get(new_entries, k) == assoc_get(
        old_entries,
        k,
    ) by {
        if assoc_has(old_entries, k) {
            let j = choose|j: int| 0 <= j < old_entries.len() && old_entries[j].0@ == k;
            assert(forall|m: int| 0 <= m < j ==> old_entries[m].0@ != k);
            assert(forall|m: int| 0 <= m < j ==> new_entries[m].0@ != k);
            lemma_assoc_get_first(old_entries, j, k);
            lemma_assoc_get_first(new_entries, j, k);
        } else {
            assert(forall|j: int| 0 <= j < new_entries.len() ==> new_entries[j].0@ != k);
            lemma_assoc_get_absent(old_entries, k);
            lemma_assoc_get_absent(new_entries, k);
        }
    }
}

/// A stored value belongs to some entry carrying the key.
pub proof fn lemma_assoc_get_is_entry<V>(entries: Seq<(String, V)>, key: Seq<char>)
    requires
        assoc_get(entries, key) is Some,
    ensures
        exists|i: int|
            0 <= i < entries.len() && (#[trigger] entries[i]).0@ == key && assoc_get(
                entries,
                key,
            ) == Some(entries[i].1),
    decreases entries.len(),
{
    if entries.len() > 0 {
        if entries[0].0@ == key {
            assert(entries[0].0@ == key && assoc_get(entries, key) == Some(entries[0].1));
        } else {
            assert(forall|j: int|
                0 <= j < entries.skip(1).len() ==> entries.skip(1)[j] == entries[j + 1]);
            lemma_assoc_get_is_entry(entries.skip(1), key);
            let i = choose|i: int|
                0 <= i < entries.skip(1).len() && (#[trigger] entries.skip(1)[i]).0@ == key
                    && assoc_get(entries.skip(1), key) == Some(entries.skip(1)[i].1);
            assert(entries[i + 1].0@ == key && assoc_get(entries, key) == Some(
                entries[i + 1].1,
            ));
        }
    }
}

/// Index of the entry for `key`, if one exists; the first match is reported.
pub fn assoc_index_of<V>(entries: &Vec<(String, V)>, key: &str) -> (r: Option<usize>)
    ensures
        match r {
            Some(i) => i < entries@.len() && entries@[i as int].0@ == key@ && (forall|j: int|
                0 <= j < i ==> entries@[j].0@ != key@),
            None => forall|j: int| 0 <= j < entries@.len() ==> entries@[j].0@ != key@,
        },
{
    let mut i: usize = 0;
    while i < entries.len()
        invariant
            i <= entries@.len(),
            forall|j: int| 0 <= j < i ==> entries@[j].0@ != key@,
        decreases entries@.len() - i,
    {
        if matches!(cmp_str(entries[i].0.as_str(), key), core::cmp::Ordering::Equal) {
            return Some(i);
        }
        i = i + 1;
    }
    None
}

} // verus!
