//! Lexicographic order on character sequences.
//!
//! Replica identifiers break timestamp ties lexicographically, and fractional
//! position keys are ordered lexicographically, so the whole engine rests on
//! one strict total order over `Seq<char>`. This module defines that order,
//! proves it is a strict total order, and gives an executable three-way
//! comparison on `&str` against it.

use vstd::prelude::*;

verus! {

/// `a` comes strictly before `b` in lexicographic (dictionary) order:
/// at the first position where they differ, `a` has the smaller character,
/// or `a` is a proper prefix of `b`.
pub open spec fn lex_lt(a: Seq<char>, b: Seq<char>) -> bool
    decreases a.len(),
{
    if b.len() == 0 {
        false
    } else if a.len() == 0 {
        true
    } else if (a[0] as int) < (b[0] as int) {
        true
    } else if a[0] == b[0] {
        lex_lt(a.skip(1), b.skip(1))
    } else {
        false
    }
}

/// Non-strict companion of [`lex_lt`].
pub open spec fn lex_le(a: Seq<char>, b: Seq<char>) -> bool {
    lex_lt(a, b) || a == b
}

/// The order is irreflexive and asymmetric: `a` before `b` rules out both
/// `a == b` and `b` before `a`.
pub proof fn lemma_lex_lt_asymmetric(a: Seq<char>, b: Seq<char>)
    requires
        lex_lt(a, b),
    ensures
        !lex_lt(b, a),
        a != b,
    decreases a.len(),
{
    if a.len() == 0 {
        assert(b.len() > 0);
    } else if a[0] == b[0] {
        lemma_lex_lt_asymmetric(a.skip(1), b.skip(1));
        assert(a != b) by {
            if a == b {
                assert(a.skip(1) == b.skip(1));
            }
        }
    }
}

/// Any two sequences are related: before, equal, or after.
pub proof fn lemma_lex_lt_total(a: Seq<char>, b: Seq<char>)
    ensures
        lex_lt(a, b) || a == b || lex_lt(b, a),
    decreases a.len(),
{
    if a.len() == 0 {
        if b.len() == 0 {
            assert(a =~= b);
        }
    } else if b.len() == 0 {
    } else if a[0] == b[0] {
        lemma_lex_lt_total(a.skip(1), b.skip(1));
        if a.skip(1) == b.skip(1) {
            assert(a.skip(1).len() == a.len() - 1);
            assert(b.skip(1).len() == b.len() - 1);
            assert(a.len() == b.len());
            assert forall|i: int| 0 <= i < a.len() implies a[i] == b[i] by {
                if i > 0 {
                    assert(a[i] == a.skip(1)[i - 1]);
                    assert(b[i] == b.skip(1)[i - 1]);
                }
            }
            assert(a =~= b);
        }
    } else {
        assert((a[0] as int) != (b[0] as int));
    }
}

/// The order is transitive.
pub proof fn lemma_lex_lt_transitive(a: Seq<char>, b: Seq<char>, c: Seq<char>)
    requires
        lex_lt(a, b),
        lex_lt(b, c),
    ensures
        lex_lt(a, c),
    decreases a.len(),
{
    if a.len() == 0 {
    } else {
        // b and c are non-empty since something comes before each.
        if a[0] == b[0] && b[0] == c[0] {
            lemma_lex_lt_transitive(a.skip(1), b.skip(1), c.skip(1));
        }
    }
}

/// A strict order at some position, with equal characters before it, puts the
/// whole sequences in order.
pub proof fn lemma_lex_lt_from_difference(a: Seq<char>, b: Seq<char>, i: int)
    requires
        0 <= i < a.len(),
        i < b.len(),
        forall|j: int| 0 <= j < i ==> a[j] == b[j],
        (a[i] as int) < (b[i] as int),
    ensures
        lex_lt(a, b),
    decreases i,
{
    if i == 0 {
    } else {
        lemma_lex_lt_from_difference(a.skip(1), b.skip(1), i - 1);
    }
}

/// A proper prefix comes strictly before the longer sequence.
pub proof fn lemma_lex_lt_from_prefix(a: Seq<char>, b: Seq<char>)
    requires
        a.len() < b.len(),
        forall|j: int| 0 <= j < a.len() ==> a[j] == b[j],
    ensures
        lex_lt(a, b),
    decreases a.len(),
{
    if a.len() == 0 {
    } else {
        lemma_lex_lt_from_prefix(a.skip(1), b.skip(1));
    }
}

/// Three-way lexicographic comparison of two strings, by characters.
///
/// Character order agrees with Rust's own byte-wise `str` order because UTF-8
/// preserves the order of code points.
pub fn cmp_str(a: &str, b: &str) -> (r: core::cmp::Ordering)
    ensures
        r == core::cmp::Ordering::Less <==> lex_lt(a@, b@),
        r == core::cmp::Ordering::Greater <==> lex_lt(b@, a@),
        r == core::cmp::Ordering::Equal <==> a@ == b@,
{
    let a_len = a.unicode_len();
    let b_len = b.unicode_len();
    let mut i: usize = 0;
    while i < a_len && i < b_len
        invariant
            i <= a_len,
            i <= b_len,
            a_len == a@.len(),
            b_len == b@.len(),
            forall|j: int| 0 <= j < i ==> a@[j] == b@[j],
        decreases a_len - i,
    {
        let ca = a.get_char(i);
        let cb = b.get_char(i);
        if (ca as u32) < (cb as u32) {
            proof {
                lemma_lex_lt_from_difference(a@, b@, i as int);
                lemma_lex_lt_asymmetric(a@, b@);
            }
            return core::cmp::Ordering::Less;
        }
        if (cb as u32) < (ca as u32) {
            proof {
                lemma_lex_lt_from_difference(b@, a@, i as int);
                lemma_lex_lt_asymmetric(b@, a@);
            }
            return core::cmp::Ordering::Greater;
        }
        assert(ca == cb);
        i = i + 1;
    }
    if a_len < b_len {
        proof {
            lemma_lex_lt_from_prefix(a@, b@);
            lemma_lex_lt_asymmetric(a@, b@);
        }
        core::cmp::Ordering::Less
    } else if b_len < a_len {
        proof {
            lemma_lex_lt_from_prefix(b@, a@);
            lemma_lex_lt_asymmetric(b@, a@);
        }
        core::cmp::Ordering::Greater
    } else {
        proof {
            assert(a@ =~= b@);
            if lex_lt(a@, b@) {
                lemma_lex_lt_asymmetric(a@, b@);
            }
            if lex_lt(b@, a@) {
                lemma_lex_lt_asymmetric(b@, a@);
            }
        }
        core::cmp::Ordering::Equal
    }
}

} // verus!
