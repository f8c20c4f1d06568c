//! Fractional indexes: dense position keys for ordered lists.
//!
//! A position is a base-62 string over the digit set `0-9A-Za-z`, whose
//! ASCII order matches digit-value order, so lexicographic comparison on the
//! raw string is the position order. Between any two ordered positions a
//! fresh position can be generated, so items can be inserted or reordered
//! without renumbering anything else.
//!
//! The one exception to density is inherent to lexicographic order itself: a
//! key followed immediately by its zero-extension (such as `"a"` before
//! `"a0"`) has nothing strictly between the two, and the generator is not
//! asked to find it.

use crate::error::SyncError;
use crate::order::cmp_str;
use crate::order::lemma_lex_lt_asymmetric;
use crate::order::lemma_lex_lt_total;
use crate::order::lex_lt;
use vstd::prelude::*;

verus! {

/// The numeric value of a base-62 digit: `0-9` map to 0-9, `A-Z` to 10-35,
/// `a-z` to 36-61.
pub open spec fn digit_val(c: char) -> int {
    let v = c as int;
    if 48 <= v <= 57 {
        v - 48
    } else if 65 <= v <= 90 {
        v - 55
    } else if 97 <= v <= 122 {
        v - 61
    } else {
        0
    }
}

/// Whether a character is a base-62 digit.
pub open spec fn is_digit(c: char) -> bool {
    let v = c as int;
    (48 <= v <= 57) || (65 <= v <= 90) || (97 <= v <= 122)
}

/// Whether every character of the sequence is a base-62 digit.
pub open spec fn valid_digits(s: Seq<char>) -> bool {
    forall|i: int| 0 <= i < s.len() ==> is_digit(#[trigger] s[i])
}

/// The suffix of a sequence from position `i`; empty once `i` passes the
/// end.
pub open spec fn suffix(s: Seq<char>, i: int) -> Seq<char> {
    if 0 <= i <= s.len() {
        s.skip(i)
    } else {
        Seq::empty()
    }
}

/// The base-62 digit with the given value.
pub open spec fn digit_char(v: int) -> char {
    if v < 10 {
        ((48 + v) as u8) as char
    } else if v < 36 {
        ((55 + v) as u8) as char
    } else {
        ((61 + v) as u8) as char
    }
}

/// Digit values and characters round-trip, and digit-value order is exactly
/// character order on base-62 digits — which is why lexicographic comparison
/// of the raw strings is the position order.
pub proof fn lemma_digit_facts(a: char, b: char)
    requires
        is_digit(a),
        is_digit(b),
    ensures
        0 <= digit_val(a) < 62,
        digit_char(digit_val(a)) == a,
        digit_val(a) < digit_val(b) <==> (a as int) < (b as int),
        digit_val(a) == digit_val(b) <==> a == b,
{
}

/// A digit character built from a value in range is a digit with that value.
pub proof fn lemma_digit_char_val(v: int)
    requires
        0 <= v < 62,
    ensures
        is_digit(digit_char(v)),
        digit_val(digit_char(v)) == v,
{
}

/// The digit read for the left bound at position `i`: its own digit, or 0
/// once the left bound is exhausted.
pub open spec fn left_val(l: Seq<char>, i: int) -> int {
    if i < l.len() {
        digit_val(l[i])
    } else {
        0
    }
}

/// The digit bound read for the right bound at position `i`: its own digit
/// while the walk is still tight against the right bound, and the sentinel
/// 62 once the walk has gone strictly below it or the bound is exhausted.
pub open spec fn right_val(r: Seq<char>, i: int, tight: bool) -> int {
    if tight && i < r.len() {
        digit_val(r[i])
    } else {
        62
    }
}

/// The digits the midpoint walk emits from position `i` on.
///
/// At each position: equal digits are copied and the walk stays tight
/// against the right bound; a gap of at least two emits the average and
/// stops; adjacent digits copy the left digit — the result is now strictly
/// below the right bound, so the walk continues against the left bound
/// alone.
pub open spec fn mid_digits(l: Seq<char>, r: Seq<char>, i: int, tight: bool) -> Seq<char>
    decreases l.len() + r.len() - i,
{
    if i < 0 || i > l.len() + r.len() {
        Seq::empty()
    } else {
        let lv = left_val(l, i);
        let rv = right_val(r, i, tight);
        if lv + 1 < rv {
            seq![digit_char((lv + rv) / 2)]
        } else if lv < rv {
            seq![digit_char(lv)] + mid_digits(l, r, i + 1, false)
        } else if lv == rv {
            seq![digit_char(lv)] + mid_digits(l, r, i + 1, tight)
        } else {
            Seq::empty()
        }
    }
}

/// `r` is `l` extended by zero digits only: the one shape that has nothing
/// strictly between `l` and itself.
pub open spec fn zero_extension(l: Seq<char>, r: Seq<char>) -> bool {
    r.len() > l.len() && r.take(l.len() as int) == l && (forall|j: int|
        l.len() <= j < r.len() ==> r[j] == '0')
}

/// The midpoint walk is correct: it emits a non-empty valid digit string
/// strictly above the left bound's suffix, and — while tight against an
/// ordered right bound that is not a zero-extension — strictly below the
/// right bound's suffix.
proof fn lemma_mid_digits_between(l: Seq<char>, r: Seq<char>, i: int, tight: bool)
    requires
        valid_digits(l),
        valid_digits(r),
        0 <= i <= l.len() + r.len(),
        tight ==> (lex_lt(suffix(l, i), suffix(r, i)) || r.len() <= i),
    ensures
        mid_digits(l, r, i, tight).len() >= 1,
        valid_digits(mid_digits(l, r, i, tight)),
        lex_lt(suffix(l, i), mid_digits(l, r, i, tight)),
        (tight && lex_lt(suffix(l, i), suffix(r, i)) && !zero_extension(
            suffix(l, i),
            suffix(r, i),
        )) ==> lex_lt(mid_digits(l, r, i, tight), suffix(r, i)),
    decreases l.len() + r.len() - i,
{
    let s = mid_digits(l, r, i, tight);
    let lv = left_val(l, i);
    let rv = right_val(r, i, tight);
    let lsuf = suffix(l, i);
    let rsuf = suffix(r, i);
    if i < l.len() {
        assert(lsuf[0] == l[i]);
        assert(lsuf.skip(1) =~= suffix(l, i + 1));
        lemma_digit_facts(l[i], l[i]);
    } else {
        assert(lsuf.len() == 0);
        assert(suffix(l, i + 1).len() == 0);
    }
    if i < r.len() {
        assert(rsuf[0] == r[i]);
        assert(rsuf.skip(1) =~= suffix(r, i + 1));
        lemma_digit_facts(r[i], r[i]);
    } else {
        assert(rsuf.len() == 0);
        assert(suffix(r, i + 1).len() == 0);
    }
    // The walk never sees its left digit above its right bound.
    assert(lv <= rv) by {
        if tight && i < r.len() {
            if i < l.len() {
                if lex_lt(lsuf, rsuf) {
                    lemma_digit_facts(l[i], r[i]);
                }
            }
        }
    }
    if lv + 1 < rv {
        // Gap: emit the average and stop.
        let m = (lv + rv) / 2;
        assert(lv < m < rv);
        lemma_digit_char_val(m);
        assert(s =~= seq![digit_char(m)]);
        assert(lex_lt(lsuf, s)) by {
            if i < l.len() {
                lemma_digit_facts(l[i], digit_char(m));
                assert((l[i] as int) < (digit_char(m) as int));
            }
        }
        if tight && lex_lt(lsuf, rsuf) {
            assert(lex_lt(s, rsuf)) by {
                assert(i < r.len());
                lemma_digit_facts(digit_char(m), r[i]);
                assert((digit_char(m) as int) < (r[i] as int));
            }
        }
    } else if lv < rv {
        // Adjacent: copy the left digit; the walk is strictly below the
        // right bound from here on.
        lemma_digit_char_val(lv);
        assert(i < l.len() || i < r.len()) by {
            if i >= l.len() && i >= r.len() {
                assert(lv == 0 && rv == 62);
            }
            if rv == 62 {
                assert(lv == 61);
                assert(i < l.len());
            }
        }
        lemma_mid_digits_between(l, r, i + 1, false);
        let s1 = mid_digits(l, r, i + 1, false);
        assert(s =~= seq![digit_char(lv)] + s1);
        assert(s[0] == digit_char(lv));
        assert(s.skip(1) =~= s1);
        assert(lex_lt(lsuf, s)) by {
            if i < l.len() {
                assert(l[i] == digit_char(lv)) by {
                    lemma_digit_facts(l[i], l[i]);
                }
                assert(lsuf[0] == s[0]);
                assert(lex_lt(lsuf.skip(1), s.skip(1)));
            } else {
                assert(lsuf.len() == 0);
            }
        }
        if tight && lex_lt(lsuf, rsuf) {
            // The right digit is real and strictly above the copied digit.
            assert(i < r.len());
            assert(rv == digit_val(r[i]));
            assert(lex_lt(s, rsuf)) by {
                lemma_digit_facts(digit_char(lv), r[i]);
                assert((digit_char(lv) as int) < (r[i] as int));
            }
        }
    } else {
        // Equal: copy the digit and stay tight.
        assert(lv == rv);
        assert(rv < 62);
        assert(tight && i < r.len());
        assert(r[i] == digit_char(rv)) by {
            lemma_digit_facts(r[i], r[i]);
        }
        lemma_digit_char_val(lv);
        // The ordering precondition carries to the next position.
        assert(lex_lt(suffix(l, i + 1), suffix(r, i + 1)) || r.len() <= i + 1) by {
            if r.len() > i + 1 {
                if i < l.len() {
                    assert(lsuf[0] == rsuf[0]) by {
                        lemma_digit_facts(l[i], r[i]);
                    }
                    assert(lex_lt(lsuf, rsuf));
                    assert(lex_lt(lsuf.skip(1), rsuf.skip(1)));
                } else {
                    assert(suffix(l, i + 1).len() == 0);
                    assert(suffix(r, i + 1).len() > 0);
                }
            }
        }
        lemma_mid_digits_between(l, r, i + 1, tight);
        let s1 = mid_digits(l, r, i + 1, tight);
        assert(s =~= seq![digit_char(lv)] + s1);
        assert(s[0] == digit_char(lv));
        assert(s.skip(1) =~= s1);
        assert(lex_lt(lsuf, s)) by {
            if i < l.len() {
                assert(l[i] == digit_char(lv)) by {
                    lemma_digit_facts(l[i], l[i]);
                }
                assert(lsuf[0] == s[0]);
                assert(lex_lt(lsuf.skip(1), s.skip(1)));
            } else {
                assert(lsuf.len() == 0);
            }
        }
        if tight && lex_lt(lsuf, rsuf) && !zero_extension(lsuf, rsuf) {
            // Show the walk stays strictly below the right bound.
            let lsuf1 = suffix(l, i + 1);
            let rsuf1 = suffix(r, i + 1);
            assert(rsuf[0] == s[0]);
            // First: the deeper suffixes are still strictly ordered.
            assert(lex_lt(lsuf1, rsuf1)) by {
                if i < l.len() {
                    assert(lex_lt(lsuf.skip(1), rsuf.skip(1)));
                } else {
                    // Left exhausted while copying a zero digit; were the
                    // right suffix to end here or carry only zeros, the pair
                    // would be a zero-extension, which is excluded.
                    assert(lv == 0);
                    assert(r[i] == '0') by {
                        lemma_digit_char_val(0);
                    }
                    assert(lsuf1.len() == 0);
                    assert(rsuf1.len() > 0) by {
                        if r.len() <= i + 1 {
                            assert(zero_extension(lsuf, rsuf)) by {
                                assert(rsuf.len() == 1);
                                assert(rsuf[0] == '0');
                                assert(rsuf.take(0) =~= lsuf);
                            }
                        }
                    }
                }
            }
            // Second: they are not a zero-extension pair either.
            assert(!zero_extension(lsuf1, rsuf1)) by {
                if zero_extension(lsuf1, rsuf1) {
                    assert(zero_extension(lsuf, rsuf)) by {
                        assert(rsuf.len() == rsuf1.len() + 1);
                        if i < l.len() {
                            assert(lsuf.len() == lsuf1.len() + 1);
                            assert(lsuf[0] == rsuf[0]) by {
                                lemma_digit_facts(l[i], r[i]);
                            }
                            assert forall|j: int|
                                lsuf.len() <= j < rsuf.len() implies rsuf[j] == '0' by {
                                assert(rsuf[j] == rsuf1[j - 1]);
                                assert(rsuf1[j - 1] == '0');
                            }
                            assert(rsuf.take(lsuf.len() as int) =~= lsuf) by {
                                assert forall|j: int| 0 <= j < lsuf.len() implies rsuf[j]
                                    == lsuf[j] by {
                                    if j > 0 {
                                        assert(rsuf[j] == rsuf1[j - 1]);
                                        assert(lsuf[j] == lsuf1[j - 1]);
                                        assert(rsuf1.take(lsuf1.len() as int)[j - 1] == rsuf1[j
                                            - 1]);
                                    }
                                }
                            }
                        } else {
                            // Left exhausted: the copied digit was zero and
                            // everything deeper is zero too.
                            assert(lv == 0);
                            assert(lsuf.len() == 0);
                            assert(lsuf1.len() == 0);
                            assert(rsuf[0] == '0') by {
                                lemma_digit_char_val(0);
                            }
                            assert forall|j: int| 0 <= j < rsuf.len() implies rsuf[j]
                                == '0' by {
                                if j >= 1 {
                                    assert(rsuf[j] == rsuf1[j - 1]);
                                }
                            }
                            assert(rsuf.take(0) =~= lsuf);
                        }
                    }
                }
            }
            assert(lex_lt(s, rsuf)) by {
                assert(lex_lt(s.skip(1), rsuf.skip(1)));
            }
        }
    }
}

/// The density law: between any two ordered positions that are not a
/// zero-extension pair, the generated midpoint lies strictly between them.
pub proof fn lemma_between_dense(l: Seq<char>, r: Seq<char>)
    requires
        valid_digits(l),
        valid_digits(r),
        lex_lt(l, r),
        !zero_extension(l, r),
    ensures
        mid_digits(l, r, 0, true).len() >= 1,
        valid_digits(mid_digits(l, r, 0, true)),
        lex_lt(l, mid_digits(l, r, 0, true)),
        lex_lt(mid_digits(l, r, 0, true), r),
{
    assert(suffix(l, 0) =~= l);
    assert(suffix(r, 0) =~= r);
    lemma_mid_digits_between(l, r, 0, true);
}

/// Append one character to a string.
///
/// Relies on `String::push`: the string afterwards is the old contents with
/// the character at the end.
#[verifier::external_body]
pub(crate) fn push_char(s: &mut String, c: char)
    ensures
        final(s)@ == old(s)@.push(c),
{
    s.push(c);
}

/// The numeric value of a base-62 digit character; other characters read as
/// zero.
fn digit_to_value(digit: char) -> (r: u32)
    ensures
        is_digit(digit) ==> r == digit_val(digit),
        r < 62,
{
    let v = digit as u32;
    if 48 <= v && v <= 57 {
        v - 48
    } else if 65 <= v && v <= 90 {
        v - 55
    } else if 97 <= v && v <= 122 {
        v - 61
    } else {
        0
    }
}

/// The base-62 digit character with the given value.
fn value_to_char(value: u32) -> (r: char)
    requires
        value < 62,
    ensures
        r == digit_char(value as int),
        is_digit(r),
        digit_val(r) == value as int,
    {
    proof {
        lemma_digit_char_val(value as int);
    }
    if value < 10 {
        (48 + value as u8) as char
    } else if value < 36 {
        (55 + value as u8) as char
    } else {
        (61 + value as u8) as char
    }
}

/// The midpoint digits from position `i` on; see [`mid_digits`].
fn mid_exec(left: &str, right: &str, i: usize, tight: bool) -> (s: String)
    requires
        valid_digits(left@),
        valid_digits(right@),
        i <= left@.len() + right@.len(),
    ensures
        s@ == mid_digits(left@, right@, i as int, tight),
    decreases left@.len() + right@.len() - i,
{
    let left_len = left.unicode_len();
    let right_len = right.unicode_len();
    let lv: u32 = if i < left_len {
        let c = left.get_char(i);
        proof {
            assert(is_digit(left@[i as int]));
        }
        digit_to_value(c)
    } else {
        0
    };
    let rv: u32 = if tight && i < right_len {
        let c = right.get_char(i);
        proof {
            assert(is_digit(right@[i as int]));
        }
        digit_to_value(c)
    } else {
        62
    };
    proof {
        assert(lv == left_val(left@, i as int));
        assert(rv == right_val(right@, i as int, tight));
    }
    if lv + 1 < rv {
        let mut s = String::new();
        push_char(&mut s, value_to_char((lv + rv) / 2));
        proof {
            assert(s@ =~= seq![digit_char((lv + rv) as int / 2)]);
        }
        s
    } else if lv < rv {
        proof {
            if !(i < left_len || (tight && i < right_len)) {
                assert(lv == 0 && rv == 62);
            }
        }
        let mut s = String::new();
        push_char(&mut s, value_to_char(lv));
        let rest = mid_exec(left, right, i + 1, false);
        s.append(rest.as_str());
        proof {
            assert(s@ =~= seq![digit_char(lv as int)] + mid_digits(
                left@,
                right@,
                i + 1,
                false,
            ));
        }
        s
    } else if lv == rv {
        proof {
            assert(tight && i < right_len);
        }
        let mut s = String::new();
        push_char(&mut s, value_to_char(lv));
        let rest = mid_exec(left, right, i + 1, tight);
        s.append(rest.as_str());
        proof {
            assert(s@ =~= seq![digit_char(lv as int)] + mid_digits(
                left@,
                right@,
                i + 1,
                tight,
            ));
        }
        s
    } else {
        String::new()
    }
}

/// A position key for ordering items in a list: a base-62 string compared
/// lexicographically.
#[derive(Debug)]
pub struct FractionalIndex {
    /// The raw base-62 digits.
    position: String,
}

impl View for FractionalIndex {
    type V = Seq<char>;

    closed spec fn view(&self) -> Seq<char> {
        self.position@
    }
}

impl Clone for FractionalIndex {
    /// Cloning preserves the position.
    fn clone(&self) -> (res: FractionalIndex)
        ensures
            res@ == self@,
    {
        FractionalIndex { position: self.position.clone() }
    }
}

impl PartialEq for FractionalIndex {
    fn eq(&self, other: &FractionalIndex) -> (r: bool) {
        self.position == other.position
    }
}

impl vstd::std_specs::cmp::PartialEqSpecImpl for FractionalIndex {
    open spec fn obeys_eq_spec() -> bool {
        true
    }

    open spec fn eq_spec(&self, other: &FractionalIndex) -> bool {
        self@ == other@
    }
}

impl PartialOrd for FractionalIndex {
    fn partial_cmp(&self, other: &FractionalIndex) -> (r: Option<core::cmp::Ordering>) {
        let ordering = cmp_str(self.position.as_str(), other.position.as_str());
        proof {
            lemma_lex_lt_total(self@, other@);
            if lex_lt(self@, other@) {
                lemma_lex_lt_asymmetric(self@, other@);
            }
            if lex_lt(other@, self@) {
                lemma_lex_lt_asymmetric(other@, self@);
            }
        }
        Some(ordering)
    }
}

impl vstd::std_specs::cmp::PartialOrdSpecImpl for FractionalIndex {
    open spec fn obeys_partial_cmp_spec() -> bool {
        true
    }

    open spec fn partial_cmp_spec(&self, other: &FractionalIndex) -> Option<core::cmp::Ordering> {
        if lex_lt(self@, other@) {
            Some(core::cmp::Ordering::Less)
        } else if lex_lt(other@, self@) {
            Some(core::cmp::Ordering::Greater)
        } else {
            Some(core::cmp::Ordering::Equal)
        }
    }
}

impl FractionalIndex {
    /// Well-formed: every character is a base-62 digit.
    pub open spec fn wf(self) -> bool {
        valid_digits(self@)
    }

    /// The first position in a list: the conventional starting key.
    pub fn first() -> (r: FractionalIndex)
        ensures
            r@ == "a0"@,
            r.wf(),
    {
        proof {
            reveal_strlit("a0");
        }
        FractionalIndex { position: "a0".to_owned() }
    }

    /// The last position in a list: a sentinel upper bound for generation.
    /// Larger keys exist; they are simply never produced by walking upward
    /// from the start.
    pub fn last() -> (r: FractionalIndex)
        ensures
            r@ == "zzzzzzzzzz"@,
            r.wf(),
    {
        proof {
            reveal_strlit("zzzzzzzzzz");
        }
        FractionalIndex { position: "zzzzzzzzzz".to_owned() }
    }

    /// Generate a position strictly between two ordered positions. Fails
    /// with an invalid-operation error exactly when the bounds are not
    /// strictly ordered. Whenever the right bound is not the left bound
    /// extended by zero digits — the one shape with nothing between — the
    /// result lies strictly between the bounds.
    pub fn between(left: &FractionalIndex, right: &FractionalIndex) -> (r: Result<
        FractionalIndex,
        SyncError,
    >)
        requires
            left.wf(),
            right.wf(),
        ensures
            r is Ok <==> lex_lt(left@, right@),
            r matches Err(e) ==> e is InvalidOperation,
            r matches Ok(m) ==> {
                &&& m@ == mid_digits(left@, right@, 0, true)
                &&& m.wf()
                &&& lex_lt(left@, m@)
                &&& (!zero_extension(left@, right@) ==> lex_lt(m@, right@))
            },
    {
        if !matches!(
            cmp_str(left.position.as_str(), right.position.as_str()),
            core::cmp::Ordering::Less
        ) {
            return Err(
                SyncError::InvalidOperation(
                    "left position must be strictly below right position".to_owned(),
                ),
            );
        }
        let midpoint = mid_exec(left.position.as_str(), right.position.as_str(), 0, true);
        proof {
            assert(suffix(left@, 0) =~= left@);
            assert(suffix(right@, 0) =~= right@);
            lemma_mid_digits_between(left@, right@, 0, true);
        }
        Ok(FractionalIndex { position: midpoint })
    }

    /// Generate a position after the given one, against the sentinel upper
    /// bound. Fails exactly when the position is not strictly below the
    /// sentinel.
    pub fn after(pos: &FractionalIndex) -> (r: Result<FractionalIndex, SyncError>)
        requires
            pos.wf(),
        ensures
            r is Ok <==> lex_lt(pos@, "zzzzzzzzzz"@),
            r matches Err(e) ==> e is InvalidOperation,
            r matches Ok(m) ==> m@ == mid_digits(pos@, "zzzzzzzzzz"@, 0, true) && m.wf() && lex_lt(
                pos@,
                m@,
            ) && (!zero_extension(pos@, "zzzzzzzzzz"@) ==> lex_lt(m@, "zzzzzzzzzz"@)),
    {
        FractionalIndex::between(pos, &FractionalIndex::last())
    }

    /// Generate a position before the given one, against the conventional
    /// starting key. Fails exactly when the position is not strictly above
    /// the starting key.
    pub fn before(pos: &FractionalIndex) -> (r: Result<FractionalIndex, SyncError>)
        requires
            pos.wf(),
        ensures
            r is Ok <==> lex_lt("a0"@, pos@),
            r matches Err(e) ==> e is InvalidOperation,
            r matches Ok(m) ==> m@ == mid_digits("a0"@, pos@, 0, true) && m.wf() && lex_lt(
                "a0"@,
                m@,
            ) && (!zero_extension("a0"@, pos@) ==> lex_lt(m@, pos@)),
    {
        FractionalIndex::between(&FractionalIndex::first(), pos)
    }

    /// The raw position string.
    pub fn as_str(&self) -> (r: &str)
        ensures
            r@ == self@,
    {
        self.position.as_str()
    }

    /// Rebuild a position from its raw digits, for deserialization. The
    /// digits must come from the base-62 set, as every serialized position
    /// does.
    pub fn from_str(position: String) -> (r: FractionalIndex)
        requires
            valid_digits(position@),
        ensures
            r@ == position@,
            r.wf(),
    {
        FractionalIndex { position }
    }
}

} // verus!
