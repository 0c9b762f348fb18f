//! Character-level utilities over `String` and `&str`: prefix tests,
//! concatenation, substring search, word splitting and lexicographic order.
//! Everything operates on the `Seq<char>` view of a string.

use vstd::prelude::*;
use vstd::string::StrSliceExecFns;
use vstd::string::StringExecFns;

verus! {

// ---------------------------------------------------------------------------
// character classes from std
// ---------------------------------------------------------------------------

/// What `char::is_whitespace` returns; it depends on the character alone.
pub uninterp spec fn is_whitespace_char(c: char) -> bool;

/// Relies on char::is_whitespace: whether the character has the Unicode
/// `White_Space` property.
pub assume_specification[ char::is_whitespace ](c: char) -> (r: bool)
    ensures
        r == is_whitespace_char(c),
;

/// What `char::is_lowercase` returns; it depends on the character alone.
pub uninterp spec fn is_lowercase_char(c: char) -> bool;

/// Relies on char::is_lowercase: whether the character is Unicode lowercase.
pub assume_specification[ char::is_lowercase ](c: char) -> (r: bool)
    ensures
        r == is_lowercase_char(c),
;

/// What `char::is_uppercase` returns; it depends on the character alone.
pub uninterp spec fn is_uppercase_char(c: char) -> bool;

/// Relies on char::is_uppercase: whether the character is Unicode uppercase.
pub assume_specification[ char::is_uppercase ](c: char) -> (r: bool)
    ensures
        r == is_uppercase_char(c),
;

/// What `char::is_alphanumeric` returns; it depends on the character alone.
pub uninterp spec fn is_alphanumeric_char(c: char) -> bool;

/// Relies on char::is_alphanumeric: whether the character is Unicode
/// alphabetic or numeric.
pub assume_specification[ char::is_alphanumeric ](c: char) -> (r: bool)
    ensures
        r == is_alphanumeric_char(c),
;

// ---------------------------------------------------------------------------
// building strings
// ---------------------------------------------------------------------------

/// Relies on String::push: appends exactly one character.
#[verifier::external_body]
pub fn push_char(s: &mut String, c: char)
    ensures
        final(s)@ == old(s)@.push(c),
{
    s.push(c);
}

/// The views of a sequence of strings.
pub open spec fn views_of(v: Seq<String>) -> Seq<Seq<char>> {
    v.map_values(|s: String| s@)
}

/// An element of a concatenation lies in one of the halves.
pub proof fn lemma_seq_contains_concat<A>(a: Seq<A>, b: Seq<A>, x: A)
    ensures
        (a + b).contains(x) == (a.contains(x) || b.contains(x)),
{
    if (a + b).contains(x) {
        let i = choose|i: int| 0 <= i < (a + b).len() && (a + b)[i] == x;
        if i < a.len() {
            assert(a[i] == x);
        } else {
            assert(b[i - a.len()] == x);
        }
    }
    if a.contains(x) {
        let i = choose|i: int| 0 <= i < a.len() && a[i] == x;
        assert((a + b)[i] == x);
    }
    if b.contains(x) {
        let i = choose|i: int| 0 <= i < b.len() && b[i] == x;
        assert((a + b)[a.len() + i] == x);
    }
}

/// The views of a pushed vector are the pushed views.
pub proof fn lemma_views_push(v: Seq<String>, x: String)
    ensures
        views_of(v.push(x)) == views_of(v).push(x@),
{
    assert(views_of(v.push(x)) =~= views_of(v).push(x@));
}

/// Pushing extends the element set by the new element.
pub proof fn lemma_to_set_push<A>(s: Seq<A>, x: A)
    ensures
        s.push(x).to_set() == s.to_set().insert(x),
{
    assert forall|y: A| s.push(x).to_set().contains(y) == s.to_set().insert(x).contains(y) by {
        if s.push(x).contains(y) {
            let i = choose|i: int| 0 <= i < s.push(x).len() && s.push(x)[i] == y;
            if i < s.len() {
                assert(s[i] == y);
                assert(s.contains(y));
            }
        }
        if s.contains(y) {
            let i = choose|i: int| 0 <= i < s.len() && s[i] == y;
            assert(s.push(x)[i] == y);
            assert(s.push(x).contains(y));
        }
        if y == x {
            assert(s.push(x)[s.len() as int] == y);
            assert(s.push(x).contains(y));
        }
    }
    assert(s.push(x).to_set() =~= s.to_set().insert(x));
}

/// Concatenation of two string slices.
pub fn str_concat(a: &str, b: &str) -> (r: String)
    ensures
        r@ == a@ + b@,
{
    let mut s = String::from_str(a);
    s.append(b);
    s
}

// ---------------------------------------------------------------------------
// prefix and equality tests
// ---------------------------------------------------------------------------

/// Whether `p` is a prefix of `s` (the executable form of
/// `p@.is_prefix_of(s@)`).
pub fn str_starts_with(s: &str, p: &str) -> (r: bool)
    ensures
        r == p@.is_prefix_of(s@),
{
    let sn: usize = s.unicode_len();
    let pn: usize = p.unicode_len();
    if pn > sn {
        assert(!p@.is_prefix_of(s@));
        return false;
    }
    let mut i: usize = 0;
    while i < pn
        invariant
            0 <= i <= pn <= sn,
            sn == s@.len(),
            pn == p@.len(),
            forall|j: int| 0 <= j < i ==> s@[j] == p@[j],
        decreases pn - i,
    {
        if s.get_char(i) != p.get_char(i) {
            assert(!p@.is_prefix_of(s@));
            return false;
        }
        i = i + 1;
    }
    assert(p@ =~= s@.subrange(0, pn as int));
    true
}

/// Character-for-character equality of two string slices.
pub fn str_eq(a: &str, b: &str) -> (r: bool)
    ensures
        r == (a@ == b@),
{
    let an: usize = a.unicode_len();
    let bn: usize = b.unicode_len();
    if an != bn {
        return false;
    }
    let mut i: usize = 0;
    while i < an
        invariant
            0 <= i <= an,
            an == a@.len() == b@.len(),
            forall|j: int| 0 <= j < i ==> a@[j] == b@[j],
        decreases an - i,
    {
        if a.get_char(i) != b.get_char(i) {
            assert(a@[i as int] != b@[i as int]);
            return false;
        }
        i = i + 1;
    }
    assert(a@ =~= b@);
    true
}

// ---------------------------------------------------------------------------
// substring search
// ---------------------------------------------------------------------------

/// `d` occurs in `s` starting at position `i`.
pub open spec fn occurs_at(s: Seq<char>, d: Seq<char>, i: int) -> bool {
    0 <= i && i + d.len() <= s.len() && s.subrange(i, i + d.len() as int) == d
}

/// `d` occurs somewhere in `s`.
pub open spec fn has_sub(s: Seq<char>, d: Seq<char>) -> bool {
    exists|i: int| occurs_at(s, d, i)
}

/// Whether `d` occurs in `s` at position `i` (executable).
pub fn occurs_at_exec(s: &str, d: &str, i: usize) -> (r: bool)
    requires
        i + d@.len() <= s@.len(),
    ensures
        r == occurs_at(s@, d@, i as int),
{
    let sn: usize = s.unicode_len();
    let dn: usize = d.unicode_len();
    let mut j: usize = 0;
    while j < dn
        invariant
            0 <= j <= dn,
            dn == d@.len(),
            sn == s@.len(),
            i + dn <= sn,
            forall|m: int| 0 <= m < j ==> s@[i + m] == d@[m],
        decreases dn - j,
    {
        if s.get_char(i + j) != d.get_char(j) {
            assert(s@.subrange(i as int, i + dn as int)[j as int] != d@[j as int]);
            return false;
        }
        j = j + 1;
    }
    assert(s@.subrange(i as int, i + dn as int) =~= d@);
    true
}

/// The position of the last occurrence of `d` in `s`, if any.
pub fn rfind_sub(s: &str, d: &str) -> (r: Option<usize>)
    requires
        d@.len() > 0,
    ensures
        match r {
            Some(i) => occurs_at(s@, d@, i as int) && (forall|j: int|
                i < j ==> !occurs_at(s@, d@, j)),
            None => !has_sub(s@, d@),
        },
{
    let sn: usize = s.unicode_len();
    let dn: usize = d.unicode_len();
    if dn > sn {
        assert(forall|j: int| occurs_at(s@, d@, j) ==> j + d@.len() <= s@.len());
        return None;
    }
    let mut i: usize = sn - dn + 1;
    while i > 0
        invariant
            0 <= i <= sn - dn + 1,
            sn == s@.len(),
            dn == d@.len(),
            dn <= sn,
            forall|j: int| i <= j ==> !occurs_at(s@, d@, j),
        decreases i,
    {
        i = i - 1;
        if occurs_at_exec(s, d, i) {
            return Some(i);
        }
    }
    assert(forall|j: int| occurs_at(s@, d@, j) ==> j >= 0);
    None
}

// ---------------------------------------------------------------------------
// lexicographic order
// ---------------------------------------------------------------------------

/// Strict lexicographic order on character sequences, by code point.
pub open spec fn lex_lt(a: Seq<char>, b: Seq<char>) -> bool
    decreases a.len(),
{
    if b.len() == 0 {
        false
    } else if a.len() == 0 {
        true
    } else if a[0] < b[0] {
        true
    } else if a[0] == b[0] {
        lex_lt(a.drop_first(), b.drop_first())
    } else {
        false
    }
}

/// Reflexive lexicographic order.
pub open spec fn lex_le(a: Seq<char>, b: Seq<char>) -> bool {
    lex_lt(a, b) || a == b
}

/// Exactly one of `lex_lt(a, b)`, `a == b`, `lex_lt(b, a)` holds.
pub proof fn lemma_lex_trichotomy(a: Seq<char>, b: Seq<char>)
    ensures
        lex_lt(a, b) || a == b || lex_lt(b, a),
        lex_lt(a, b) ==> a != b && !lex_lt(b, a),
        a == b ==> !lex_lt(a, b) && !lex_lt(b, a),
    decreases a.len(),
{
    if b.len() == 0 || a.len() == 0 {
        if a.len() == 0 && b.len() == 0 {
            assert(a =~= b);
        }
    } else {
        if a[0] == b[0] {
            lemma_lex_trichotomy(a.drop_first(), b.drop_first());
            if a.drop_first() == b.drop_first() {
                assert(a.len() == b.len());
                assert forall|m: int| 0 <= m < a.len() implies a[m] == b[m] by {
                    if m > 0 {
                        assert(a[m] == a.drop_first()[m - 1]);
                        assert(b[m] == b.drop_first()[m - 1]);
                    }
                }
                assert(a =~= b);
            }
            if a == b {
                assert(a.drop_first() =~= b.drop_first());
            }
        }
    }
}

/// Lexicographic order is transitive.
pub proof fn lemma_lex_lt_trans(a: Seq<char>, b: Seq<char>, c: Seq<char>)
    requires
        lex_lt(a, b),
        lex_lt(b, c),
    ensures
        lex_lt(a, c),
    decreases a.len(),
{
    if a.len() == 0 {
        assert(b.len() > 0);
    } else {
        assert(b.len() > 0 && c.len() > 0);
        if a[0] == b[0] && b[0] == c[0] {
            lemma_lex_lt_trans(a.drop_first(), b.drop_first(), c.drop_first());
        }
    }
}

/// Strict lexicographic comparison of two string slices.
pub fn str_lt(a: &str, b: &str) -> (r: bool)
    ensures
        r == lex_lt(a@, b@),
{
    let r = lex_lt_from(a, b, 0);
    proof {
        assert(a@.skip(0) =~= a@);
        assert(b@.skip(0) =~= b@);
    }
    r
}

fn lex_lt_from(a: &str, b: &str, i: usize) -> (r: bool)
    requires
        i <= a@.len(),
        i <= b@.len(),
    ensures
        r == lex_lt(a@.skip(i as int), b@.skip(i as int)),
    decreases a@.len() - i,
{
    let an: usize = a.unicode_len();
    let bn: usize = b.unicode_len();
    if i == bn {
        return false;
    }
    if i == an {
        return true;
    }
    let ca = a.get_char(i);
    let cb = b.get_char(i);
    if ca < cb {
        assert(a@.skip(i as int)[0] == ca && b@.skip(i as int)[0] == cb);
        true
    } else if ca == cb {
        let r = lex_lt_from(a, b, i + 1);
        assert(a@.skip(i as int).drop_first() =~= a@.skip(i + 1));
        assert(b@.skip(i as int).drop_first() =~= b@.skip(i + 1));
        r
    } else {
        assert(a@.skip(i as int)[0] == ca && b@.skip(i as int)[0] == cb);
        false
    }
}

/// Whether the views of `v` are sorted by `lex_le`.
pub open spec fn strings_sorted(v: Seq<Seq<char>>) -> bool {
    forall|i: int, j: int| 0 <= i < j < v.len() ==> lex_le(#[trigger] v[i], #[trigger] v[j])
}

/// The lexicographic order as a relation value.
pub open spec fn lex_le_fn() -> spec_fn(Seq<char>, Seq<char>) -> bool {
    |a: Seq<char>, b: Seq<char>| lex_le(a, b)
}

/// The canonical lexicographic sorting of a sequence of strings.
pub open spec fn sorted_lex(s: Seq<Seq<char>>) -> Seq<Seq<char>> {
    s.sort_by(lex_le_fn())
}

/// `lex_le` is a total order.
pub proof fn lemma_lex_total_ordering()
    ensures
        vstd::relations::total_ordering(lex_le_fn()),
{
    let r = lex_le_fn();
    assert forall|a: Seq<char>, b: Seq<char>| #[trigger] r(a, b) || #[trigger] r(b, a) by {
        lemma_lex_trichotomy(a, b);
    }
    assert forall|a: Seq<char>, b: Seq<char>| #[trigger] r(a, b) && #[trigger] r(b, a) implies a
        == b by {
        lemma_lex_trichotomy(a, b);
    }
    assert forall|a: Seq<char>, b: Seq<char>, c: Seq<char>|
        #[trigger] r(a, b) && #[trigger] r(b, c) implies r(a, c) by {
        lemma_lex_le_trans(a, b, c);
    }
}

/// A sorted sequence is determined by its multiset of elements.
pub proof fn lemma_sorted_unique(s1: Seq<Seq<char>>, s2: Seq<Seq<char>>)
    requires
        strings_sorted(s1),
        strings_sorted(s2),
        s1.to_multiset() == s2.to_multiset(),
    ensures
        s1 == s2,
    decreases s1.len(),
{
    broadcast use vstd::multiset::group_multiset_axioms;

    s1.to_multiset_ensures();
    s2.to_multiset_ensures();
    assert(s1.len() == s1.to_multiset().len());
    assert(s2.len() == s2.to_multiset().len());
    if s1.len() == 0 {
        assert(s1 =~= s2);
    } else {
        assert(s1.contains(s1[0]));
        assert(s1.to_multiset().count(s1[0]) > 0);
        assert(s2.to_multiset().count(s1[0]) > 0);
        assert(s2.contains(s1[0]));
        assert(s2.contains(s2[0]));
        assert(s2.to_multiset().count(s2[0]) > 0);
        assert(s1.to_multiset().count(s2[0]) > 0);
        assert(s1.contains(s2[0]));
        let i = choose|i: int| 0 <= i < s2.len() && s2[i] == s1[0];
        let j = choose|j: int| 0 <= j < s1.len() && s1[j] == s2[0];
        if i > 0 {
            assert(lex_le(s2[0], s2[i]));
        }
        if j > 0 {
            assert(lex_le(s1[0], s1[j]));
        }
        lemma_lex_trichotomy(s1[0], s2[0]);
        assert(s1[0] == s2[0]);
        assert(s1.remove(0).to_multiset() =~= s1.to_multiset().remove(s1[0]));
        assert(s2.remove(0).to_multiset() =~= s2.to_multiset().remove(s2[0]));
        assert(s1.remove(0) =~= s1.drop_first());
        assert(s2.remove(0) =~= s2.drop_first());
        assert(s1.drop_first().to_multiset() =~= s2.drop_first().to_multiset());
        assert(strings_sorted(s1.drop_first())) by {
            assert forall|p: int, q: int| 0 <= p < q < s1.drop_first().len() implies lex_le(
                #[trigger] s1.drop_first()[p],
                #[trigger] s1.drop_first()[q],
            ) by {
                assert(s1.drop_first()[p] == s1[p + 1]);
                assert(s1.drop_first()[q] == s1[q + 1]);
                assert(lex_le(s1[p + 1], s1[q + 1]));
            }
        }
        assert(strings_sorted(s2.drop_first())) by {
            assert forall|p: int, q: int| 0 <= p < q < s2.drop_first().len() implies lex_le(
                #[trigger] s2.drop_first()[p],
                #[trigger] s2.drop_first()[q],
            ) by {
                assert(s2.drop_first()[p] == s2[p + 1]);
                assert(s2.drop_first()[q] == s2[q + 1]);
                assert(lex_le(s2[p + 1], s2[q + 1]));
            }
        }
        lemma_sorted_unique(s1.drop_first(), s2.drop_first());
        assert forall|m: int| 0 <= m < s1.len() implies s1[m] == s2[m] by {
            if m > 0 {
                assert(s1[m] == s1.drop_first()[m - 1]);
                assert(s2[m] == s2.drop_first()[m - 1]);
            }
        }
        assert(s1 =~= s2);
    }
}

/// Any sorted rearrangement of `s` equals `sorted_lex(s)`.
pub proof fn lemma_sorted_lex_of(s: Seq<Seq<char>>, t: Seq<Seq<char>>)
    requires
        strings_sorted(t),
        t.to_multiset() == s.to_multiset(),
    ensures
        t == sorted_lex(s),
{
    lemma_lex_total_ordering();
    s.lemma_sort_by_ensures(lex_le_fn());
    assert(vstd::relations::sorted_by(sorted_lex(s), lex_le_fn()));
    assert(strings_sorted(sorted_lex(s))) by {
        assert forall|i: int, j: int| 0 <= i < j < sorted_lex(s).len() implies lex_le(
            #[trigger] sorted_lex(s)[i],
            #[trigger] sorted_lex(s)[j],
        ) by {
            assert(lex_le_fn()(sorted_lex(s)[i], sorted_lex(s)[j]));
        }
    }
    lemma_sorted_unique(t, sorted_lex(s));
}

/// Sorts a vector of strings lexicographically.
pub fn sort_strings(v: &mut Vec<String>)
    ensures
        views_of(final(v)@) == sorted_lex(views_of(old(v)@)),
{
    let ghost orig_views = views_of(v@);
    let mut out: Vec<String> = Vec::new();
    proof {
        broadcast use vstd::multiset::group_multiset_axioms;

        views_of(out@).to_multiset_ensures();
        assert(views_of(out@) =~= Seq::<Seq<char>>::empty());
        assert(views_of(out@).to_multiset().len() == 0);
        assert(views_of(out@).to_multiset().add(views_of(v@).to_multiset())
            =~= orig_views.to_multiset());
    }
    while v.len() > 0
        invariant
            views_of(out@).to_multiset().add(views_of(v@).to_multiset())
                == orig_views.to_multiset(),
            strings_sorted(views_of(out@)),
            forall|p: int, q: int|
                0 <= p < views_of(out@).len() && 0 <= q < views_of(v@).len() ==> lex_le(
                    #[trigger] views_of(out@)[p],
                    #[trigger] views_of(v@)[q],
                ),
        decreases v@.len(),
    {
        // find the least remaining string
        let mut best: usize = 0;
        let mut k: usize = 1;
        while k < v.len()
            invariant
                0 <= best < k <= v@.len(),
                v@.len() > 0,
                forall|m: int|
                    0 <= m < k ==> lex_le(views_of(v@)[best as int], #[trigger] views_of(v@)[m]),
            decreases v@.len() - k,
        {
            if str_lt(v[k].as_str(), v[best].as_str()) {
                proof {
                    lemma_lex_trichotomy(v@[k as int]@, v@[best as int]@);
                    assert forall|m: int| 0 <= m < k + 1 implies lex_le(
                        views_of(v@)[k as int],
                        #[trigger] views_of(v@)[m],
                    ) by {
                        if m < k {
                            lemma_lex_le_trans(
                                views_of(v@)[k as int],
                                views_of(v@)[best as int],
                                views_of(v@)[m],
                            );
                        }
                    }
                }
                best = k;
            } else {
                proof {
                    lemma_lex_trichotomy(v@[k as int]@, v@[best as int]@);
                }
            }
            k = k + 1;
        }
        let ghost pre = v@;
        let x = v.remove(best);
        let ghost mid = out@;
        out.push(x);
        proof {
            broadcast use vstd::multiset::group_multiset_axioms;

            views_of(pre).to_multiset_ensures();
            views_of(mid).to_multiset_ensures();
            assert(views_of(pre).remove(best as int).to_multiset() =~= views_of(pre).to_multiset()
                .remove(views_of(pre)[best as int]));
            assert(views_of(v@) =~= views_of(pre).remove(best as int));
            assert(views_of(out@) =~= views_of(mid).push(x@));
            assert(views_of(mid).push(x@).to_multiset() =~= views_of(mid).to_multiset().insert(
                x@,
            ));
            assert(views_of(pre).contains(views_of(pre)[best as int]));
            assert(views_of(pre).to_multiset().count(views_of(pre)[best as int]) > 0);
            assert(x@ == views_of(pre)[best as int]);
            assert(views_of(out@).to_multiset().add(views_of(v@).to_multiset())
                =~= orig_views.to_multiset());
            assert forall|p: int, q: int|
                0 <= p < q < views_of(out@).len() implies lex_le(
                #[trigger] views_of(out@)[p],
                #[trigger] views_of(out@)[q],
            ) by {
                if q == views_of(out@).len() - 1 {
                    assert(views_of(out@)[p] == views_of(mid)[p]);
                    assert(views_of(out@)[q] == views_of(pre)[best as int]);
                }
            }
            assert forall|p: int, q: int|
                0 <= p < views_of(out@).len() && 0 <= q < views_of(v@).len() implies lex_le(
                #[trigger] views_of(out@)[p],
                #[trigger] views_of(v@)[q],
            ) by {
                let ghost orig_q = if q < best as int {
                    q
                } else {
                    q + 1
                };
                assert(views_of(v@)[q] == views_of(pre)[orig_q]);
                if p == views_of(out@).len() - 1 {
                    assert(views_of(out@)[p] == views_of(pre)[best as int]);
                    assert(lex_le(views_of(pre)[best as int], views_of(pre)[orig_q]));
                } else {
                    assert(views_of(out@)[p] == views_of(mid)[p]);
                    assert(lex_le(views_of(mid)[p], views_of(pre)[orig_q]));
                }
            }
        }
    }
    proof {
        v@.to_multiset_ensures();
        assert(views_of(v@) =~= Seq::<Seq<char>>::empty());
        views_of(v@).to_multiset_ensures();
        assert(views_of(out@).to_multiset() =~= orig_views.to_multiset());
        lemma_sorted_lex_of(orig_views, views_of(out@));
    }
    *v = out;
}

/// `lex_le` is transitive.
pub proof fn lemma_lex_le_trans(a: Seq<char>, b: Seq<char>, c: Seq<char>)
    requires
        lex_le(a, b),
        lex_le(b, c),
    ensures
        lex_le(a, c),
{
    if lex_lt(a, b) && lex_lt(b, c) {
        lemma_lex_lt_trans(a, b, c);
    }
}

// ---------------------------------------------------------------------------
// words and lines
// ---------------------------------------------------------------------------

/// The words of `s` from position `i` on, with `cur` the partial word read
/// so far: maximal runs of non-whitespace characters.
pub open spec fn words_from(s: Seq<char>, i: int, cur: Seq<char>) -> Seq<Seq<char>>
    decreases s.len() - i,
{
    if i < 0 || i >= s.len() {
        if cur.len() > 0 {
            seq![cur]
        } else {
            Seq::empty()
        }
    } else if is_whitespace_char(s[i]) {
        if cur.len() > 0 {
            seq![cur] + words_from(s, i + 1, Seq::empty())
        } else {
            words_from(s, i + 1, Seq::empty())
        }
    } else {
        words_from(s, i + 1, cur.push(s[i]))
    }
}

/// The whitespace-separated words of `s`.
pub open spec fn spec_words(s: Seq<char>) -> Seq<Seq<char>> {
    words_from(s, 0, Seq::empty())
}

/// Splits `s` into its whitespace-separated words.
pub fn split_words(s: &str) -> (r: Vec<String>)
    ensures
        views_of(r@) == spec_words(s@),
{
    let n: usize = s.unicode_len();
    let mut out: Vec<String> = Vec::new();
    let mut cur: String = String::new();
    let mut i: usize = 0;
    while i < n
        invariant
            0 <= i <= n,
            n == s@.len(),
            views_of(out@) + words_from(s@, i as int, cur@) == spec_words(s@),
        decreases n - i,
    {
        let c = s.get_char(i);
        if c.is_whitespace() {
            if cur.unicode_len() > 0 {
                let ghost prev = views_of(out@);
                out.push(cur);
                proof {
                    assert(views_of(out@) =~= prev + seq![cur@]);
                    assert(views_of(out@) + words_from(s@, i + 1, Seq::empty()) =~= prev + (seq![
                        cur@,
                    ] + words_from(s@, i + 1, Seq::empty())));
                }
                cur = String::new();
            }
            proof {
                assert(cur@ =~= Seq::<char>::empty());
            }
        } else {
            push_char(&mut cur, c);
        }
        i = i + 1;
    }
    if cur.unicode_len() > 0 {
        let ghost prev = views_of(out@);
        out.push(cur);
        proof {
            assert(views_of(out@) =~= prev + seq![cur@]);
        }
    } else {
        proof {
            assert(views_of(out@) + words_from(s@, n as int, cur@) =~= views_of(out@));
        }
    }
    out
}

/// `cur` with one trailing carriage return removed, as the `lines` iterator
/// of `str` does at each line ending.
pub open spec fn strip_cr(l: Seq<char>) -> Seq<char> {
    if l.len() > 0 && l.last() == '\r' {
        l.drop_last()
    } else {
        l
    }
}

/// The lines of `s` from position `i` on, with `cur` the partial line read
/// so far: segments between newline characters, each with a trailing
/// carriage return removed.
pub open spec fn lines_from(s: Seq<char>, i: int, cur: Seq<char>) -> Seq<Seq<char>>
    decreases s.len() - i,
{
    if i < 0 || i >= s.len() {
        if cur.len() > 0 {
            seq![strip_cr(cur)]
        } else {
            Seq::empty()
        }
    } else if s[i] == '\n' {
        seq![strip_cr(cur)] + lines_from(s, i + 1, Seq::empty())
    } else {
        lines_from(s, i + 1, cur.push(s[i]))
    }
}

/// The lines of `s`, as `str::lines` yields them.
pub open spec fn spec_lines(s: Seq<char>) -> Seq<Seq<char>> {
    lines_from(s, 0, Seq::empty())
}

/// Removes one trailing carriage return, if present.
fn strip_cr_exec(l: String) -> (r: String)
    ensures
        r@ == strip_cr(l@),
{
    let n: usize = l.as_str().unicode_len();
    if n > 0 && l.as_str().get_char(n - 1) == '\r' {
        let r = String::from_str(l.as_str().substring_char(0, n - 1));
        proof {
            assert(l@.subrange(0, n - 1 as int) =~= l@.drop_last());
        }
        r
    } else {
        l
    }
}

/// Splits `s` into lines.
pub fn split_lines(s: &str) -> (r: Vec<String>)
    ensures
        views_of(r@) == spec_lines(s@),
{
    let n: usize = s.unicode_len();
    let mut out: Vec<String> = Vec::new();
    let mut cur: String = String::new();
    let mut i: usize = 0;
    while i < n
        invariant
            0 <= i <= n,
            n == s@.len(),
            views_of(out@) + lines_from(s@, i as int, cur@) == spec_lines(s@),
        decreases n - i,
    {
        let c = s.get_char(i);
        if c == '\n' {
            let line = strip_cr_exec(cur);
            let ghost prev = views_of(out@);
            out.push(line);
            proof {
                assert(views_of(out@) =~= prev + seq![strip_cr(cur@)]);
                assert(views_of(out@) + lines_from(s@, i + 1, Seq::empty()) =~= prev + (seq![
                    strip_cr(cur@),
                ] + lines_from(s@, i + 1, Seq::empty())));
            }
            cur = String::new();
            proof {
                assert(cur@ =~= Seq::<char>::empty());
            }
        } else {
            push_char(&mut cur, c);
        }
        i = i + 1;
    }
    if cur.unicode_len() > 0 {
        let line = strip_cr_exec(cur);
        let ghost prev = views_of(out@);
        out.push(line);
        proof {
            assert(views_of(out@) =~= prev + seq![strip_cr(cur@)]);
        }
    } else {
        proof {
            assert(views_of(out@) + lines_from(s@, n as int, cur@) =~= views_of(out@));
        }
    }
    out
}

// ---------------------------------------------------------------------------
// trimming
// ---------------------------------------------------------------------------

/// `s` with its leading whitespace removed.
pub open spec fn spec_trim_start(s: Seq<char>) -> Seq<char>
    decreases s.len(),
{
    if s.len() > 0 && is_whitespace_char(s[0]) {
        spec_trim_start(s.drop_first())
    } else {
        s
    }
}

proof fn lemma_trim_start_at(s: Seq<char>, i: int)
    requires
        0 <= i <= s.len(),
        forall|j: int| 0 <= j < i ==> is_whitespace_char(s[j]),
        i < s.len() ==> !is_whitespace_char(s[i]),
    ensures
        spec_trim_start(s) == s.skip(i),
    decreases i,
{
    if i == 0 {
        assert(s.skip(0) =~= s);
    } else {
        assert(is_whitespace_char(s[0]));
        lemma_trim_start_at(s.drop_first(), i - 1);
        assert(s.drop_first().skip(i - 1) =~= s.skip(i));
    }
}

/// Removes leading whitespace.
pub fn trim_start(s: &str) -> (r: String)
    ensures
        r@ == spec_trim_start(s@),
{
    let n: usize = s.unicode_len();
    let mut i: usize = 0;
    while i < n
        invariant
            0 <= i <= n,
            n == s@.len(),
            forall|j: int| 0 <= j < i ==> is_whitespace_char(s@[j]),
        decreases n - i,
    {
        if !s.get_char(i).is_whitespace() {
            let r = String::from_str(s.substring_char(i, n));
            proof {
                lemma_trim_start_at(s@, i as int);
                assert(s@.subrange(i as int, n as int) =~= s@.skip(i as int));
            }
            return r;
        }
        i = i + 1;
    }
    proof {
        lemma_trim_start_at(s@, n as int);
        assert(s@.subrange(n as int, n as int) =~= s@.skip(n as int));
    }
    String::from_str(s.substring_char(n, n))
}

/// Whether some string in `v` equals `s`.
pub fn vec_contains_str(v: &Vec<String>, s: &str) -> (r: bool)
    ensures
        r == views_of(v@).contains(s@),
{
    let mut i: usize = 0;
    while i < v.len()
        invariant
            0 <= i <= v@.len(),
            forall|j: int| 0 <= j < i ==> views_of(v@)[j] != s@,
        decreases v@.len() - i,
    {
        if str_eq(v[i].as_str(), s) {
            assert(views_of(v@)[i as int] == s@);
            return true;
        }
        i = i + 1;
    }
    false
}

} // verus!
