//! Abbreviation strategies: shortest unique prefixes, a second shortening
//! pass over near-identical prefixes, and vowel elision.

use vstd::prelude::*;
use vstd::string::StrSliceExecFns;
use vstd::string::StringExecFns;
use crate::strings::{
    lemma_to_set_push, lemma_views_push, push_char, str_starts_with, vec_contains_str, views_of,
};
use crate::strmap::StringMap;

verus! {

/// A string without its last character; a string of at most one character
/// stays as it is.
pub open spec fn spec_all_but_last(s: Seq<char>) -> Seq<char> {
    if s.len() <= 1 {
        s
    } else {
        s.drop_last()
    }
}

/// Removes the last character; keeps strings of at most one character.
pub fn all_but_last(s: &str) -> (r: String)
    ensures
        r@ == spec_all_but_last(s@),
{
    let n: usize = s.unicode_len();
    if n <= 1 {
        String::from_str(s)
    } else {
        let r = String::from_str(s.substring_char(0, n - 1));
        proof {
            assert(s@.subrange(0, n - 1 as int) =~= s@.drop_last());
        }
        r
    }
}

// ---------------------------------------------------------------------------
// unique prefixes
// ---------------------------------------------------------------------------

/// How many strings of `pool` start with `p` (with multiplicity).
pub open spec fn count_prefixed(pool: Seq<Seq<char>>, p: Seq<char>) -> nat
    decreases pool.len(),
{
    if pool.len() == 0 {
        0
    } else {
        count_prefixed(pool.drop_last(), p) + (if p.is_prefix_of(pool.last()) {
            1nat
        } else {
            0nat
        })
    }
}

/// Length `k` gives an acceptable prefix of `s`: not denied, and exactly one
/// string of the pool starts with it.
pub open spec fn good_prefix(pool: Seq<Seq<char>>, deny: Seq<Seq<char>>, s: Seq<char>, k: int) -> bool {
    1 <= k <= s.len() && !deny.contains(s.take(k)) && count_prefixed(pool, s.take(k)) == 1
}

/// The first acceptable prefix length at or after `k`, or the string's own
/// length when none is.
pub open spec fn first_good_from(
    pool: Seq<Seq<char>>,
    deny: Seq<Seq<char>>,
    s: Seq<char>,
    k: int,
) -> int
    decreases s.len() - k + 1,
{
    if k < 1 || k > s.len() {
        s.len() as int
    } else if good_prefix(pool, deny, s, k) {
        k
    } else {
        first_good_from(pool, deny, s, k + 1)
    }
}

/// The shortest prefix of `s` that is not denied and that, among the pool,
/// only `s` starts with; `s` itself when no prefix qualifies.
pub open spec fn unique_prefix(pool: Seq<Seq<char>>, deny: Seq<Seq<char>>, s: Seq<char>) -> Seq<
    char,
> {
    s.take(first_good_from(pool, deny, s, 1))
}

proof fn lemma_first_good_bounds(pool: Seq<Seq<char>>, deny: Seq<Seq<char>>, s: Seq<char>, k: int)
    ensures
        first_good_from(pool, deny, s, k) <= s.len(),
        k >= 1 ==> k <= first_good_from(pool, deny, s, k) || first_good_from(pool, deny, s, k)
            == s.len(),
    decreases s.len() - k + 1,
{
    if k < 1 || k > s.len() {
    } else if good_prefix(pool, deny, s, k) {
    } else {
        lemma_first_good_bounds(pool, deny, s, k + 1);
    }
}

proof fn lemma_first_good_is(
    pool: Seq<Seq<char>>,
    deny: Seq<Seq<char>>,
    s: Seq<char>,
    lo: int,
    k: int,
)
    requires
        1 <= lo <= k,
        forall|m: int| lo <= m < k ==> !good_prefix(pool, deny, s, m),
        good_prefix(pool, deny, s, k),
    ensures
        first_good_from(pool, deny, s, lo) == k,
    decreases k - lo,
{
    if lo == k {
    } else {
        lemma_first_good_is(pool, deny, s, lo + 1, k);
    }
}

proof fn lemma_first_good_none(pool: Seq<Seq<char>>, deny: Seq<Seq<char>>, s: Seq<char>, lo: int)
    requires
        1 <= lo,
        forall|m: int| lo <= m ==> !good_prefix(pool, deny, s, m),
    ensures
        first_good_from(pool, deny, s, lo) == s.len(),
    decreases s.len() - lo + 1,
{
    if lo > s.len() {
    } else {
        lemma_first_good_none(pool, deny, s, lo + 1);
    }
}

/// The assigned prefix really is a prefix of its string.
pub proof fn lemma_unique_prefix_shape(pool: Seq<Seq<char>>, deny: Seq<Seq<char>>, s: Seq<char>)
    ensures
        0 <= unique_prefix(pool, deny, s).len() <= s.len(),
        unique_prefix(pool, deny, s) == s.take(unique_prefix(pool, deny, s).len() as int),
        unique_prefix(pool, deny, s).is_prefix_of(s),
{
    lemma_first_good_bounds(pool, deny, s, 1);
    let fg = first_good_from(pool, deny, s, 1);
    assert(0 <= fg <= s.len());
    assert(s.take(fg).len() == fg);
    assert(s.take(fg) =~= s.subrange(0, fg));
}

/// Counts how many of `pool` start with `p`.
fn count_prefixed_exec(pool: &Vec<String>, p: &str) -> (r: usize)
    ensures
        r == count_prefixed(views_of(pool@), p@),
{
    let mut cnt: usize = 0;
    let mut i: usize = 0;
    while i < pool.len()
        invariant
            0 <= i <= pool@.len(),
            cnt == count_prefixed(views_of(pool@).take(i as int), p@),
            cnt <= i,
        decreases pool@.len() - i,
    {
        let ghost pre = views_of(pool@).take(i as int);
        let hit = str_starts_with(pool[i].as_str(), p);
        if hit {
            cnt = cnt + 1;
        }
        proof {
            assert(views_of(pool@).take(i + 1).drop_last() =~= pre);
            assert(views_of(pool@).take(i + 1).last() == views_of(pool@)[i as int]);
        }
        i = i + 1;
    }
    proof {
        assert(views_of(pool@).take(pool@.len() as int) =~= views_of(pool@));
    }
    cnt
}

/// Maps each input string to its shortest prefix that is not denied and that
/// no other input starts with; a string with no such prefix maps to itself.
pub fn unique_prefixes(strings: &Vec<String>, denylist: &Vec<String>) -> (r: StringMap)
    ensures
        r.wf(),
        forall|k: Seq<char>|
            r.as_map().dom().contains(k) == views_of(strings@).contains(k),
        forall|i: int|
            0 <= i < strings@.len() ==> r.as_map()[(#[trigger] strings@[i])@] == unique_prefix(
                views_of(strings@),
                views_of(denylist@),
                strings@[i]@,
            ),
{
    let ghost pool = views_of(strings@);
    let ghost deny = views_of(denylist@);
    let mut r = StringMap::new();
    let mut i: usize = 0;
    while i < strings.len()
        invariant
            0 <= i <= strings@.len(),
            pool == views_of(strings@),
            deny == views_of(denylist@),
            r.wf(),
            forall|k: Seq<char>|
                r.as_map().dom().contains(k) == views_of(strings@).take(i as int).contains(k),
            forall|j: int|
                0 <= j < i ==> r.as_map()[(#[trigger] strings@[j])@] == unique_prefix(
                    pool,
                    deny,
                    strings@[j]@,
                ),
        decreases strings@.len() - i,
    {
        let s: &String = &strings[i];
        let n: usize = s.as_str().unicode_len();
        let mut pfx: String = String::new();
        proof {
            assert(pfx@ =~= s@.take(0));
        }
        let mut k: usize = 0;
        let mut found: bool = false;
        while k < n && !found
            invariant
                0 <= k <= n,
                n == s@.len(),
                pool == views_of(strings@),
                deny == views_of(denylist@),
                pfx@ == s@.take(k as int),
                !found ==> forall|m: int| 1 <= m <= k ==> !good_prefix(pool, deny, s@, m),
                found ==> k >= 1 && good_prefix(pool, deny, s@, k as int) && (forall|m: int|
                    1 <= m < k ==> !good_prefix(pool, deny, s@, m)),
            decreases n - k,
        {
            push_char(&mut pfx, s.as_str().get_char(k));
            proof {
                assert(pfx@ =~= s@.take(k + 1));
            }
            k = k + 1;
            if !vec_contains_str(denylist, pfx.as_str()) {
                let cnt = count_prefixed_exec(strings, pfx.as_str());
                if cnt == 1 {
                    found = true;
                }
            }
        }
        let ghost fg = first_good_from(pool, deny, s@, 1);
        proof {
            if found {
                lemma_first_good_is(pool, deny, s@, 1, k as int);
                assert(fg == k as int);
            } else {
                assert(forall|m: int| 1 <= m ==> !good_prefix(pool, deny, s@, m));
                lemma_first_good_none(pool, deny, s@, 1);
                assert(fg == s@.len());
                assert(pfx@ =~= s@.take(fg));
            }
            assert(pfx@ == unique_prefix(pool, deny, s@));
        }
        let ghost before = r;
        r.insert(s.clone(), pfx);
        proof {
            assert forall|kk: Seq<char>|
                r.as_map().dom().contains(kk) == views_of(strings@).take(i + 1).contains(kk) by {
                if kk == s@ {
                    assert(views_of(strings@).take(i + 1)[i as int] == s@);
                    assert(views_of(strings@).take(i + 1).contains(s@));
                } else {
                    assert(r.as_map().dom().contains(kk) == before.as_map().dom().contains(kk));
                    assert forall|j: int|
                        0 <= j < i + 1 && #[trigger] views_of(strings@).take(i + 1)[j]
                            == kk implies views_of(strings@).take(i as int).contains(kk) by {
                        assert(j != i);
                        assert(views_of(strings@).take(i as int)[j] == kk);
                    }
                    if views_of(strings@).take(i as int).contains(kk) {
                        let j = choose|j: int|
                            0 <= j < i && views_of(strings@).take(i as int)[j] == kk;
                        assert(views_of(strings@).take(i + 1)[j] == kk);
                    }
                }
            }
            assert forall|j: int| 0 <= j < i + 1 implies r.as_map()[(#[trigger] strings@[j])@]
                == unique_prefix(pool, deny, strings@[j]@) by {
                if strings@[j]@ == s@ {
                    assert(r.as_map()[strings@[j]@] == pfx@);
                } else {
                    assert(j < i);
                    assert(r.as_map()[strings@[j]@] == before.as_map()[strings@[j]@]);
                }
            }
        }
        i = i + 1;
    }
    proof {
        assert(views_of(strings@).take(strings@.len() as int) =~= views_of(strings@));
    }
    r
}

// ---------------------------------------------------------------------------
// laws of the uniquifier
// ---------------------------------------------------------------------------

proof fn lemma_count_at_least_one(pool: Seq<Seq<char>>, p: Seq<char>, i: int)
    requires
        0 <= i < pool.len(),
        p.is_prefix_of(pool[i]),
    ensures
        count_prefixed(pool, p) >= 1,
    decreases pool.len(),
{
    if i == pool.len() - 1 {
    } else {
        assert(pool.drop_last()[i] == pool[i]);
        lemma_count_at_least_one(pool.drop_last(), p, i);
    }
}

proof fn lemma_count_at_least_two(pool: Seq<Seq<char>>, p: Seq<char>, i: int, j: int)
    requires
        0 <= i < j < pool.len(),
        p.is_prefix_of(pool[i]),
        p.is_prefix_of(pool[j]),
    ensures
        count_prefixed(pool, p) >= 2,
    decreases pool.len(),
{
    if j == pool.len() - 1 {
        assert(pool.drop_last()[i] == pool[i]);
        lemma_count_at_least_one(pool.drop_last(), p, i);
    } else {
        assert(pool.drop_last()[i] == pool[i]);
        assert(pool.drop_last()[j] == pool[j]);
        lemma_count_at_least_two(pool.drop_last(), p, i, j);
    }
}

proof fn lemma_first_good_found(pool: Seq<Seq<char>>, deny: Seq<Seq<char>>, s: Seq<char>, lo: int)
    requires
        1 <= lo,
        exists|k: int| lo <= k && good_prefix(pool, deny, s, k),
    ensures
        good_prefix(pool, deny, s, first_good_from(pool, deny, s, lo)),
    decreases s.len() - lo + 1,
{
    let k0 = choose|k: int| lo <= k && good_prefix(pool, deny, s, k);
    assert(k0 <= s.len());
    if good_prefix(pool, deny, s, lo) {
    } else {
        assert(k0 >= lo + 1);
        lemma_first_good_found(pool, deny, s, lo + 1);
    }
}

/// A string with an acceptable prefix is assigned one: not denylisted, and
/// borne by exactly one pool string.
pub proof fn lemma_unique_prefix_good(pool: Seq<Seq<char>>, deny: Seq<Seq<char>>, s: Seq<char>)
    requires
        exists|k: int| 1 <= k && good_prefix(pool, deny, s, k),
    ensures
        !deny.contains(unique_prefix(pool, deny, s)),
        count_prefixed(pool, unique_prefix(pool, deny, s)) == 1,
{
    lemma_first_good_found(pool, deny, s, 1);
}

/// Law: for two distinct pool strings that each have an acceptable prefix,
/// the Prefix Uniquifier assigns different prefixes, and neither is in the
/// denylist.
pub proof fn lemma_unique_prefixes_distinct(
    pool: Seq<Seq<char>>,
    deny: Seq<Seq<char>>,
    s: Seq<char>,
    t: Seq<char>,
)
    requires
        pool.contains(s),
        pool.contains(t),
        s != t,
        exists|k: int| 1 <= k && good_prefix(pool, deny, s, k),
        exists|k: int| 1 <= k && good_prefix(pool, deny, t, k),
    ensures
        unique_prefix(pool, deny, s) != unique_prefix(pool, deny, t),
        !deny.contains(unique_prefix(pool, deny, s)),
{
    lemma_first_good_found(pool, deny, s, 1);
    lemma_first_good_found(pool, deny, t, 1);
    let ps = unique_prefix(pool, deny, s);
    let pt = unique_prefix(pool, deny, t);
    assert(count_prefixed(pool, ps) == 1);
    if ps == pt {
        let i = choose|i: int| 0 <= i < pool.len() && pool[i] == s;
        let j = choose|j: int| 0 <= j < pool.len() && pool[j] == t;
        assert(i != j);
        assert(ps.is_prefix_of(s)) by {
            assert(ps == s.take(first_good_from(pool, deny, s, 1)));
            assert(s.take(first_good_from(pool, deny, s, 1)) =~= s.subrange(
                0,
                first_good_from(pool, deny, s, 1),
            ));
        }
        assert(pt.is_prefix_of(t)) by {
            assert(t.take(first_good_from(pool, deny, t, 1)) =~= t.subrange(
                0,
                first_good_from(pool, deny, t, 1),
            ));
        }
        if i < j {
            lemma_count_at_least_two(pool, ps, i, j);
        } else {
            lemma_count_at_least_two(pool, ps, j, i);
        }
    }
}

proof fn lemma_concat_contains<A>(a: Seq<A>, b: Seq<A>, x: A)
    ensures
        (a + b).contains(x) == (a.contains(x) || b.contains(x)),
{
    if (a + b).contains(x) {
        let i = choose|i: int| 0 <= i < (a + b).len() && (a + b)[i] == x;
        if i < a.len() {
            assert(a[i] == x);
        } else {
            assert(b[i - a.len()] == x);
        }
    }
    if a.contains(x) {
        let i = choose|i: int| 0 <= i < a.len() && a[i] == x;
        assert((a + b)[i] == x);
    }
    if b.contains(x) {
        let i = choose|i: int| 0 <= i < b.len() && b[i] == x;
        assert((a + b)[a.len() + i] == x);
    }
}

proof fn lemma_absorption_step(pool: Seq<Seq<char>>, deny: Seq<Seq<char>>, s: Seq<char>, k: int)
    requires
        pool.contains(s),
        1 <= k,
    ensures
        first_good_from(pool, deny + pool, s, k) == first_good_from(pool, deny, s, k),
    decreases s.len() - k + 1,
{
    let deny2 = deny + pool;
    if k > s.len() {
    } else {
        lemma_concat_contains(deny, pool, s.take(k));
        if k == s.len() {
            // the prefix is the whole string, which the seeded denylist holds;
            // with or without it, the fallback is the string's own length
            assert(s.take(k) =~= s);
            assert(deny2.contains(s));
            assert(!good_prefix(pool, deny2, s, k));
            assert(first_good_from(pool, deny2, s, k) == first_good_from(pool, deny2, s, k + 1));
            assert(first_good_from(pool, deny2, s, k + 1) == s.len());
            if good_prefix(pool, deny, s, k) {
            } else {
                assert(first_good_from(pool, deny, s, k) == first_good_from(pool, deny, s, k + 1));
                assert(first_good_from(pool, deny, s, k + 1) == s.len());
            }
        } else {
            if pool.contains(s.take(k)) {
                // a pool string is itself this prefix, so at least two pool
                // strings start with it and the length fails either way
                let i = choose|i: int| 0 <= i < pool.len() && pool[i] == s.take(k);
                let j = choose|j: int| 0 <= j < pool.len() && pool[j] == s;
                assert(s.take(k).len() == k < s.len());
                assert(i != j);
                assert(s.take(k).is_prefix_of(pool[i])) by {
                    assert(s.take(k).is_prefix_of(s.take(k)));
                }
                assert(s.take(k).is_prefix_of(pool[j])) by {
                    assert(s.take(k) =~= s.subrange(0, k));
                }
                if i < j {
                    lemma_count_at_least_two(pool, s.take(k), i, j);
                } else {
                    lemma_count_at_least_two(pool, s.take(k), j, i);
                }
                assert(!good_prefix(pool, deny, s, k));
                assert(!good_prefix(pool, deny2, s, k));
                lemma_absorption_step(pool, deny, s, k + 1);
            } else {
                assert(deny2.contains(s.take(k)) == deny.contains(s.take(k)));
                assert(good_prefix(pool, deny2, s, k) == good_prefix(pool, deny, s, k));
                if good_prefix(pool, deny, s, k) {
                } else {
                    lemma_absorption_step(pool, deny, s, k + 1);
                }
            }
        }
    }
}

/// Law: seeding the denylist with the pool itself is absorbed: running the
/// Prefix Uniquifier with the input strings added to the denylist assigns
/// every pool string the same prefix as running it without them.
pub proof fn lemma_unique_prefixes_denylist_absorption(
    pool: Seq<Seq<char>>,
    deny: Seq<Seq<char>>,
    s: Seq<char>,
)
    requires
        pool.contains(s),
    ensures
        unique_prefix(pool, deny + pool, s) == unique_prefix(pool, deny, s),
{
    lemma_absorption_step(pool, deny, s, 1);
}

// ---------------------------------------------------------------------------
// vowel elision
// ---------------------------------------------------------------------------

/// The five vowels this strategy strips.
pub open spec fn spec_is_vowel(c: char) -> bool {
    c == 'a' || c == 'e' || c == 'i' || c == 'o' || c == 'u'
}

/// Whether `c` is a vowel.
pub fn is_vowel(c: char) -> (r: bool)
    ensures
        r == spec_is_vowel(c),
{
    c == 'a' || c == 'e' || c == 'i' || c == 'o' || c == 'u'
}

/// `s` with its vowels removed.
pub open spec fn devowel(s: Seq<char>) -> Seq<char>
    decreases s.len(),
{
    if s.len() == 0 {
        Seq::empty()
    } else {
        devowel(s.drop_last()) + (if spec_is_vowel(s.last()) {
            Seq::<char>::empty()
        } else {
            seq![s.last()]
        })
    }
}

/// A string takes part in the vowel-elision strategy when it is non-empty,
/// starts with a consonant, and no other pool string strips to the same form.
pub open spec fn devowel_eligible(pool: Seq<Seq<char>>, s: Seq<char>) -> bool {
    s.len() > 0 && !spec_is_vowel(s[0]) && !(exists|t: Seq<char>|
        pool.contains(t) && t != s && devowel(t) == devowel(s))
}

/// Strips the vowels out of `s`.
fn devowel_exec(s: &str) -> (r: String)
    ensures
        r@ == devowel(s@),
{
    let n: usize = s.unicode_len();
    let mut r = String::new();
    proof {
        assert(s@.take(0) =~= Seq::<char>::empty());
        assert(r@ =~= devowel(s@.take(0)));
    }
    let mut i: usize = 0;
    while i < n
        invariant
            0 <= i <= n,
            n == s@.len(),
            r@ == devowel(s@.take(i as int)),
        decreases n - i,
    {
        let c = s.get_char(i);
        proof {
            assert(s@.take(i + 1).drop_last() =~= s@.take(i as int));
            assert(s@.take(i + 1).last() == s@[i as int]);
        }
        if !is_vowel(c) {
            push_char(&mut r, c);
            proof {
                assert(r@ =~= devowel(s@.take(i + 1)));
            }
        } else {
            proof {
                assert(r@ =~= devowel(s@.take(i + 1)));
            }
        }
        i = i + 1;
    }
    proof {
        assert(s@.take(n as int) =~= s@);
    }
    r
}

/// Whether any pool string other than `s` itself strips to the same form.
fn devowel_collides(strings: &Vec<String>, s: &str) -> (r: bool)
    ensures
        r == exists|t: Seq<char>|
            views_of(strings@).contains(t) && t != s@ && devowel(t) == devowel(s@),
{
    let ds = devowel_exec(s);
    let mut j: usize = 0;
    while j < strings.len()
        invariant
            0 <= j <= strings@.len(),
            ds@ == devowel(s@),
            forall|m: int|
                0 <= m < j ==> !((#[trigger] strings@[m])@ != s@ && devowel(strings@[m]@) == devowel(
                    s@,
                )),
        decreases strings@.len() - j,
    {
        if !crate::strings::str_eq(strings[j].as_str(), s) {
            let dt = devowel_exec(strings[j].as_str());
            if dt == ds {
                proof {
                    assert(views_of(strings@).contains(strings@[j as int]@)) by {
                        assert(views_of(strings@)[j as int] == strings@[j as int]@);
                    }
                }
                return true;
            }
        }
        j = j + 1;
    }
    proof {
        assert forall|t: Seq<char>|
            views_of(strings@).contains(t) implies !(t != s@ && devowel(t) == devowel(s@)) by {
            let m = choose|m: int| 0 <= m < strings@.len() && views_of(strings@)[m] == t;
            assert(strings@[m]@ == t);
        }
    }
    false
}

/// Maps each eligible string to its vowel-stripped form: strings that are
/// empty, start with a vowel, or strip to the same form as another distinct
/// string are left out.
pub fn remove_vowels(strings: &Vec<String>) -> (r: StringMap)
    ensures
        r.wf(),
        forall|k: Seq<char>| #![trigger r.as_map().dom().contains(k)]
            r.as_map().dom().contains(k) == (views_of(strings@).contains(k) && devowel_eligible(
                views_of(strings@),
                k,
            )),
        forall|k: Seq<char>| #![trigger r.as_map()[k]]
            r.as_map().dom().contains(k) ==> r.as_map()[k] == devowel(k),
{
    let ghost pool = views_of(strings@);
    let mut r = StringMap::new();
    let mut i: usize = 0;
    while i < strings.len()
        invariant
            0 <= i <= strings@.len(),
            pool == views_of(strings@),
            r.wf(),
            forall|k: Seq<char>| #![trigger r.as_map().dom().contains(k)]
                r.as_map().dom().contains(k) == (views_of(strings@).take(i as int).contains(k)
                    && devowel_eligible(pool, k)),
            forall|k: Seq<char>| #![trigger r.as_map()[k]]
                r.as_map().dom().contains(k) ==> r.as_map()[k] == devowel(k),
        decreases strings@.len() - i,
    {
        let s: &String = &strings[i];
        let n: usize = s.as_str().unicode_len();
        let eligible: bool = if n == 0 {
            false
        } else if is_vowel(s.as_str().get_char(0)) {
            false
        } else {
            !devowel_collides(strings, s.as_str())
        };
        let ghost before = r;
        if eligible {
            let d = devowel_exec(s.as_str());
            r.insert(s.clone(), d);
        }
        proof {
            assert(views_of(strings@)[i as int] == strings@[i as int]@);
            assert(views_of(strings@).take(i + 1)[i as int] == s@);
            assert(views_of(strings@).contains(s@));
            if eligible {
                assert(s@.len() > 0);
                assert(!spec_is_vowel(s@[0]));
                assert(devowel_eligible(pool, s@));
            } else {
                assert(!devowel_eligible(pool, s@));
            }
            assert forall|k: Seq<char>| #[trigger]
                r.as_map().dom().contains(k) == (views_of(strings@).take(i + 1).contains(k)
                    && devowel_eligible(pool, k)) by {
                if k == s@ {
                    assert(views_of(strings@).take(i + 1).contains(s@));
                    if !eligible {
                        assert(!devowel_eligible(pool, s@));
                        assert(!r.as_map().dom().contains(s@));
                    }
                } else {
                    assert(r.as_map().dom().contains(k) == before.as_map().dom().contains(k));
                    assert(before.as_map().dom().contains(k) == (views_of(strings@).take(
                        i as int,
                    ).contains(k) && devowel_eligible(pool, k)));
                    assert(views_of(strings@).take(i + 1).contains(k) == views_of(
                        strings@,
                    ).take(i as int).contains(k)) by {
                        if views_of(strings@).take(i + 1).contains(k) {
                            let j = choose|j: int|
                                0 <= j < i + 1 && #[trigger] views_of(strings@).take(i + 1)[j]
                                    == k;
                            assert(j != i);
                            assert(views_of(strings@).take(i as int)[j] == k);
                            assert(views_of(strings@).take(i as int).contains(k));
                        }
                        if views_of(strings@).take(i as int).contains(k) {
                            let j = choose|j: int|
                                0 <= j < i && #[trigger] views_of(strings@).take(i as int)[j]
                                    == k;
                            assert(views_of(strings@).take(i + 1)[j] == k);
                            assert(views_of(strings@).take(i + 1).contains(k));
                        }
                    }
                }
            }
        }
        i = i + 1;
    }
    proof {
        assert(views_of(strings@).take(strings@.len() as int) =~= views_of(strings@));
    }
    r
}

/// Each string's vowel-elision abbreviation: its vowel-stripped form when it
/// is eligible, the string itself otherwise.
pub fn do_remove_vowels(strings: &Vec<String>) -> (r: Vec<String>)
    ensures
        r@.len() == strings@.len(),
        forall|i: int|
            0 <= i < strings@.len() ==> (#[trigger] r@[i])@ == (if devowel_eligible(
                views_of(strings@),
                strings@[i]@,
            ) {
                devowel(strings@[i]@)
            } else {
                strings@[i]@
            }),
{
    let shortened = remove_vowels(strings);
    let mut r: Vec<String> = Vec::new();
    let mut i: usize = 0;
    while i < strings.len()
        invariant
            0 <= i <= strings@.len(),
            shortened.wf(),
            forall|k: Seq<char>| #![trigger shortened.as_map().dom().contains(k)]
                shortened.as_map().dom().contains(k) == (views_of(strings@).contains(k)
                    && devowel_eligible(views_of(strings@), k)),
            forall|k: Seq<char>| #![trigger shortened.as_map()[k]]
                shortened.as_map().dom().contains(k) ==> shortened.as_map()[k] == devowel(k),
            r@.len() == i,
            forall|j: int|
                0 <= j < i ==> (#[trigger] r@[j])@ == (if devowel_eligible(
                    views_of(strings@),
                    strings@[j]@,
                ) {
                    devowel(strings@[j]@)
                } else {
                    strings@[j]@
                }),
        decreases strings@.len() - i,
    {
        proof {
            assert(views_of(strings@)[i as int] == strings@[i as int]@);
        }
        match shortened.get(strings[i].as_str()) {
            Some(shorter) => {
                r.push(shorter.clone());
            },
            None => {
                r.push(strings[i].clone());
            },
        }
        i = i + 1;
    }
    r
}

// ---------------------------------------------------------------------------
// the second shortening pass
// ---------------------------------------------------------------------------

/// Whether `p` belongs to the group around `pfx`: same length, sharing all
/// characters but the last.
pub open spec fn in_group(pfx: Seq<char>, p: Seq<char>) -> bool {
    spec_all_but_last(pfx).is_prefix_of(p) && p.len() == pfx.len()
}

/// The members of the group around `pfx` among the first `j` strings of the
/// pool, in pool order.
pub open spec fn group_upto(pool: Seq<Seq<char>>, pfx: Seq<char>, j: int) -> Seq<Seq<char>>
    decreases j,
{
    if j <= 0 {
        Seq::empty()
    } else {
        group_upto(pool, pfx, j - 1) + (if in_group(pfx, pool[j - 1]) {
            seq![pool[j - 1]]
        } else {
            Seq::empty()
        })
    }
}

/// The whole group around `pfx`.
pub open spec fn group_of(pool: Seq<Seq<char>>, pfx: Seq<char>) -> Seq<Seq<char>> {
    group_upto(pool, pfx, pool.len() as int)
}

/// The code a group member gets: the shared stem of length `l` plus the
/// member's own last character.
pub open spec fn group_code(pfx: Seq<char>, l: int, sim: Seq<char>) -> Seq<char> {
    pfx.take(l).push(sim.last())
}

/// With stem length `l`, every member's code avoids both the taken set and
/// the denylist.
pub open spec fn group_ok(
    group: Seq<Seq<char>>,
    taken: Set<Seq<char>>,
    deny: Seq<Seq<char>>,
    pfx: Seq<char>,
    l: int,
) -> bool {
    forall|j: int|
        0 <= j < group.len() ==> !taken.contains(#[trigger] group_code(pfx, l, group[j]))
            && !deny.contains(group_code(pfx, l, group[j]))
}

/// The first stem length at or after `l` whose codes are all free, if the
/// stem reaches it before only the last character would remain.
pub open spec fn find_stem(
    group: Seq<Seq<char>>,
    taken: Set<Seq<char>>,
    deny: Seq<Seq<char>>,
    pfx: Seq<char>,
    l: int,
) -> Option<int>
    decreases pfx.len() - l,
{
    if l < 1 || l + 1 >= pfx.len() {
        None
    } else if group_ok(group, taken, deny, pfx, l) {
        Some(l)
    } else {
        find_stem(group, taken, deny, pfx, l + 1)
    }
}

/// Binds every member of `group` (in order) to its code.
pub open spec fn commit_group(
    m: Map<Seq<char>, Seq<char>>,
    group: Seq<Seq<char>>,
    pfx: Seq<char>,
    l: int,
) -> Map<Seq<char>, Seq<char>>
    decreases group.len(),
{
    if group.len() == 0 {
        m
    } else {
        commit_group(m, group.drop_last(), pfx, l).insert(
            group.last(),
            group_code(pfx, l, group.last()),
        )
    }
}

/// Marks every member's code as taken.
pub open spec fn commit_taken(
    t: Set<Seq<char>>,
    group: Seq<Seq<char>>,
    pfx: Seq<char>,
    l: int,
) -> Set<Seq<char>>
    decreases group.len(),
{
    if group.len() == 0 {
        t
    } else {
        commit_taken(t, group.drop_last(), pfx, l).insert(group_code(pfx, l, group.last()))
    }
}

/// The state of the shortening pass after the first `i` prefixes: the codes
/// assigned so far, and the set of strings no new code may collide with
/// (seeded with all the prefixes themselves).
pub open spec fn shorten_state(pool: Seq<Seq<char>>, deny: Seq<Seq<char>>, i: int) -> (
    Map<Seq<char>, Seq<char>>,
    Set<Seq<char>>,
)
    decreases i,
{
    if i <= 0 {
        (Map::<Seq<char>, Seq<char>>::empty(), pool.to_set())
    } else {
        let (m, taken) = shorten_state(pool, deny, i - 1);
        let pfx = pool[i - 1];
        if pfx.len() <= 2 || m.dom().contains(pfx) {
            (m, taken)
        } else {
            let group = group_of(pool, pfx);
            match find_stem(group, taken, deny, pfx, 1) {
                Option::None => (m, taken),
                Option::Some(l) => (
                    commit_group(m, group, pfx, l),
                    commit_taken(taken, group, pfx, l),
                ),
            }
        }
    }
}

/// What the shortening pass assigns: a group of same-length prefixes sharing
/// their stem is rebound, atomically, to stem-plus-distinguishing-character
/// codes whenever all its codes are simultaneously free.
pub open spec fn shorten_map(pool: Seq<Seq<char>>, deny: Seq<Seq<char>>) -> Map<
    Seq<char>,
    Seq<char>,
> {
    shorten_state(pool, deny, pool.len() as int).0
}

proof fn lemma_group_members(pool: Seq<Seq<char>>, pfx: Seq<char>, j: int)
    ensures
        forall|m: int|
            0 <= m < group_upto(pool, pfx, j).len() ==> in_group(
                pfx,
                #[trigger] group_upto(pool, pfx, j)[m],
            ),
    decreases j,
{
    if j > 0 {
        lemma_group_members(pool, pfx, j - 1);
        let g0 = group_upto(pool, pfx, j - 1);
        let g = group_upto(pool, pfx, j);
        assert forall|m: int| 0 <= m < g.len() implies in_group(pfx, #[trigger] g[m]) by {
            if m < g0.len() {
                assert(g[m] == g0[m]);
            } else {
                assert(in_group(pfx, pool[j - 1]));
                assert(g[m] == pool[j - 1]);
            }
        }
    }
}

proof fn lemma_find_stem_at(
    group: Seq<Seq<char>>,
    taken: Set<Seq<char>>,
    deny: Seq<Seq<char>>,
    pfx: Seq<char>,
    lo: int,
    l: int,
)
    requires
        1 <= lo <= l,
        l + 1 < pfx.len(),
        forall|m: int| lo <= m < l ==> !group_ok(group, taken, deny, pfx, m),
        group_ok(group, taken, deny, pfx, l),
    ensures
        find_stem(group, taken, deny, pfx, lo) == Option::Some(l),
    decreases l - lo,
{
    if lo == l {
    } else {
        lemma_find_stem_at(group, taken, deny, pfx, lo + 1, l);
    }
}

proof fn lemma_find_stem_none(
    group: Seq<Seq<char>>,
    taken: Set<Seq<char>>,
    deny: Seq<Seq<char>>,
    pfx: Seq<char>,
    lo: int,
    l: int,
)
    requires
        1 <= lo <= l,
        l + 1 >= pfx.len(),
        forall|m: int| lo <= m < l ==> !group_ok(group, taken, deny, pfx, m),
    ensures
        find_stem(group, taken, deny, pfx, lo) == Option::<int>::None,
    decreases l - lo,
{
    if lo == l || lo + 1 >= pfx.len() {
    } else {
        lemma_find_stem_none(group, taken, deny, pfx, lo + 1, l);
    }
}

/// Once strings have been shortened with `unique_prefixes`, shortens them
/// further: each prefix of length three or more is grouped with the prefixes
/// of the same length sharing all but its last character, and the group is
/// rebound to first-character-plus-last-character codes, the stem growing
/// until every code in the group is free of the taken set and the denylist.
pub fn shorten_unique_prefixes(pfxs: &Vec<String>, denylist: &Vec<String>) -> (r: StringMap)
    ensures
        r.wf(),
        r.as_map() == shorten_map(views_of(pfxs@), views_of(denylist@)),
{
    let ghost pool = views_of(pfxs@);
    let ghost deny = views_of(denylist@);
    let mut result = StringMap::new();
    let mut taken: Vec<String> = Vec::new();
    let mut t: usize = 0;
    while t < pfxs.len()
        invariant
            0 <= t <= pfxs@.len(),
            pool == views_of(pfxs@),
            views_of(taken@) == pool.take(t as int),
        decreases pfxs@.len() - t,
    {
        let ghost tk0 = taken@;
        let x = pfxs[t].clone();
        taken.push(x);
        proof {
            lemma_views_push(tk0, x);
            assert(views_of(taken@) =~= pool.take(t + 1));
        }
        t = t + 1;
    }
    proof {
        assert(pool.take(pool.len() as int) =~= pool);
        assert(views_of(taken@).to_set() =~= shorten_state(pool, deny, 0).1);
    }
    let mut i: usize = 0;
    while i < pfxs.len()
        invariant
            0 <= i <= pfxs@.len(),
            pool == views_of(pfxs@),
            deny == views_of(denylist@),
            result.wf(),
            (result.as_map(), views_of(taken@).to_set()) == shorten_state(pool, deny, i as int),
        decreases pfxs@.len() - i,
    {
        let ghost st = shorten_state(pool, deny, i as int);
        let pfx: &String = &pfxs[i];
        let n: usize = pfx.as_str().unicode_len();
        if n <= 2 || result.contains_key(pfx.as_str()) {
            i = i + 1;
            continue ;
        }
        let but_last = all_but_last(pfx.as_str());
        // the group of same-length prefixes sharing all but the last character
        let mut similar: Vec<String> = Vec::new();
        let mut j: usize = 0;
        while j < pfxs.len()
            invariant
                0 <= j <= pfxs@.len(),
                pool == views_of(pfxs@),
                n == pfx@.len(),
                but_last@ == spec_all_but_last(pfx@),
                views_of(similar@) == group_upto(pool, pfx@, j as int),
            decreases pfxs@.len() - j,
        {
            let ghost pre = views_of(similar@);
            if str_starts_with(pfxs[j].as_str(), but_last.as_str()) && pfxs[j].as_str().unicode_len()
                == n {
                similar.push(pfxs[j].clone());
                proof {
                    assert(views_of(similar@) =~= pre + seq![pool[j as int]]);
                }
            } else {
                proof {
                    assert(group_upto(pool, pfx@, j + 1) =~= pre);
                }
            }
            j = j + 1;
        }
        let ghost group = group_of(pool, pfx@);
        proof {
            assert(views_of(similar@) == group);
            lemma_group_members(pool, pfx@, pool.len() as int);
            assert(forall|m: int| 0 <= m < group.len() ==> (#[trigger] group[m]).len() == n);
        }
        // grow the shared stem until every code in the group is free
        let mut saved: String = String::from_str(pfx.as_str().substring_char(0, 1));
        proof {
            assert(saved@ =~= pfx@.take(1));
        }
        let mut l: usize = 1;
        loop
            invariant_except_break
                1 <= l,
                l + 1 <= n,
                n == pfx@.len(),
                n >= 3,
                pool == views_of(pfxs@),
                deny == views_of(denylist@),
                but_last@ == spec_all_but_last(pfx@),
                views_of(similar@) == group,
                group == group_of(pool, pfx@),
                forall|m: int| 0 <= m < group.len() ==> (#[trigger] group[m]).len() == n,
                saved@ == pfx@.take(l as int),
                result.wf(),
                (result.as_map(), views_of(taken@).to_set()) == st,
                st == shorten_state(pool, deny, i as int),
                i < pfxs@.len(),
                pfx@ == pool[i as int],
                n > 2 && !result.as_map().dom().contains(pfx@),
                forall|m: int|
                    1 <= m < l ==> !group_ok(group, views_of(taken@).to_set(), deny, pfx@, m),
            ensures
                result.wf(),
                (result.as_map(), views_of(taken@).to_set()) == shorten_state(pool, deny, i + 1),
            decreases n - l,
        {
            if l + 1 == n {
                proof {
                    lemma_find_stem_none(group, views_of(taken@).to_set(), deny, pfx@, 1, l as int);
                    assert(shorten_state(pool, deny, i + 1) == st);
                }
                break ;
            }
            // try to give every member of the group a free code
            let mut ok: bool = true;
            let mut k: usize = 0;
            while k < similar.len() && ok
                invariant
                    0 <= k <= similar@.len(),
                    views_of(similar@) == group,
                    saved@ == pfx@.take(l as int),
                    n == pfx@.len(),
                    n >= 3,
                    deny == views_of(denylist@),
                    forall|m: int|
                        0 <= m < group.len() ==> group[m].len() == n,
                    ok ==> forall|m: int|
                        0 <= m < k ==> !views_of(taken@).to_set().contains(
                            #[trigger] group_code(pfx@, l as int, group[m]),
                        ) && !deny.contains(group_code(pfx@, l as int, group[m])),
                    !ok ==> !group_ok(group, views_of(taken@).to_set(), deny, pfx@, l as int),
                decreases similar@.len() - k,
            {
                let sim: &String = &similar[k];
                proof {
                    assert(sim@ == group[k as int]);
                }
                let mut cand = saved.clone();
                let sl: usize = sim.as_str().unicode_len();
                push_char(&mut cand, sim.as_str().get_char(sl - 1));
                proof {
                    assert(cand@ == group_code(pfx@, l as int, group[k as int]));
                }
                if vec_contains_str(&taken, cand.as_str()) || vec_contains_str(
                    denylist,
                    cand.as_str(),
                ) {
                    ok = false;
                    proof {
                        if views_of(taken@).contains(cand@) {
                            assert(views_of(taken@).to_set().contains(cand@));
                        }
                        assert(!group_ok(group, views_of(taken@).to_set(), deny, pfx@, l as int))
                            by {
                            assert(views_of(taken@).to_set().contains(
                                group_code(pfx@, l as int, group[k as int]),
                            ) || deny.contains(group_code(pfx@, l as int, group[k as int])));
                        }
                    }
                } else {
                    proof {
                        assert(!views_of(taken@).to_set().contains(cand@));
                    }
                }
                k = k + 1;
            }
            if ok {
                proof {
                    assert(group_ok(group, views_of(taken@).to_set(), deny, pfx@, l as int));
                    lemma_find_stem_at(
                        group,
                        views_of(taken@).to_set(),
                        deny,
                        pfx@,
                        1,
                        l as int,
                    );
                }
                // commit the whole group at once
                let ghost taken0 = views_of(taken@).to_set();
                let ghost m0 = result.as_map();
                let mut c: usize = 0;
                while c < similar.len()
                    invariant
                        0 <= c <= similar@.len(),
                        views_of(similar@) == group,
                        saved@ == pfx@.take(l as int),
                        n == pfx@.len(),
                        n >= 3,
                        forall|m: int| 0 <= m < group.len() ==> group[m].len() == n,
                        result.wf(),
                        result.as_map() == commit_group(m0, group.take(c as int), pfx@, l as int),
                        views_of(taken@).to_set() == commit_taken(
                            taken0,
                            group.take(c as int),
                            pfx@,
                            l as int,
                        ),
                    decreases similar@.len() - c,
                {
                    let sim: &String = &similar[c];
                    proof {
                        assert(sim@ == group[c as int]);
                    }
                    let mut cand = saved.clone();
                    let sl: usize = sim.as_str().unicode_len();
                    push_char(&mut cand, sim.as_str().get_char(sl - 1));
                    proof {
                        assert(cand@ == group_code(pfx@, l as int, group[c as int]));
                        assert(group.take(c + 1).drop_last() =~= group.take(c as int));
                        assert(group.take(c + 1).last() == group[c as int]);
                    }
                    let ghost tk = taken@;
                    let cand2 = cand.clone();
                    taken.push(cand2);
                    proof {
                        lemma_views_push(tk, cand2);
                        lemma_to_set_push(views_of(tk), cand2@);
                        assert(views_of(taken@).to_set() == views_of(tk).to_set().insert(cand@));
                    }
                    result.insert(sim.clone(), cand);
                    c = c + 1;
                }
                proof {
                    assert(group.take(group.len() as int) =~= group);
                    assert(shorten_state(pool, deny, i + 1) == (
                        result.as_map(),
                        views_of(taken@).to_set(),
                    ));
                }
                break ;
            } else {
                let next = pfx.as_str().get_char(l);
                push_char(&mut saved, next);
                proof {
                    assert(saved@ =~= pfx@.take(l + 1));
                }
                l = l + 1;
            }
        }
        i = i + 1;
    }
    result
}

} // verus!
