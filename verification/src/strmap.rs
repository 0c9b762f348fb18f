//! A string-keyed map kept as a vector of entries with unique keys, in
//! insertion order. Contracts speak about it through `map_of`, its view as a
//! mathematical `Map<Seq<char>, Seq<char>>`.

use vstd::prelude::*;
use crate::strings::str_eq;

verus! {

/// The index of an entry with key `k` in an entry sequence.
pub open spec fn entry_index_of(s: Seq<(Seq<char>, Seq<char>)>, k: Seq<char>) -> int {
    choose|i: int| 0 <= i < s.len() && s[i].0 == k
}

/// Whether an entry sequence has an entry with key `k`.
pub open spec fn entries_contain_key(s: Seq<(Seq<char>, Seq<char>)>, k: Seq<char>) -> bool {
    exists|i: int| 0 <= i < s.len() && s[i].0 == k
}

/// The mathematical map an entry sequence with unique keys stands for.
pub open spec fn map_of(s: Seq<(Seq<char>, Seq<char>)>) -> Map<Seq<char>, Seq<char>> {
    Map::new(|k: Seq<char>| entries_contain_key(s, k), |k: Seq<char>| s[entry_index_of(s, k)].1)
}

/// Keys are pairwise distinct.
pub open spec fn entries_unique(s: Seq<(Seq<char>, Seq<char>)>) -> bool {
    forall|i: int, j: int| 0 <= i < j < s.len() ==> (#[trigger] s[i]).0 != (#[trigger] s[j]).0
}

/// With unique keys, any entry gives the map's value at its key.
pub proof fn lemma_entry_value(s: Seq<(Seq<char>, Seq<char>)>, i: int)
    requires
        entries_unique(s),
        0 <= i < s.len(),
    ensures
        map_of(s).dom().contains(s[i].0),
        map_of(s)[s[i].0] == s[i].1,
{
    assert(entries_contain_key(s, s[i].0));
    let j = entry_index_of(s, s[i].0);
    assert(0 <= j < s.len() && s[j].0 == s[i].0);
    if i != j {
        assert(false);
    }
}

/// A map from strings to strings with insertion-ordered entries.
pub struct StringMap {
    entries: Vec<(String, String)>,
}

impl View for StringMap {
    type V = Seq<(Seq<char>, Seq<char>)>;

    closed spec fn view(&self) -> Seq<(Seq<char>, Seq<char>)> {
        Seq::new(self.entries@.len(), |i: int| (self.entries@[i].0@, self.entries@[i].1@))
    }
}

impl StringMap {
    /// The mathematical map this value stands for.
    pub open spec fn as_map(self) -> Map<Seq<char>, Seq<char>> {
        map_of(self@)
    }

    /// The entry keys are pairwise distinct: the well-formedness that
    /// `new` establishes and every method preserves.
    pub open spec fn wf(self) -> bool {
        entries_unique(self@)
    }

    /// An empty map.
    pub fn new() -> (r: StringMap)
        ensures
            r.wf(),
            r@ == Seq::<(Seq<char>, Seq<char>)>::empty(),
            r.as_map() == Map::<Seq<char>, Seq<char>>::empty(),
    {
        let r = StringMap { entries: Vec::new() };
        proof {
            assert(r@ =~= Seq::<(Seq<char>, Seq<char>)>::empty());
            assert(r.as_map() =~= Map::<Seq<char>, Seq<char>>::empty());
        }
        r
    }

    /// The number of entries.
    pub fn len(&self) -> (r: usize)
        ensures
            r == self@.len(),
    {
        self.entries.len()
    }

    /// The entry at position `i`, in insertion order.
    pub fn entry_at(&self, i: usize) -> (r: (&String, &String))
        requires
            self.wf(),
            i < self@.len(),
        ensures
            r.0@ == self@[i as int].0,
            r.1@ == self@[i as int].1,
            self.as_map().dom().contains(r.0@),
            self.as_map()[r.0@] == r.1@,
    {
        proof {
            lemma_entry_value(self@, i as int);
        }
        let e = &self.entries[i];
        (&e.0, &e.1)
    }

    /// Looks a key up.
    pub fn get(&self, k: &str) -> (r: Option<&String>)
        requires
            self.wf(),
        ensures
            match r {
                Some(v) => self.as_map().dom().contains(k@) && v@ == self.as_map()[k@],
                None => !self.as_map().dom().contains(k@),
            },
    {
        let mut i: usize = 0;
        while i < self.entries.len()
            invariant
                0 <= i <= self@.len(),
                self@.len() == self.entries@.len(),
                forall|j: int| 0 <= j < self@.len() ==> (#[trigger] self@[j]) == (
                self.entries@[j].0@,
                self.entries@[j].1@,
                ),
                entries_unique(self@),
                forall|j: int| 0 <= j < i ==> (#[trigger] self@[j]).0 != k@,
            decreases self@.len() - i,
        {
            if str_eq(self.entries[i].0.as_str(), k) {
                proof {
                    lemma_entry_value(self@, i as int);
                }
                return Some(&self.entries[i].1);
            }
            i = i + 1;
        }
        proof {
            assert(!entries_contain_key(self@, k@));
        }
        None
    }

    /// Whether the map has an entry for `k`.
    pub fn contains_key(&self, k: &str) -> (r: bool)
        requires
            self.wf(),
        ensures
            r == self.as_map().dom().contains(k@),
    {
        match self.get(k) {
            Some(_) => true,
            None => false,
        }
    }

    /// Binds `k` to `v`: updates the entry in place if the key is present,
    /// appends it otherwise.
    pub fn insert(&mut self, k: String, v: String)
        requires
            old(self).wf(),
        ensures
            final(self).wf(),
            final(self).as_map() == old(self).as_map().insert(k@, v@),
            old(self).as_map().dom().contains(k@) ==> final(self)@.len() == old(self)@.len()
                && (exists|i: int|
                0 <= i < old(self)@.len() && old(self)@[i].0 == k@ && final(self)@ == old(
                self,
                )@.update(i, (k@, v@))),
            !old(self).as_map().dom().contains(k@) ==> final(self)@ == old(self)@.push((k@, v@)),
    {
        let ghost orig = self@;
        let mut i: usize = 0;
        while i < self.entries.len()
            invariant
                0 <= i <= orig.len(),
                orig == old(self)@,
                self@ == orig,
                orig.len() == self.entries@.len(),
                forall|j: int| 0 <= j < orig.len() ==> (#[trigger] orig[j]) == (
                self.entries@[j].0@,
                self.entries@[j].1@,
                ),
                entries_unique(orig),
                forall|j: int| 0 <= j < i ==> (#[trigger] orig[j]).0 != k@,
            decreases orig.len() - i,
        {
            if str_eq(self.entries[i].0.as_str(), k.as_str()) {
                self.entries.set(i, (k, v));
                proof {
                    assert(self@ =~= orig.update(i as int, (k@, v@)));
                    assert forall|p: int, q: int| 0 <= p < q < self@.len() implies (
                    #[trigger] self@[p]).0 != (#[trigger] self@[q]).0 by {
                        assert(self@[p].0 == orig[p].0);
                        assert(self@[q].0 == orig[q].0);
                        assert(orig[p].0 != orig[q].0);
                    }
                    assert(orig[i as int].0 == k@);
                    lemma_entry_value(orig, i as int);
                    assert(entries_contain_key(orig, k@));
                    assert(map_of(orig).dom().contains(k@));
                    lemma_map_of_update(orig, i as int, k@, v@);
                    assert(self@ == orig.update(i as int, (k@, v@)));
                    assert(self.as_map() == map_of(orig).insert(k@, v@));
                }
                return ;
            }
            i = i + 1;
        }
        proof {
            assert(!entries_contain_key(orig, k@));
        }
        self.entries.push((k, v));
        proof {
            assert(self@ =~= orig.push((k@, v@)));
            assert(entries_unique(self@));
            lemma_map_of_push(orig, k@, v@);
        }
    }

    /// The values, in entry order.
    pub fn values(&self) -> (r: Vec<String>)
        ensures
            r@.len() == self@.len(),
            forall|i: int| 0 <= i < r@.len() ==> (#[trigger] r@[i])@ == self@[i].1,
    {
        let mut r: Vec<String> = Vec::new();
        let mut i: usize = 0;
        while i < self.entries.len()
            invariant
                0 <= i <= self@.len(),
                self@.len() == self.entries@.len(),
                forall|j: int| 0 <= j < self@.len() ==> (#[trigger] self@[j]) == (
                self.entries@[j].0@,
                self.entries@[j].1@,
                ),
                r@.len() == i,
                forall|j: int| 0 <= j < i ==> (#[trigger] r@[j])@ == self@[j].1,
            decreases self@.len() - i,
        {
            r.push(self.entries[i].1.clone());
            i = i + 1;
        }
        r
    }

    /// The keys, in entry order.
    pub fn keys(&self) -> (r: Vec<String>)
        ensures
            r@.len() == self@.len(),
            forall|i: int| 0 <= i < r@.len() ==> (#[trigger] r@[i])@ == self@[i].0,
    {
        let mut r: Vec<String> = Vec::new();
        let mut i: usize = 0;
        while i < self.entries.len()
            invariant
                0 <= i <= self@.len(),
                self@.len() == self.entries@.len(),
                forall|j: int| 0 <= j < self@.len() ==> (#[trigger] self@[j]) == (
                self.entries@[j].0@,
                self.entries@[j].1@,
                ),
                r@.len() == i,
                forall|j: int| 0 <= j < i ==> (#[trigger] r@[j])@ == self@[j].0,
            decreases self@.len() - i,
        {
            r.push(self.entries[i].0.clone());
            i = i + 1;
        }
        r
    }
}

/// Folds a sequence of bindings over a starting map; a later binding of the
/// same key wins.
pub open spec fn to_map_from(
    m: Map<Seq<char>, Seq<char>>,
    s: Seq<(Seq<char>, Seq<char>)>,
) -> Map<Seq<char>, Seq<char>>
    decreases s.len(),
{
    if s.len() == 0 {
        m
    } else {
        to_map_from(m, s.drop_last()).insert(s.last().0, s.last().1)
    }
}

/// The map a sequence of bindings stands for, a later binding of the same
/// key winning.
pub open spec fn to_map(s: Seq<(Seq<char>, Seq<char>)>) -> Map<Seq<char>, Seq<char>> {
    to_map_from(Map::empty(), s)
}

/// Folding a concatenation folds the two halves in turn.
pub proof fn lemma_to_map_from_concat(
    m: Map<Seq<char>, Seq<char>>,
    a: Seq<(Seq<char>, Seq<char>)>,
    b: Seq<(Seq<char>, Seq<char>)>,
)
    ensures
        to_map_from(m, a + b) == to_map_from(to_map_from(m, a), b),
    decreases b.len(),
{
    if b.len() == 0 {
        assert(a + b =~= a);
    } else {
        lemma_to_map_from_concat(m, a, b.drop_last());
        assert((a + b).drop_last() =~= a + b.drop_last());
        assert((a + b).last() == b.last());
    }
}

/// Folding bindings over `m` overrides `m` with the bindings' own map.
pub proof fn lemma_to_map_from_union(
    m: Map<Seq<char>, Seq<char>>,
    s: Seq<(Seq<char>, Seq<char>)>,
)
    ensures
        to_map_from(m, s) == m.union_prefer_right(to_map(s)),
    decreases s.len(),
{
    if s.len() == 0 {
        assert(to_map_from(m, s) =~= m.union_prefer_right(to_map(s)));
    } else {
        lemma_to_map_from_union(m, s.drop_last());
        assert(to_map_from(m, s) =~= m.union_prefer_right(to_map(s)));
    }
}

/// A fold step appends one binding.
pub proof fn lemma_to_map_from_push(
    m: Map<Seq<char>, Seq<char>>,
    s: Seq<(Seq<char>, Seq<char>)>,
    k: Seq<char>,
    v: Seq<char>,
)
    ensures
        to_map_from(m, s.push((k, v))) == to_map_from(m, s).insert(k, v),
{
    assert(s.push((k, v)).drop_last() =~= s);
    assert(s.push((k, v)).last() == (k, v));
}

/// With unique keys, one more entry extends the map of a prefix by one
/// binding.
pub proof fn lemma_map_of_take_push(s: Seq<(Seq<char>, Seq<char>)>, c: int)
    requires
        entries_unique(s),
        0 <= c < s.len(),
    ensures
        map_of(s.take(c + 1)) == map_of(s.take(c)).insert(s[c].0, s[c].1),
{
    assert(s.take(c + 1) =~= s.take(c).push(s[c]));
    assert(entries_unique(s.take(c))) by {
        assert forall|i: int, j: int| 0 <= i < j < s.take(c).len() implies (#[trigger] s.take(c)[i]).0
            != (#[trigger] s.take(c)[j]).0 by {
            assert(s.take(c)[i] == s[i]);
            assert(s.take(c)[j] == s[j]);
        }
    }
    assert(!entries_contain_key(s.take(c), s[c].0)) by {
        if entries_contain_key(s.take(c), s[c].0) {
            let i = choose|i: int| 0 <= i < s.take(c).len() && s.take(c)[i].0 == s[c].0;
            assert(s[i].0 == s[c].0);
            assert(false);
        }
    }
    lemma_map_of_push(s.take(c), s[c].0, s[c].1);
}

/// Updating the entry that holds `k` updates the map at `k`.
proof fn lemma_map_of_update(s: Seq<(Seq<char>, Seq<char>)>, i: int, k: Seq<char>, v: Seq<char>)
    requires
        entries_unique(s),
        0 <= i < s.len(),
        s[i].0 == k,
    ensures
        map_of(s.update(i, (k, v))) == map_of(s).insert(k, v),
{
    let s2 = s.update(i, (k, v));
    assert(entries_unique(s2));
    assert forall|x: Seq<char>| #[trigger]
        map_of(s2).dom().contains(x) == map_of(s).insert(k, v).dom().contains(x) && (map_of(
            s2,
        ).dom().contains(x) ==> map_of(s2)[x] == map_of(s).insert(k, v)[x]) by {
        if x == k {
            lemma_entry_value(s2, i);
        } else {
            if entries_contain_key(s, x) {
                let j = entry_index_of(s, x);
                assert(s[j].0 == x);
                assert(j != i);
                assert(s2[j].0 == x);
                assert(entries_contain_key(s2, x));
                lemma_entry_value(s, j);
                lemma_entry_value(s2, j);
            }
            if entries_contain_key(s2, x) {
                let j = entry_index_of(s2, x);
                assert(s2[j].0 == x);
                assert(j != i);
                assert(s[j].0 == x);
                assert(entries_contain_key(s, x));
            }
        }
    }
    assert(map_of(s2) =~= map_of(s).insert(k, v));
}

/// Appending a fresh key extends the map at that key.
proof fn lemma_map_of_push(s: Seq<(Seq<char>, Seq<char>)>, k: Seq<char>, v: Seq<char>)
    requires
        entries_unique(s),
        !entries_contain_key(s, k),
    ensures
        map_of(s.push((k, v))) == map_of(s).insert(k, v),
{
    let s2 = s.push((k, v));
    assert(s2[s.len() as int] == (k, v));
    assert(entries_unique(s2));
    assert forall|x: Seq<char>| #[trigger]
        map_of(s2).dom().contains(x) == map_of(s).insert(k, v).dom().contains(x) && (map_of(
            s2,
        ).dom().contains(x) ==> map_of(s2)[x] == map_of(s).insert(k, v)[x]) by {
        if x == k {
            lemma_entry_value(s2, s.len() as int);
        } else {
            if entries_contain_key(s, x) {
                let j = entry_index_of(s, x);
                assert(s2[j].0 == x);
                assert(entries_contain_key(s2, x));
                lemma_entry_value(s, j);
                lemma_entry_value(s2, j);
            }
            if entries_contain_key(s2, x) {
                let j = entry_index_of(s2, x);
                assert(s2[j].0 == x);
                assert(j != s.len());
                assert(s[j].0 == x);
                assert(entries_contain_key(s, x));
            }
        }
    }
    assert(map_of(s2) =~= map_of(s).insert(k, v));
}

} // verus!
