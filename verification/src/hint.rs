//! Live hints: the compiled bindings whose keys extend what the user has
//! typed, sorted, at most a requested number of them.

use vstd::prelude::*;
use vstd::string::StrSliceExecFns;
use crate::compile::{add_prefixes_map, compile_map, compile_with_prefixes};
use crate::expand::{clean_buf, clean_spec, ConfigFile};
use crate::strings::{lex_le, lex_lt, lemma_lex_trichotomy, lemma_lex_le_trans, str_lt,
    str_starts_with};
use crate::strmap::{entries_unique, map_of};

verus! {

/// The views of a vector of string pairs.
pub open spec fn pair_views(v: Seq<(String, String)>) -> Seq<(Seq<char>, Seq<char>)> {
    v.map_values(|e: (String, String)| (e.0@, e.1@))
}

/// Sorts pairs by their first component.
fn sort_pairs(v: &mut Vec<(String, String)>)
    ensures
        pair_views(final(v)@).to_multiset() == pair_views(old(v)@).to_multiset(),
        forall|i: int, j: int|
            0 <= i < j < final(v)@.len() ==> lex_le(
                (#[trigger] pair_views(final(v)@)[i]).0,
                (#[trigger] pair_views(final(v)@)[j]).0,
            ),
{
    let ghost orig_views = pair_views(v@);
    let mut out: Vec<(String, String)> = Vec::new();
    proof {
        pair_views(out@).to_multiset_ensures();
        assert(pair_views(out@) =~= Seq::<(Seq<char>, Seq<char>)>::empty());
        assert(pair_views(out@).to_multiset().len() == 0);
        broadcast use vstd::multiset::group_multiset_axioms;

        assert(pair_views(out@).to_multiset().add(pair_views(v@).to_multiset())
            =~= orig_views.to_multiset());
    }
    while v.len() > 0
        invariant
            pair_views(out@).to_multiset().add(pair_views(v@).to_multiset())
                == orig_views.to_multiset(),
            forall|i: int, j: int|
                0 <= i < j < out@.len() ==> lex_le(
                    (#[trigger] pair_views(out@)[i]).0,
                    (#[trigger] pair_views(out@)[j]).0,
                ),
            forall|p: int, q: int|
                0 <= p < out@.len() && 0 <= q < v@.len() ==> lex_le(
                    (#[trigger] pair_views(out@)[p]).0,
                    (#[trigger] pair_views(v@)[q]).0,
                ),
        decreases v@.len(),
    {
        let mut best: usize = 0;
        let mut k: usize = 1;
        while k < v.len()
            invariant
                0 <= best < k <= v@.len(),
                v@.len() > 0,
                forall|m: int|
                    0 <= m < k ==> lex_le(
                        pair_views(v@)[best as int].0,
                        (#[trigger] pair_views(v@)[m]).0,
                    ),
            decreases v@.len() - k,
        {
            if str_lt(v[k].0.as_str(), v[best].0.as_str()) {
                proof {
                    lemma_lex_trichotomy(v@[k as int].0@, v@[best as int].0@);
                    assert forall|m: int| 0 <= m < k + 1 implies lex_le(
                        pair_views(v@)[k as int].0,
                        (#[trigger] pair_views(v@)[m]).0,
                    ) by {
                        if m < k {
                            lemma_lex_le_trans(
                                pair_views(v@)[k as int].0,
                                pair_views(v@)[best as int].0,
                                pair_views(v@)[m].0,
                            );
                        }
                    }
                }
                best = k;
            } else {
                proof {
                    lemma_lex_trichotomy(v@[k as int].0@, v@[best as int].0@);
                }
            }
            k = k + 1;
        }
        let ghost pre = v@;
        let x = v.remove(best);
        let ghost mid = out@;
        out.push(x);
        proof {
            broadcast use vstd::multiset::group_multiset_axioms;

            pair_views(pre).to_multiset_ensures();
            pair_views(mid).to_multiset_ensures();
            assert(pair_views(pre).remove(best as int).to_multiset() =~= pair_views(pre)
                .to_multiset().remove(pair_views(pre)[best as int]));
            assert(pair_views(v@) =~= pair_views(pre).remove(best as int));
            assert(pair_views(out@) =~= pair_views(mid).push((x.0@, x.1@)));
            assert(pair_views(mid).push((x.0@, x.1@)).to_multiset() =~= pair_views(mid)
                .to_multiset().insert((x.0@, x.1@)));
            assert(pair_views(pre).contains(pair_views(pre)[best as int]));
            assert(pair_views(pre).to_multiset().count(pair_views(pre)[best as int]) > 0);
            assert((x.0@, x.1@) == pair_views(pre)[best as int]);
            assert(pair_views(out@).to_multiset().add(pair_views(v@).to_multiset())
                =~= orig_views.to_multiset());
            assert forall|i: int, j: int| 0 <= i < j < out@.len() implies lex_le(
                (#[trigger] pair_views(out@)[i]).0,
                (#[trigger] pair_views(out@)[j]).0,
            ) by {
                if j == out@.len() - 1 {
                    assert(pair_views(out@)[i] == pair_views(mid)[i]);
                    assert(pair_views(out@)[j] == pair_views(pre)[best as int]);
                }
            }
            assert forall|p: int, q: int|
                0 <= p < out@.len() && 0 <= q < v@.len() implies lex_le(
                (#[trigger] pair_views(out@)[p]).0,
                (#[trigger] pair_views(v@)[q]).0,
            ) by {
                let ghost oq = if q < best as int {
                    q
                } else {
                    q + 1
                };
                assert(pair_views(v@)[q] == pair_views(pre)[oq]);
                if p == out@.len() - 1 {
                    assert(pair_views(out@)[p] == pair_views(pre)[best as int]);
                    assert(lex_le(pair_views(pre)[best as int].0, pair_views(pre)[oq].0));
                } else {
                    assert(pair_views(out@)[p] == pair_views(mid)[p]);
                    assert(lex_le(pair_views(mid)[p].0, pair_views(pre)[oq].0));
                }
            }
        }
    }
    proof {
        broadcast use vstd::multiset::group_multiset_axioms;

        pair_views(v@).to_multiset_ensures();
        assert(pair_views(v@) =~= Seq::<(Seq<char>, Seq<char>)>::empty());
        assert(pair_views(out@).to_multiset() =~= orig_views.to_multiset());
    }
    *v = out;
}

/// What `hint` returns: against some compiled map `m` for the cleaned
/// buffer, the bindings whose keys extend the buffer, in strictly ascending
/// key order, cut off after `max`; any qualifying binding left out only
/// falls after a full page of smaller keys.
pub open spec fn hint_ok(
    cmds: crate::extract::Cmds,
    buf: Seq<char>,
    max: int,
    r: Seq<(Seq<char>, Seq<char>)>,
) -> bool {
    let b = clean_spec(buf).1;
    exists|entries: Seq<(Seq<char>, Seq<char>)>|
        {
            &&& #[trigger] entries_unique(entries)
            &&& map_of(entries) == compile_map(cmds, b, false)
            &&& {
                let m = add_prefixes_map(entries, b, false);
                &&& r.len() <= max
                &&& (forall|i: int, j: int|
                    0 <= i < j < r.len() ==> lex_lt((#[trigger] r[i]).0, (#[trigger] r[j]).0))
                &&& (forall|i: int|
                    0 <= i < r.len() ==> m.dom().contains((#[trigger] r[i]).0) && m[r[i].0]
                        == r[i].1 && b.is_prefix_of(r[i].0))
                &&& (forall|k: Seq<char>|
                    m.dom().contains(k) && b.is_prefix_of(k) && !(exists|i: int|
                        0 <= i < r.len() && (#[trigger] r[i]).0 == k) ==> r.len() == max && (
                    forall|i: int| 0 <= i < r.len() ==> lex_lt((#[trigger] r[i]).0, k)))
            }
        }
}

/// The bindings the user could still be typing toward: compiled for the
/// trailing statement of the buffer, keys extending it, sorted, at most
/// `max` of them.
pub fn hint(conf: &ConfigFile, buf: String, max: usize) -> (r: Vec<(String, String)>)
    ensures
        hint_ok(conf.cmds, buf@, max as int, pair_views(r@)),
{
    let ghost buf0 = buf@;
    let (_prefix, b) = clean_buf(buf);
    let compiled = compile_with_prefixes(&conf.cmds, b.as_str(), false);
    let ghost w = choose|e: Seq<(Seq<char>, Seq<char>)>|
        entries_unique(e) && map_of(e) == compile_map(conf.cmds, b@, false)
            && compiled.as_map() == add_prefixes_map(e, b@, false);
    proof {
        assert(entries_unique(w) && map_of(w) == compile_map(conf.cmds, b@, false)
            && compiled.as_map() == add_prefixes_map(w, b@, false));
    }
    let ghost entries = compiled@;
    let ghost m = compiled.as_map();
    // the map's bindings as a vector of pairs
    let mut pairs: Vec<(String, String)> = Vec::new();
    let mut i: usize = 0;
    while i < compiled.len()
        invariant
            0 <= i <= compiled@.len(),
            compiled.wf(),
            entries == compiled@,
            pair_views(pairs@) == entries.take(i as int),
        decreases compiled@.len() - i,
    {
        let e = compiled.entry_at(i);
        let ghost prevp = pairs@;
        let c0 = e.0.clone();
        let c1 = e.1.clone();
        pairs.push((c0, c1));
        proof {
            assert(pairs@ == prevp.push((c0, c1)));
            assert(pair_views(prevp).len() == prevp.len());
            assert(prevp.len() == i);
            assert(pairs@.len() == prevp.len() + 1);
            assert forall|mz: int| 0 <= mz < pairs@.len() implies #[trigger] pair_views(pairs@)[mz]
                == entries.take(i + 1)[mz] by {
                if mz < i {
                    assert(pairs@[mz] == prevp[mz]);
                    assert(pair_views(prevp)[mz] == entries.take(i as int)[mz]);
                } else {
                    assert(pairs@[mz].0@ == entries[i as int].0);
                    assert(pairs@[mz].1@ == entries[i as int].1);
                }
            }
            assert(pair_views(pairs@) =~= entries.take(i + 1));
        }
        i = i + 1;
    }
    proof {
        assert(entries.take(entries.len() as int) =~= entries);
    }
    sort_pairs(&mut pairs);
    let ghost t = pair_views(pairs@);
    proof {
        // the sorted arrangement keeps the entries and their unique keys
        broadcast use vstd::multiset::group_multiset_axioms;

        entries.to_multiset_ensures();
        t.to_multiset_ensures();
        entries.lemma_multiset_has_no_duplicates();
        t.lemma_multiset_has_no_duplicates_conv();
        assert forall|p: int, q: int| 0 <= p < q < t.len() implies (#[trigger] t[p]).0 != (
        #[trigger] t[q]).0 by {
            if t[p].0 == t[q].0 {
                assert(t.contains(t[p]));
                assert(t.contains(t[q]));
                assert(entries.to_multiset().count(t[p]) > 0);
                assert(entries.to_multiset().count(t[q]) > 0);
                assert(entries.contains(t[p]));
                assert(entries.contains(t[q]));
                if t[p] == t[q] {
                    assert(t.no_duplicates());
                } else {
                    let a = choose|a: int| 0 <= a < entries.len() && entries[a] == t[p];
                    let c = choose|c: int| 0 <= c < entries.len() && entries[c] == t[q];
                    assert(a != c);
                    assert(entries[a].0 == entries[c].0);
                }
            }
        }
        // strict order on keys
        assert forall|p: int, q: int| 0 <= p < q < t.len() implies lex_lt(
            (#[trigger] t[p]).0,
            (#[trigger] t[q]).0,
        ) by {
            lemma_lex_trichotomy(t[p].0, t[q].0);
        }
        // every entry is a binding of the map, and every binding an entry
        assert forall|p: int| 0 <= p < t.len() implies m.dom().contains((#[trigger] t[p]).0)
            && m[t[p].0] == t[p].1 by {
            assert(t.contains(t[p]));
            assert(entries.to_multiset().count(t[p]) > 0);
            assert(entries.contains(t[p]));
            let a = choose|a: int| 0 <= a < entries.len() && entries[a] == t[p];
            crate::strmap::lemma_entry_value(entries, a);
        }
        assert forall|k: Seq<char>| m.dom().contains(k) implies exists|p: int|
            0 <= p < t.len() && (#[trigger] t[p]).0 == k by {
            assert(crate::strmap::entries_contain_key(entries, k));
            let a = choose|a: int|
                0 <= a < entries.len() && (#[trigger] entries[a]).0 == k;
            assert(entries.contains(entries[a]));
            assert(t.to_multiset().count(entries[a]) > 0);
            assert(t.contains(entries[a]));
            let p = choose|p: int| 0 <= p < t.len() && t[p] == entries[a];
            assert(t[p].0 == k);
        }
    }
    // keep the keys that extend the buffer, up to max of them
    let mut out: Vec<(String, String)> = Vec::new();
    let mut i: usize = 0;
    let ghost mut srcs: Seq<int> = Seq::empty();
    while i < pairs.len() && out.len() < max
        invariant
            0 <= i <= pairs@.len(),
            t == pair_views(pairs@),
            out@.len() <= max,
            srcs.len() == out@.len(),
            forall|q: int| 0 <= q < srcs.len() ==> 0 <= #[trigger] srcs[q] < i,
            forall|q1: int, q2: int| 0 <= q1 < q2 < srcs.len() ==> srcs[q1] < srcs[q2],
            forall|q: int|
                0 <= q < srcs.len() ==> #[trigger] pair_views(out@)[q] == t[srcs[q]],
            forall|q: int|
                0 <= q < srcs.len() ==> b@.is_prefix_of((#[trigger] pair_views(out@)[q]).0),
            forall|idx: int|
                0 <= idx < i && b@.is_prefix_of((#[trigger] t[idx]).0) ==> exists|q: int|
                    0 <= q < srcs.len() && srcs[q] == idx,
        decreases pairs@.len() - i,
    {
        if str_starts_with(pairs[i].0.as_str(), b.as_str()) {
            let e: &(String, String) = &pairs[i];
            let ghost out0 = pair_views(out@);
            out.push((e.0.clone(), e.1.clone()));
            proof {
                let srcs0 = srcs;
                srcs = srcs.push(i as int);
                assert(pair_views(out@) =~= out0.push(t[i as int]));
                assert forall|q: int| 0 <= q < srcs.len() implies #[trigger] pair_views(out@)[q]
                    == t[srcs[q]] by {
                    if q < srcs.len() - 1 {
                        assert(srcs[q] == srcs0[q]);
                        assert(pair_views(out@)[q] == out0[q]);
                    }
                }
                assert forall|idx: int|
                    0 <= idx < i + 1 && b@.is_prefix_of((#[trigger] t[idx]).0) implies exists|q: int|
                    0 <= q < srcs.len() && srcs[q] == idx by {
                    if idx == i as int {
                        assert(srcs[srcs.len() - 1] == idx);
                    } else {
                        let q = choose|q: int| 0 <= q < srcs0.len() && srcs0[q] == idx;
                        assert(srcs[q] == idx);
                    }
                }
            }
        } else {
            proof {
                assert(t[i as int].0 == pairs@[i as int].0@);
            }
        }
        i = i + 1;
    }
    proof {
        let rv = pair_views(out@);
        let bv = clean_spec(buf0).1;
        assert(bv == b@);
        assert forall|q1: int, q2: int| 0 <= q1 < q2 < rv.len() implies lex_lt(
            (#[trigger] rv[q1]).0,
            (#[trigger] rv[q2]).0,
        ) by {
            assert(rv[q1] == t[srcs[q1]]);
            assert(rv[q2] == t[srcs[q2]]);
        }
        assert forall|q: int| 0 <= q < rv.len() implies m.dom().contains((#[trigger] rv[q]).0)
            && m[rv[q].0] == rv[q].1 && bv.is_prefix_of(rv[q].0) by {
            assert(rv[q] == t[srcs[q]]);
        }
        assert forall|k: Seq<char>|
            m.dom().contains(k) && bv.is_prefix_of(k) && !(exists|q: int|
                0 <= q < rv.len() && (#[trigger] rv[q]).0 == k) implies rv.len() == max && (
        forall|q: int| 0 <= q < rv.len() ==> lex_lt((#[trigger] rv[q]).0, k)) by {
            let p = choose|p: int| 0 <= p < t.len() && (#[trigger] t[p]).0 == k;
            if p < i {
                let q = choose|q: int| 0 <= q < srcs.len() && srcs[q] == p;
                assert(rv[q] == t[p]);
                assert(rv[q].0 == k);
                assert(false);
            }
            assert(p >= i);
            assert(t.len() == pairs@.len());
            assert(out@.len() == max);
            assert forall|q: int| 0 <= q < rv.len() implies lex_lt((#[trigger] rv[q]).0, k) by {
                assert(rv[q] == t[srcs[q]]);
                assert(srcs[q] < i <= p);
                assert(lex_lt(t[srcs[q]].0, t[p].0));
            }
        }
        assert(hint_ok(conf.cmds, buf0, max as int, pair_views(out@))) by {
            let mm0 = add_prefixes_map(w, bv, false);
            assert(mm0 == m);
            assert(entries_unique(w) && map_of(w) == compile_map(
                conf.cmds,
                bv,
                false,
            ) && {
                let mm = add_prefixes_map(w, bv, false);
                &&& pair_views(out@).len() <= max
                &&& (forall|i2: int, j2: int|
                    0 <= i2 < j2 < pair_views(out@).len() ==> lex_lt(
                        (#[trigger] pair_views(out@)[i2]).0,
                        (#[trigger] pair_views(out@)[j2]).0,
                    ))
                &&& (forall|i2: int|
                    0 <= i2 < pair_views(out@).len() ==> mm.dom().contains(
                        (#[trigger] pair_views(out@)[i2]).0,
                    ) && mm[pair_views(out@)[i2].0] == pair_views(out@)[i2].1 && bv.is_prefix_of(
                        pair_views(out@)[i2].0,
                    ))
                &&& (forall|k: Seq<char>|
                    mm.dom().contains(k) && bv.is_prefix_of(k) && !(exists|i2: int|
                        0 <= i2 < pair_views(out@).len() && (#[trigger] pair_views(out@)[i2]).0
                            == k) ==> pair_views(out@).len() == max && (forall|i2: int|
                        0 <= i2 < pair_views(out@).len() ==> lex_lt(
                            (#[trigger] pair_views(out@)[i2]).0,
                            k,
                        )))
            });
        }
    }
    out
}

} // verus!
