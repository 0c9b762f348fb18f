//! The recursive compiler: walks the command tree and produces the flat
//! mapping from abbreviated buffer text to full expansion, pruned to the
//! entries relevant to the buffer unless exhaustive mode is asked for.
//!
//! The contract language: `node_pairs` lists, in binding order, every
//! key/value pair the walk of one node emits, and the compiled map is that
//! sequence folded left to right, a later binding of a key winning.

use vstd::prelude::*;
use vstd::string::StrSliceExecFns;
use vstd::string::StringExecFns;
use crate::abbrev::{unique_prefix, unique_prefixes};
use crate::extract::{Cmd, Cmds};
use crate::strings::{
    push_char, sort_strings, sorted_lex, spec_words, split_words, str_concat, str_eq,
    str_starts_with, views_of,
};
use crate::strmap::{
    lemma_to_map_from_concat, lemma_to_map_from_push, lemma_to_map_from_union, map_of, to_map,
    to_map_from, StringMap,
};

verus! {

broadcast use {vstd::std_specs::vec::group_vec_axioms, vstd::seq::group_seq_axioms};

/// A single space.
pub open spec fn blank() -> Seq<char> {
    seq![' ']
}

/// The accumulated prefix with a trailing space, as the walk of a node
/// normalizes it on entry.
pub open spec fn spaced(pfx: Seq<char>) -> Seq<char> {
    if pfx.len() == 0 || pfx.last() == ' ' {
        pfx
    } else {
        pfx.push(' ')
    }
}

/// Whether a binding is kept: everything in exhaustive mode, otherwise only
/// pairs whose key or value extends the buffer.
pub open spec fn bind_ok(all: bool, lbuf: Seq<char>, k: Seq<char>, v: Seq<char>) -> bool {
    all || lbuf.is_prefix_of(k) || lbuf.is_prefix_of(v)
}

/// The binding as emitted: one pair if it is kept, nothing otherwise.
pub open spec fn one_pair(all: bool, lbuf: Seq<char>, k: Seq<char>, v: Seq<char>) -> Seq<
    (Seq<char>, Seq<char>),
> {
    if bind_ok(all, lbuf, k, v) {
        seq![(k, v)]
    } else {
        Seq::empty()
    }
}

/// The bindings of one flag: the dash form under the long command name and,
/// for a squishable flag, the code glued onto the short command form.
pub open spec fn flag_pairs_one(
    all: bool,
    lbuf: Seq<char>,
    p: Seq<char>,
    long: Seq<char>,
    short: Seq<char>,
    f: Seq<char>,
    fshort: Seq<char>,
    squish: bool,
) -> Seq<(Seq<char>, Seq<char>)> {
    let v = p + long + blank() + f + blank();
    one_pair(all, lbuf, p + long + seq![' ', '-'] + fshort, v) + (if squish {
        one_pair(all, lbuf, p + short + fshort, v)
    } else {
        Seq::empty()
    })
}

/// The bindings of the first `j` flags of a node.
pub open spec fn flags_upto(
    all: bool,
    lbuf: Seq<char>,
    p: Seq<char>,
    long: Seq<char>,
    short: Seq<char>,
    flags: Seq<(String, crate::extract::Flag)>,
    j: int,
) -> Seq<(Seq<char>, Seq<char>)>
    decreases j,
{
    if j <= 0 {
        Seq::empty()
    } else {
        flags_upto(all, lbuf, p, long, short, flags, j - 1) + flag_pairs_one(
            all,
            lbuf,
            p,
            long,
            short,
            flags[j - 1].0@,
            flags[j - 1].1.short@,
            flags[j - 1].1.squish,
        )
    }
}

/// Whether some direct subcommand's long name is `k`.
pub open spec fn subs_have_key(subs: Seq<(String, Cmd)>, k: Seq<char>) -> bool {
    exists|i: int| 0 <= i < subs.len() && (#[trigger] subs[i]).0@ == k
}

/// The one-level grandchild shortcuts under the subcommand at hand: the
/// grandchild's code glued onto the subcommand's, skipping codes that
/// collide with a direct sibling's long name.
pub open spec fn gsubs_upto(
    all: bool,
    lbuf: Seq<char>,
    p: Seq<char>,
    long: Seq<char>,
    short: Seq<char>,
    siblings: Seq<(String, Cmd)>,
    sub_long: Seq<char>,
    sub_short: Seq<char>,
    gsubs: Seq<(String, Cmd)>,
    m: int,
) -> Seq<(Seq<char>, Seq<char>)>
    decreases m,
{
    if m <= 0 {
        Seq::empty()
    } else {
        let inner = sub_short + gsubs[m - 1].1.short@;
        gsubs_upto(all, lbuf, p, long, short, siblings, sub_long, sub_short, gsubs, m - 1) + (
        if !subs_have_key(siblings, inner) {
            one_pair(
                all,
                lbuf,
                p + short + inner,
                p + long + blank() + sub_long + blank() + gsubs[m - 1].0@ + blank(),
            )
        } else {
            Seq::empty()
        })
    }
}

/// The squished flag shortcuts of the subcommand at hand.
pub open spec fn subflags_upto(
    all: bool,
    lbuf: Seq<char>,
    p: Seq<char>,
    long: Seq<char>,
    short: Seq<char>,
    sub_long: Seq<char>,
    sub_short: Seq<char>,
    sflags: Seq<(String, crate::extract::Flag)>,
    m: int,
) -> Seq<(Seq<char>, Seq<char>)>
    decreases m,
{
    if m <= 0 {
        Seq::empty()
    } else {
        subflags_upto(all, lbuf, p, long, short, sub_long, sub_short, sflags, m - 1) + (
        if sflags[m - 1].1.squish {
            one_pair(
                all,
                lbuf,
                p + short + sub_short + sflags[m - 1].1.short@,
                p + long + blank() + sub_long + blank() + sflags[m - 1].0@ + blank(),
            )
        } else {
            Seq::empty()
        })
    }
}

/// The direct binding of one subcommand and, when the buffer already starts
/// with that binding's key, its one-level shortcuts.
pub open spec fn sub_pairs_one(
    all: bool,
    lbuf: Seq<char>,
    p: Seq<char>,
    long: Seq<char>,
    short: Seq<char>,
    siblings: Seq<(String, Cmd)>,
    sub_long: Seq<char>,
    sub: Cmd,
) -> Seq<(Seq<char>, Seq<char>)> {
    let k = p + short + sub.short@;
    one_pair(all, lbuf, k, p + long + blank() + sub_long + blank()) + (if k.is_prefix_of(lbuf) {
        gsubs_upto(
            all,
            lbuf,
            p,
            long,
            short,
            siblings,
            sub_long,
            sub.short@,
            sub.subs.0@,
            sub.subs.0@.len() as int,
        ) + subflags_upto(
            all,
            lbuf,
            p,
            long,
            short,
            sub_long,
            sub.short@,
            sub.flags@,
            sub.flags@.len() as int,
        )
    } else {
        Seq::empty()
    })
}

/// The direct bindings of the first `j` subcommands.
pub open spec fn subs_upto(
    all: bool,
    lbuf: Seq<char>,
    p: Seq<char>,
    long: Seq<char>,
    short: Seq<char>,
    subs: Seq<(String, Cmd)>,
    j: int,
) -> Seq<(Seq<char>, Seq<char>)>
    decreases j,
{
    if j <= 0 {
        Seq::empty()
    } else {
        subs_upto(all, lbuf, p, long, short, subs, j - 1) + sub_pairs_one(
            all,
            lbuf,
            p,
            long,
            short,
            subs,
            subs[j - 1].0@,
            subs[j - 1].1,
        )
    }
}

/// The bindings a node's walk emits, in order: the node's own short form,
/// in exhaustive mode also its long form bound to itself, its flags, its
/// direct subcommands with their one-level shortcuts, and the full recursive
/// walk of each subcommand the buffer allows descending into.
pub open spec fn node_pairs(
    pfx: Seq<char>,
    cmd: Cmd,
    long: Seq<char>,
    lbuf: Seq<char>,
    all: bool,
) -> Seq<(Seq<char>, Seq<char>)>
    decreases cmd, 1int, 0int,
{
    let p = spaced(pfx);
    if !all && p.len() > lbuf.len() + 1 {
        Seq::empty()
    } else {
        let pre_short = p + cmd.short@;
        let pre_long = p + long;
        if !all && !lbuf.is_prefix_of(pre_short) && !lbuf.is_prefix_of(pre_long)
            && !pre_short.is_prefix_of(lbuf) && !pre_long.is_prefix_of(lbuf) {
            Seq::empty()
        } else {
            one_pair(all, lbuf, pre_short, pre_long + blank()) + (if all {
                seq![(pre_long, pre_long + blank())]
            } else {
                Seq::empty()
            }) + flags_upto(all, lbuf, p, long, cmd.short@, cmd.flags@, cmd.flags@.len() as int)
                + subs_upto(all, lbuf, p, long, cmd.short@, cmd.subs.0@, cmd.subs.0@.len() as int)
                + subs_rec_upto(p, cmd, long, lbuf, all, cmd.subs.0@.len() as int)
        }
    }
}

/// The recursive walks into the first `j` subcommands; in pruned mode a
/// descent happens only when the buffer starts with the node's own long
/// form.
pub open spec fn subs_rec_upto(
    p: Seq<char>,
    cmd: Cmd,
    long: Seq<char>,
    lbuf: Seq<char>,
    all: bool,
    j: int,
) -> Seq<(Seq<char>, Seq<char>)>
    decreases cmd, 0int, j,
{
    if j <= 0 {
        Seq::empty()
    } else {
        subs_rec_upto(p, cmd, long, lbuf, all, j - 1) + (if all || (p + long).is_prefix_of(lbuf) {
            if 0 <= j - 1 < cmd.subs.0@.len() {
                node_pairs(p + long, cmd.subs.0@[j - 1].1, cmd.subs.0@[j - 1].0@, lbuf, all)
            } else {
                Seq::empty()
            }
        } else {
            Seq::empty()
        })
    }
}

/// The bindings of a whole tree: each root command whose short or long form
/// is consistent with the buffer is walked with an empty prefix.
pub open spec fn compile_upto(
    cmds: Seq<(String, Cmd)>,
    lbuf: Seq<char>,
    all: bool,
    j: int,
) -> Seq<(Seq<char>, Seq<char>)>
    decreases j,
{
    if j <= 0 {
        Seq::empty()
    } else {
        compile_upto(cmds, lbuf, all, j - 1) + (if lbuf.len() == 0 || cmds[j - 1].1.short@
            .is_prefix_of(lbuf) || cmds[j - 1].0@.is_prefix_of(lbuf) {
            node_pairs(Seq::empty(), cmds[j - 1].1, cmds[j - 1].0@, lbuf, all)
        } else {
            Seq::empty()
        })
    }
}

/// Every binding the compiler emits for this tree and buffer, in order.
pub open spec fn compile_pairs(cmds: Cmds, lbuf: Seq<char>, all: bool) -> Seq<
    (Seq<char>, Seq<char>),
> {
    compile_upto(cmds.0@, lbuf, all, cmds.0@.len() as int)
}

/// The compiled mapping: the emitted bindings folded in order, a later
/// binding of a key winning.
pub open spec fn compile_map(cmds: Cmds, lbuf: Seq<char>, all: bool) -> Map<Seq<char>, Seq<char>> {
    to_map(compile_pairs(cmds, lbuf, all))
}

/// Considers one binding: in pruned mode it is dropped unless its key or its
/// value extends the buffer.
fn bind(m: &mut StringMap, all: bool, lbuf: &str, k: String, v: String)
    requires
        old(m).wf(),
    ensures
        final(m).wf(),
        final(m).as_map() == to_map_from(old(m).as_map(), one_pair(all, lbuf@, k@, v@)),
{
    if all || str_starts_with(k.as_str(), lbuf) || str_starts_with(v.as_str(), lbuf) {
        let ghost pre = m.as_map();
        m.insert(k, v);
        proof {
            assert(one_pair(all, lbuf@, k@, v@) =~= Seq::empty().push((k@, v@)));
            lemma_to_map_from_push(pre, Seq::empty(), k@, v@);
        }
    } else {
        proof {
            assert(to_map_from(m.as_map(), one_pair(all, lbuf@, k@, v@)) == m.as_map());
        }
    }
}

/// Appends a trailing space to a non-empty prefix that lacks one.
fn space_prefix(pfx: String) -> (r: String)
    ensures
        r@ == spaced(pfx@),
{
    let n: usize = pfx.as_str().unicode_len();
    if n > 0 && pfx.as_str().get_char(n - 1) != ' ' {
        let mut r = pfx;
        push_char(&mut r, ' ');
        r
    } else {
        pfx
    }
}

/// Walks one node of the tree, reached with the accumulated prefix `pfx` and
/// known under the long name `long`, and returns its bindings as a map.
pub fn compile_recursive(pfx: String, cmd: &Cmd, long: &str, lbuf: &str, all: bool) -> (m:
    StringMap)
    ensures
        m.wf(),
        m.as_map() == to_map(node_pairs(pfx@, *cmd, long@, lbuf@, all)),
    decreases *cmd,
{
    let ghost pairs = node_pairs(pfx@, *cmd, long@, lbuf@, all);
    let mut m = StringMap::new();
    let p = space_prefix(pfx);
    let p_len: usize = p.as_str().unicode_len();
    let lbuf_len: usize = lbuf.unicode_len();
    if !all && p_len >= 1 && p_len - 1 > lbuf_len {
        proof {
            assert(pairs =~= Seq::<(Seq<char>, Seq<char>)>::empty());
        }
        return m;
    }
    let pre_short = str_concat(p.as_str(), cmd.short.as_str());
    let pre_long = str_concat(p.as_str(), long);
    if !all && !str_starts_with(pre_short.as_str(), lbuf) && !str_starts_with(
        pre_long.as_str(),
        lbuf,
    ) && !str_starts_with(lbuf, pre_short.as_str()) && !str_starts_with(
        lbuf,
        pre_long.as_str(),
    ) {
        proof {
            assert(pairs =~= Seq::<(Seq<char>, Seq<char>)>::empty());
        }
        return m;
    }
    let ghost p_v = p@;
    let ghost short_v = cmd.short@;
    // the node's own bindings
    let pre_long_sp = str_concat(pre_long.as_str(), " ");
    proof {
        reveal_strlit(" ");
        assert(" "@ =~= blank());
        assert(pre_long_sp@ == p_v + long@ + blank());
    }
    let ghost seg0 = one_pair(all, lbuf@, pre_short@, pre_long@ + blank()) + (if all {
        seq![(pre_long@, pre_long@ + blank())]
    } else {
        Seq::<(Seq<char>, Seq<char>)>::empty()
    });
    bind(&mut m, all, lbuf, pre_short, pre_long_sp.clone());
    if all {
        let ghost before = m.as_map();
        m.insert(pre_long.clone(), pre_long_sp.clone());
        proof {
            assert(to_map(seg0) == m.as_map()) by {
                lemma_to_map_from_concat(
                    Map::empty(),
                    one_pair(all, lbuf@, pre_short@, pre_long@ + blank()),
                    seq![(pre_long@, pre_long@ + blank())],
                );
                assert(seq![(pre_long@, pre_long@ + blank())]
                    =~= Seq::<(Seq<char>, Seq<char>)>::empty().push((
                    pre_long@,
                    pre_long@ + blank(),
                )));
                lemma_to_map_from_push(
                    before,
                    Seq::<(Seq<char>, Seq<char>)>::empty(),
                    pre_long@,
                    pre_long@ + blank(),
                );
            }
        }
    } else {
        proof {
            assert(seg0 =~= one_pair(all, lbuf@, pre_short@, pre_long@ + blank()));
        }
    }
    proof {
        assert(m.as_map() == to_map(seg0));
    }
    // the node's flags
    let mut j: usize = 0;
    while j < cmd.flags.len()
        invariant
            0 <= j <= cmd.flags@.len(),
            m.wf(),
            p_v == spaced(pfx@),
            short_v == cmd.short@,
            p@ == p_v,
            pre_long@ == p_v + long@,
            m.as_map() == to_map(
                seg0 + flags_upto(all, lbuf@, p_v, long@, short_v, cmd.flags@, j as int),
            ),
        decreases cmd.flags@.len() - j,
    {
        let ghost done = seg0 + flags_upto(all, lbuf@, p_v, long@, short_v, cmd.flags@, j as int);
        let f: &String = &cmd.flags[j].0;
        let fl: &crate::extract::Flag = &cmd.flags[j].1;
        // {p}{long} {f} "
        let mut expanded = str_concat(pre_long.as_str(), " ");
        expanded.append(f.as_str());
        expanded.append(" ");
        // {p}{long} -{fl.short}
        let mut k1 = str_concat(pre_long.as_str(), " -");
        k1.append(fl.short.as_str());
        proof {
            reveal_strlit(" ");
            reveal_strlit(" -");
            assert(" "@ =~= blank());
            assert(" -"@ =~= seq![' ', '-']);
            assert(expanded@ == p_v + long@ + blank() + f@ + blank());
            assert(k1@ == p_v + long@ + seq![' ', '-'] + fl.short@);
        }
        let ghost m0 = m.as_map();
        bind(&mut m, all, lbuf, k1, expanded.clone());
        let ghost pair1 = one_pair(
            all,
            lbuf@,
            p_v + long@ + seq![' ', '-'] + fl.short@,
            p_v + long@ + blank() + f@ + blank(),
        );
        proof {
            lemma_to_map_from_concat(Map::empty(), done, pair1);
            assert(m.as_map() == to_map(done + pair1));
        }
        if fl.squish {
            let mut k2 = str_concat(p.as_str(), cmd.short.as_str());
            k2.append(fl.short.as_str());
            proof {
                assert(k2@ == p_v + short_v + fl.short@);
            }
            let ghost m1 = m.as_map();
            bind(&mut m, all, lbuf, k2, expanded);
            proof {
                let pair2 = one_pair(
                    all,
                    lbuf@,
                    p_v + short_v + fl.short@,
                    p_v + long@ + blank() + f@ + blank(),
                );
                lemma_to_map_from_concat(Map::empty(), done + pair1, pair2);
                assert(m.as_map() == to_map(done + pair1 + pair2));
                assert(done + pair1 + pair2 =~= done + (pair1 + pair2));
                lemma_to_map_from_concat(Map::empty(), done, pair1 + pair2);
                assert(flags_upto(all, lbuf@, p_v, long@, short_v, cmd.flags@, j + 1)
                    =~= flags_upto(all, lbuf@, p_v, long@, short_v, cmd.flags@, j as int) + (pair1
                    + pair2));
                assert(seg0 + flags_upto(all, lbuf@, p_v, long@, short_v, cmd.flags@, j + 1)
                    =~= done + (pair1 + pair2));
            }
        } else {
            proof {
                assert(flag_pairs_one(
                    all,
                    lbuf@,
                    p_v,
                    long@,
                    short_v,
                    f@,
                    fl.short@,
                    fl.squish,
                ) =~= pair1);
                assert(flags_upto(all, lbuf@, p_v, long@, short_v, cmd.flags@, j + 1)
                    =~= flags_upto(all, lbuf@, p_v, long@, short_v, cmd.flags@, j as int) + pair1);
                assert(seg0 + flags_upto(all, lbuf@, p_v, long@, short_v, cmd.flags@, j + 1)
                    =~= done + pair1);
            }
        }
        j = j + 1;
    }
    let ghost seg1 = seg0 + flags_upto(
        all,
        lbuf@,
        p_v,
        long@,
        short_v,
        cmd.flags@,
        cmd.flags@.len() as int,
    );
    // the direct subcommands and their one-level shortcuts
    let mut j: usize = 0;
    while j < cmd.subs.0.len()
        invariant
            0 <= j <= cmd.subs.0@.len(),
            m.wf(),
            p_v == spaced(pfx@),
            short_v == cmd.short@,
            p@ == p_v,
            pre_long@ == p_v + long@,
            seg1 == seg0 + flags_upto(
                all,
                lbuf@,
                p_v,
                long@,
                short_v,
                cmd.flags@,
                cmd.flags@.len() as int,
            ),
            m.as_map() == to_map(
                seg1 + subs_upto(all, lbuf@, p_v, long@, short_v, cmd.subs.0@, j as int),
            ),
        decreases cmd.subs.0@.len() - j,
    {
        let ghost done = seg1 + subs_upto(all, lbuf@, p_v, long@, short_v, cmd.subs.0@, j as int);
        let sub_long: &String = &cmd.subs.0[j].0;
        let sub: &Cmd = &cmd.subs.0[j].1;
        // {p}{short}{sub_short}
        let mut k = str_concat(p.as_str(), cmd.short.as_str());
        k.append(sub.short.as_str());
        // {p}{long} {sub_long} "
        let mut v = str_concat(pre_long.as_str(), " ");
        v.append(sub_long.as_str());
        v.append(" ");
        proof {
            reveal_strlit(" ");
            assert(" "@ =~= blank());
            assert(k@ == p_v + short_v + sub.short@);
            assert(v@ == p_v + long@ + blank() + sub_long@ + blank());
        }
        let starts_with_key = str_starts_with(lbuf, k.as_str());
        let ghost k_v = k@;
        bind(&mut m, all, lbuf, k.clone(), v);
        let ghost pair1 = one_pair(
            all,
            lbuf@,
            p_v + short_v + sub.short@,
            p_v + long@ + blank() + sub_long@ + blank(),
        );
        proof {
            lemma_to_map_from_concat(Map::empty(), done, pair1);
        }
        if starts_with_key {
            // one level of squished grandchild shortcuts
            let mut g: usize = 0;
            while g < sub.subs.0.len()
                invariant
                    0 <= g <= sub.subs.0@.len(),
                    m.wf(),
                    p_v == spaced(pfx@),
                    short_v == cmd.short@,
                    j < cmd.subs.0@.len(),
                    sub == cmd.subs.0@[j as int].1,
                    sub_long@ == cmd.subs.0@[j as int].0@,
                    k_v == p_v + short_v + sub.short@,
                    k_v.is_prefix_of(lbuf@),
                    pre_long@ == p_v + long@,
                    p@ == p_v,
                    m.as_map() == to_map(
                        done + pair1 + gsubs_upto(
                            all,
                            lbuf@,
                            p_v,
                            long@,
                            short_v,
                            cmd.subs.0@,
                            sub_long@,
                            sub.short@,
                            sub.subs.0@,
                            g as int,
                        ),
                    ),
                decreases sub.subs.0@.len() - g,
            {
                let ghost gdone = done + pair1 + gsubs_upto(
                    all,
                    lbuf@,
                    p_v,
                    long@,
                    short_v,
                    cmd.subs.0@,
                    sub_long@,
                    sub.short@,
                    sub.subs.0@,
                    g as int,
                );
                let gsub_long: &String = &sub.subs.0[g].0;
                let gsub: &Cmd = &sub.subs.0[g].1;
                // {sub_short}{gsub_short}
                let mut inner = String::from_str(sub.short.as_str());
                inner.append(gsub.short.as_str());
                // is some sibling's long name equal to it?
                let mut collide: bool = false;
                let mut t: usize = 0;
                while t < cmd.subs.0.len()
                    invariant
                        0 <= t <= cmd.subs.0@.len(),
                        collide == exists|w: int|
                            0 <= w < t && (#[trigger] cmd.subs.0@[w]).0@ == inner@,
                    decreases cmd.subs.0@.len() - t,
                {
                    if crate::strings::str_eq(cmd.subs.0[t].0.as_str(), inner.as_str()) {
                        collide = true;
                    }
                    t = t + 1;
                }
                proof {
                    assert(collide == subs_have_key(cmd.subs.0@, inner@));
                }
                if !collide {
                    // {p}{short}{sub_short}{gsub_short}
                    let mut gk = str_concat(p.as_str(), cmd.short.as_str());
                    gk.append(inner.as_str());
                    // {p}{long} {sub_long} {gsub_long} "
                    let mut gv = str_concat(pre_long.as_str(), " ");
                    gv.append(sub_long.as_str());
                    gv.append(" ");
                    gv.append(gsub_long.as_str());
                    gv.append(" ");
                    proof {
                        reveal_strlit(" ");
                        assert(" "@ =~= blank());
                        assert(gk@ == p_v + short_v + (sub.short@ + gsub.short@));
                        assert(gv@ == p_v + long@ + blank() + sub_long@ + blank() + gsub_long@
                            + blank());
                    }
                    bind(&mut m, all, lbuf, gk, gv);
                    proof {
                        let gpair = one_pair(
                            all,
                            lbuf@,
                            p_v + short_v + (sub.short@ + gsub.short@),
                            p_v + long@ + blank() + sub_long@ + blank() + gsub_long@ + blank(),
                        );
                        lemma_to_map_from_concat(Map::empty(), gdone, gpair);
                        assert(gsubs_upto(
                            all,
                            lbuf@,
                            p_v,
                            long@,
                            short_v,
                            cmd.subs.0@,
                            sub_long@,
                            sub.short@,
                            sub.subs.0@,
                            g + 1,
                        ) =~= gsubs_upto(
                            all,
                            lbuf@,
                            p_v,
                            long@,
                            short_v,
                            cmd.subs.0@,
                            sub_long@,
                            sub.short@,
                            sub.subs.0@,
                            g as int,
                        ) + gpair);
                        assert(done + pair1 + gsubs_upto(
                            all,
                            lbuf@,
                            p_v,
                            long@,
                            short_v,
                            cmd.subs.0@,
                            sub_long@,
                            sub.short@,
                            sub.subs.0@,
                            g + 1,
                        ) =~= gdone + gpair);
                    }
                } else {
                    proof {
                        assert(gsubs_upto(
                            all,
                            lbuf@,
                            p_v,
                            long@,
                            short_v,
                            cmd.subs.0@,
                            sub_long@,
                            sub.short@,
                            sub.subs.0@,
                            g + 1,
                        ) =~= gsubs_upto(
                            all,
                            lbuf@,
                            p_v,
                            long@,
                            short_v,
                            cmd.subs.0@,
                            sub_long@,
                            sub.short@,
                            sub.subs.0@,
                            g as int,
                        ));
                    }
                }
                g = g + 1;
            }
            let ghost gseg = gsubs_upto(
                all,
                lbuf@,
                p_v,
                long@,
                short_v,
                cmd.subs.0@,
                sub_long@,
                sub.short@,
                sub.subs.0@,
                sub.subs.0@.len() as int,
            );
            // the subcommand's own squished flags
            let mut g: usize = 0;
            while g < sub.flags.len()
                invariant
                    0 <= g <= sub.flags@.len(),
                    m.wf(),
                    p_v == spaced(pfx@),
                    short_v == cmd.short@,
                    j < cmd.subs.0@.len(),
                    sub == cmd.subs.0@[j as int].1,
                    sub_long@ == cmd.subs.0@[j as int].0@,
                    k_v == p_v + short_v + sub.short@,
                    k_v.is_prefix_of(lbuf@),
                    pre_long@ == p_v + long@,
                    p@ == p_v,
                    gseg == gsubs_upto(
                        all,
                        lbuf@,
                        p_v,
                        long@,
                        short_v,
                        cmd.subs.0@,
                        sub_long@,
                        sub.short@,
                        sub.subs.0@,
                        sub.subs.0@.len() as int,
                    ),
                    m.as_map() == to_map(
                        done + pair1 + gseg + subflags_upto(
                            all,
                            lbuf@,
                            p_v,
                            long@,
                            short_v,
                            sub_long@,
                            sub.short@,
                            sub.flags@,
                            g as int,
                        ),
                    ),
                decreases sub.flags@.len() - g,
            {
                let ghost fdone = done + pair1 + gseg + subflags_upto(
                    all,
                    lbuf@,
                    p_v,
                    long@,
                    short_v,
                    sub_long@,
                    sub.short@,
                    sub.flags@,
                    g as int,
                );
                let sf: &String = &sub.flags[g].0;
                let sfl: &crate::extract::Flag = &sub.flags[g].1;
                if sfl.squish {
                    // {p}{short}{sub_short}{sfl.short}
                    let mut fk = str_concat(p.as_str(), cmd.short.as_str());
                    fk.append(sub.short.as_str());
                    fk.append(sfl.short.as_str());
                    // {p}{long} {sub_long} {sf} "
                    let mut fv = str_concat(pre_long.as_str(), " ");
                    fv.append(sub_long.as_str());
                    fv.append(" ");
                    fv.append(sf.as_str());
                    fv.append(" ");
                    proof {
                        reveal_strlit(" ");
                        assert(" "@ =~= blank());
                        assert(fk@ == p_v + short_v + sub.short@ + sfl.short@);
                        assert(fv@ == p_v + long@ + blank() + sub_long@ + blank() + sf@ + blank());
                    }
                    bind(&mut m, all, lbuf, fk, fv);
                    proof {
                        let fpair = one_pair(
                            all,
                            lbuf@,
                            p_v + short_v + sub.short@ + sfl.short@,
                            p_v + long@ + blank() + sub_long@ + blank() + sf@ + blank(),
                        );
                        lemma_to_map_from_concat(Map::empty(), fdone, fpair);
                        assert(subflags_upto(
                            all,
                            lbuf@,
                            p_v,
                            long@,
                            short_v,
                            sub_long@,
                            sub.short@,
                            sub.flags@,
                            g + 1,
                        ) =~= subflags_upto(
                            all,
                            lbuf@,
                            p_v,
                            long@,
                            short_v,
                            sub_long@,
                            sub.short@,
                            sub.flags@,
                            g as int,
                        ) + fpair);
                        assert(done + pair1 + gseg + subflags_upto(
                            all,
                            lbuf@,
                            p_v,
                            long@,
                            short_v,
                            sub_long@,
                            sub.short@,
                            sub.flags@,
                            g + 1,
                        ) =~= fdone + fpair);
                    }
                } else {
                    proof {
                        assert(subflags_upto(
                            all,
                            lbuf@,
                            p_v,
                            long@,
                            short_v,
                            sub_long@,
                            sub.short@,
                            sub.flags@,
                            g + 1,
                        ) =~= subflags_upto(
                            all,
                            lbuf@,
                            p_v,
                            long@,
                            short_v,
                            sub_long@,
                            sub.short@,
                            sub.flags@,
                            g as int,
                        ));
                    }
                }
                g = g + 1;
            }
            proof {
                assert(sub_pairs_one(
                    all,
                    lbuf@,
                    p_v,
                    long@,
                    short_v,
                    cmd.subs.0@,
                    sub_long@,
                    *sub,
                ) =~= pair1 + (gseg + subflags_upto(
                    all,
                    lbuf@,
                    p_v,
                    long@,
                    short_v,
                    sub_long@,
                    sub.short@,
                    sub.flags@,
                    sub.flags@.len() as int,
                )));
                assert(subs_upto(all, lbuf@, p_v, long@, short_v, cmd.subs.0@, j + 1)
                    =~= subs_upto(all, lbuf@, p_v, long@, short_v, cmd.subs.0@, j as int)
                    + sub_pairs_one(
                    all,
                    lbuf@,
                    p_v,
                    long@,
                    short_v,
                    cmd.subs.0@,
                    sub_long@,
                    *sub,
                ));
                assert(seg1 + subs_upto(all, lbuf@, p_v, long@, short_v, cmd.subs.0@, j + 1)
                    =~= done + pair1 + gseg + subflags_upto(
                    all,
                    lbuf@,
                    p_v,
                    long@,
                    short_v,
                    sub_long@,
                    sub.short@,
                    sub.flags@,
                    sub.flags@.len() as int,
                ));
            }
        } else {
            proof {
                assert(sub_pairs_one(
                    all,
                    lbuf@,
                    p_v,
                    long@,
                    short_v,
                    cmd.subs.0@,
                    sub_long@,
                    *sub,
                ) =~= pair1);
                assert(subs_upto(all, lbuf@, p_v, long@, short_v, cmd.subs.0@, j + 1)
                    =~= subs_upto(all, lbuf@, p_v, long@, short_v, cmd.subs.0@, j as int) + pair1);
                assert(seg1 + subs_upto(all, lbuf@, p_v, long@, short_v, cmd.subs.0@, j + 1)
                    =~= done + pair1);
            }
        }
        j = j + 1;
    }
    let ghost seg2 = seg1 + subs_upto(
        all,
        lbuf@,
        p_v,
        long@,
        short_v,
        cmd.subs.0@,
        cmd.subs.0@.len() as int,
    );
    // the recursive walks
    let descend_all = str_starts_with(lbuf, pre_long.as_str());
    let mut j: usize = 0;
    while j < cmd.subs.0.len()
        invariant
            0 <= j <= cmd.subs.0@.len(),
            m.wf(),
            p_v == spaced(pfx@),
            short_v == cmd.short@,
            p@ == p_v,
            pre_long@ == p_v + long@,
            descend_all == (p_v + long@).is_prefix_of(lbuf@),
            seg2 == seg1 + subs_upto(
                all,
                lbuf@,
                p_v,
                long@,
                short_v,
                cmd.subs.0@,
                cmd.subs.0@.len() as int,
            ),
            m.as_map() == to_map(seg2 + subs_rec_upto(p_v, *cmd, long@, lbuf@, all, j as int)),
        decreases cmd.subs.0@.len() - j,
    {
        let ghost done = seg2 + subs_rec_upto(p_v, *cmd, long@, lbuf@, all, j as int);
        if all || descend_all {
            let sub_long: &String = &cmd.subs.0[j].0;
            let sub: &Cmd = &cmd.subs.0[j].1;
            let child = compile_recursive(pre_long.clone(), sub, sub_long.as_str(), lbuf, all);
            let ghost child_pairs = node_pairs(pre_long@, *sub, sub_long@, lbuf@, all);
            // merge the child's bindings, later entries overriding
            let ghost base = m.as_map();
            let mut c: usize = 0;
            while c < child.len()
                invariant
                    0 <= c <= child@.len(),
                    m.wf(),
                    child.wf(),
                    child.as_map() == to_map(child_pairs),
                    m.as_map() == base.union_prefer_right(map_of(child@.take(c as int))),
                decreases child@.len() - c,
            {
                let e = child.entry_at(c);
                let ghost mpre = m.as_map();
                m.insert(e.0.clone(), e.1.clone());
                proof {
                    assert(child@.take(c + 1).drop_last() =~= child@.take(c as int));
                    assert(child@.take(c + 1).last() == child@[c as int]);
                    crate::strmap::lemma_map_of_take_push(child@, c as int);
                    assert(m.as_map() =~= base.union_prefer_right(map_of(child@.take(c + 1))));
                }
                c = c + 1;
            }
            proof {
                assert(child@.take(child@.len() as int) =~= child@);
                assert(m.as_map() == base.union_prefer_right(child.as_map()));
                lemma_to_map_from_union(to_map(done), child_pairs);
                lemma_to_map_from_concat(Map::empty(), done, child_pairs);
                assert(m.as_map() == to_map(done + child_pairs));
                assert(subs_rec_upto(p_v, *cmd, long@, lbuf@, all, j + 1) =~= subs_rec_upto(
                    p_v,
                    *cmd,
                    long@,
                    lbuf@,
                    all,
                    j as int,
                ) + child_pairs);
                assert(seg2 + subs_rec_upto(p_v, *cmd, long@, lbuf@, all, j + 1) =~= done
                    + child_pairs);
            }
        } else {
            proof {
                assert(subs_rec_upto(p_v, *cmd, long@, lbuf@, all, j + 1) =~= subs_rec_upto(
                    p_v,
                    *cmd,
                    long@,
                    lbuf@,
                    all,
                    j as int,
                ));
            }
        }
        j = j + 1;
    }
    proof {
        assert(pairs =~= seg2 + subs_rec_upto(p_v, *cmd, long@, lbuf@, all, cmd.subs.0@.len() as int));
    }
    m
}

// ---------------------------------------------------------------------------
// law: pruned compilation binds a subset of exhaustive compilation's keys
// ---------------------------------------------------------------------------

proof fn lemma_one_pair_subset(lbuf: Seq<char>, k: Seq<char>, v: Seq<char>, x: (Seq<char>, Seq<char>))
    requires
        one_pair(false, lbuf, k, v).contains(x),
    ensures
        one_pair(true, lbuf, k, v).contains(x),
{
    assert(x == (k, v));
    assert(one_pair(true, lbuf, k, v)[0] == x);
}

proof fn lemma_flags_subset(
    lbuf: Seq<char>,
    p: Seq<char>,
    long: Seq<char>,
    short: Seq<char>,
    flags: Seq<(String, crate::extract::Flag)>,
    j: int,
    x: (Seq<char>, Seq<char>),
)
    requires
        flags_upto(false, lbuf, p, long, short, flags, j).contains(x),
    ensures
        flags_upto(true, lbuf, p, long, short, flags, j).contains(x),
    decreases j,
{
    if j > 0 {
        let fo = flag_pairs_one(
            false,
            lbuf,
            p,
            long,
            short,
            flags[j - 1].0@,
            flags[j - 1].1.short@,
            flags[j - 1].1.squish,
        );
        let ft = flag_pairs_one(
            true,
            lbuf,
            p,
            long,
            short,
            flags[j - 1].0@,
            flags[j - 1].1.short@,
            flags[j - 1].1.squish,
        );
        crate::strings::lemma_seq_contains_concat(
            flags_upto(false, lbuf, p, long, short, flags, j - 1),
            fo,
            x,
        );
        crate::strings::lemma_seq_contains_concat(
            flags_upto(true, lbuf, p, long, short, flags, j - 1),
            ft,
            x,
        );
        if flags_upto(false, lbuf, p, long, short, flags, j - 1).contains(x) {
            lemma_flags_subset(lbuf, p, long, short, flags, j - 1, x);
        } else {
            let v = p + long + blank() + flags[j - 1].0@ + blank();
            let k1 = p + long + seq![' ', '-'] + flags[j - 1].1.short@;
            let k2 = p + short + flags[j - 1].1.short@;
            crate::strings::lemma_seq_contains_concat(
                one_pair(false, lbuf, k1, v),
                if flags[j - 1].1.squish {
                    one_pair(false, lbuf, k2, v)
                } else {
                    Seq::empty()
                },
                x,
            );
            crate::strings::lemma_seq_contains_concat(
                one_pair(true, lbuf, k1, v),
                if flags[j - 1].1.squish {
                    one_pair(true, lbuf, k2, v)
                } else {
                    Seq::empty()
                },
                x,
            );
            if one_pair(false, lbuf, k1, v).contains(x) {
                lemma_one_pair_subset(lbuf, k1, v, x);
            } else {
                lemma_one_pair_subset(lbuf, k2, v, x);
            }
        }
    }
}

proof fn lemma_gsubs_subset(
    lbuf: Seq<char>,
    p: Seq<char>,
    long: Seq<char>,
    short: Seq<char>,
    siblings: Seq<(String, Cmd)>,
    sub_long: Seq<char>,
    sub_short: Seq<char>,
    gsubs: Seq<(String, Cmd)>,
    m: int,
    x: (Seq<char>, Seq<char>),
)
    requires
        gsubs_upto(false, lbuf, p, long, short, siblings, sub_long, sub_short, gsubs, m).contains(
            x,
        ),
    ensures
        gsubs_upto(true, lbuf, p, long, short, siblings, sub_long, sub_short, gsubs, m).contains(
            x,
        ),
    decreases m,
{
    if m > 0 {
        let inner = sub_short + gsubs[m - 1].1.short@;
        let kk = p + short + inner;
        let vv = p + long + blank() + sub_long + blank() + gsubs[m - 1].0@ + blank();
        let tail_f = if !subs_have_key(siblings, inner) {
            one_pair(false, lbuf, kk, vv)
        } else {
            Seq::empty()
        };
        let tail_t = if !subs_have_key(siblings, inner) {
            one_pair(true, lbuf, kk, vv)
        } else {
            Seq::empty()
        };
        crate::strings::lemma_seq_contains_concat(
            gsubs_upto(false, lbuf, p, long, short, siblings, sub_long, sub_short, gsubs, m - 1),
            tail_f,
            x,
        );
        crate::strings::lemma_seq_contains_concat(
            gsubs_upto(true, lbuf, p, long, short, siblings, sub_long, sub_short, gsubs, m - 1),
            tail_t,
            x,
        );
        if gsubs_upto(false, lbuf, p, long, short, siblings, sub_long, sub_short, gsubs, m - 1)
            .contains(x) {
            lemma_gsubs_subset(lbuf, p, long, short, siblings, sub_long, sub_short, gsubs, m - 1, x);
        } else {
            lemma_one_pair_subset(lbuf, kk, vv, x);
        }
    }
}

proof fn lemma_subflags_subset(
    lbuf: Seq<char>,
    p: Seq<char>,
    long: Seq<char>,
    short: Seq<char>,
    sub_long: Seq<char>,
    sub_short: Seq<char>,
    sflags: Seq<(String, crate::extract::Flag)>,
    m: int,
    x: (Seq<char>, Seq<char>),
)
    requires
        subflags_upto(false, lbuf, p, long, short, sub_long, sub_short, sflags, m).contains(x),
    ensures
        subflags_upto(true, lbuf, p, long, short, sub_long, sub_short, sflags, m).contains(x),
    decreases m,
{
    if m > 0 {
        let kk = p + short + sub_short + sflags[m - 1].1.short@;
        let vv = p + long + blank() + sub_long + blank() + sflags[m - 1].0@ + blank();
        let tail_f = if sflags[m - 1].1.squish {
            one_pair(false, lbuf, kk, vv)
        } else {
            Seq::empty()
        };
        let tail_t = if sflags[m - 1].1.squish {
            one_pair(true, lbuf, kk, vv)
        } else {
            Seq::empty()
        };
        crate::strings::lemma_seq_contains_concat(
            subflags_upto(false, lbuf, p, long, short, sub_long, sub_short, sflags, m - 1),
            tail_f,
            x,
        );
        crate::strings::lemma_seq_contains_concat(
            subflags_upto(true, lbuf, p, long, short, sub_long, sub_short, sflags, m - 1),
            tail_t,
            x,
        );
        if subflags_upto(false, lbuf, p, long, short, sub_long, sub_short, sflags, m - 1).contains(
            x,
        ) {
            lemma_subflags_subset(lbuf, p, long, short, sub_long, sub_short, sflags, m - 1, x);
        } else {
            lemma_one_pair_subset(lbuf, kk, vv, x);
        }
    }
}

proof fn lemma_sub_one_subset(
    lbuf: Seq<char>,
    p: Seq<char>,
    long: Seq<char>,
    short: Seq<char>,
    siblings: Seq<(String, Cmd)>,
    sub_long: Seq<char>,
    sub: Cmd,
    x: (Seq<char>, Seq<char>),
)
    requires
        sub_pairs_one(false, lbuf, p, long, short, siblings, sub_long, sub).contains(x),
    ensures
        sub_pairs_one(true, lbuf, p, long, short, siblings, sub_long, sub).contains(x),
{
    let k = p + short + sub.short@;
    let v = p + long + blank() + sub_long + blank();
    let gs_f = if k.is_prefix_of(lbuf) {
        gsubs_upto(
            false,
            lbuf,
            p,
            long,
            short,
            siblings,
            sub_long,
            sub.short@,
            sub.subs.0@,
            sub.subs.0@.len() as int,
        ) + subflags_upto(
            false,
            lbuf,
            p,
            long,
            short,
            sub_long,
            sub.short@,
            sub.flags@,
            sub.flags@.len() as int,
        )
    } else {
        Seq::empty()
    };
    let gs_t = if k.is_prefix_of(lbuf) {
        gsubs_upto(
            true,
            lbuf,
            p,
            long,
            short,
            siblings,
            sub_long,
            sub.short@,
            sub.subs.0@,
            sub.subs.0@.len() as int,
        ) + subflags_upto(
            true,
            lbuf,
            p,
            long,
            short,
            sub_long,
            sub.short@,
            sub.flags@,
            sub.flags@.len() as int,
        )
    } else {
        Seq::empty()
    };
    crate::strings::lemma_seq_contains_concat(one_pair(false, lbuf, k, v), gs_f, x);
    crate::strings::lemma_seq_contains_concat(one_pair(true, lbuf, k, v), gs_t, x);
    if one_pair(false, lbuf, k, v).contains(x) {
        lemma_one_pair_subset(lbuf, k, v, x);
    } else {
        crate::strings::lemma_seq_contains_concat(
            gsubs_upto(
                false,
                lbuf,
                p,
                long,
                short,
                siblings,
                sub_long,
                sub.short@,
                sub.subs.0@,
                sub.subs.0@.len() as int,
            ),
            subflags_upto(
                false,
                lbuf,
                p,
                long,
                short,
                sub_long,
                sub.short@,
                sub.flags@,
                sub.flags@.len() as int,
            ),
            x,
        );
        crate::strings::lemma_seq_contains_concat(
            gsubs_upto(
                true,
                lbuf,
                p,
                long,
                short,
                siblings,
                sub_long,
                sub.short@,
                sub.subs.0@,
                sub.subs.0@.len() as int,
            ),
            subflags_upto(
                true,
                lbuf,
                p,
                long,
                short,
                sub_long,
                sub.short@,
                sub.flags@,
                sub.flags@.len() as int,
            ),
            x,
        );
        if gsubs_upto(
            false,
            lbuf,
            p,
            long,
            short,
            siblings,
            sub_long,
            sub.short@,
            sub.subs.0@,
            sub.subs.0@.len() as int,
        ).contains(x) {
            lemma_gsubs_subset(
                lbuf,
                p,
                long,
                short,
                siblings,
                sub_long,
                sub.short@,
                sub.subs.0@,
                sub.subs.0@.len() as int,
                x,
            );
        } else {
            lemma_subflags_subset(
                lbuf,
                p,
                long,
                short,
                sub_long,
                sub.short@,
                sub.flags@,
                sub.flags@.len() as int,
                x,
            );
        }
    }
}

proof fn lemma_subs_subset(
    lbuf: Seq<char>,
    p: Seq<char>,
    long: Seq<char>,
    short: Seq<char>,
    subs: Seq<(String, Cmd)>,
    j: int,
    x: (Seq<char>, Seq<char>),
)
    requires
        subs_upto(false, lbuf, p, long, short, subs, j).contains(x),
    ensures
        subs_upto(true, lbuf, p, long, short, subs, j).contains(x),
    decreases j,
{
    if j > 0 {
        crate::strings::lemma_seq_contains_concat(
            subs_upto(false, lbuf, p, long, short, subs, j - 1),
            sub_pairs_one(false, lbuf, p, long, short, subs, subs[j - 1].0@, subs[j - 1].1),
            x,
        );
        crate::strings::lemma_seq_contains_concat(
            subs_upto(true, lbuf, p, long, short, subs, j - 1),
            sub_pairs_one(true, lbuf, p, long, short, subs, subs[j - 1].0@, subs[j - 1].1),
            x,
        );
        if subs_upto(false, lbuf, p, long, short, subs, j - 1).contains(x) {
            lemma_subs_subset(lbuf, p, long, short, subs, j - 1, x);
        } else {
            lemma_sub_one_subset(lbuf, p, long, short, subs, subs[j - 1].0@, subs[j - 1].1, x);
        }
    }
}

proof fn lemma_node_subset(
    pfx: Seq<char>,
    cmd: Cmd,
    long: Seq<char>,
    lbuf: Seq<char>,
    x: (Seq<char>, Seq<char>),
)
    requires
        node_pairs(pfx, cmd, long, lbuf, false).contains(x),
    ensures
        node_pairs(pfx, cmd, long, lbuf, true).contains(x),
    decreases cmd, 1int, 0int,
{
    let p = spaced(pfx);
    let pre_short = p + cmd.short@;
    let pre_long = p + long;
    let seg0f = one_pair(false, lbuf, pre_short, pre_long + blank());
    let seg0t = one_pair(true, lbuf, pre_short, pre_long + blank()) + seq![
        (pre_long, pre_long + blank()),
    ];
    let flagsf = flags_upto(false, lbuf, p, long, cmd.short@, cmd.flags@, cmd.flags@.len() as int);
    let flagst = flags_upto(true, lbuf, p, long, cmd.short@, cmd.flags@, cmd.flags@.len() as int);
    let subsf = subs_upto(false, lbuf, p, long, cmd.short@, cmd.subs.0@, cmd.subs.0@.len() as int);
    let subst = subs_upto(true, lbuf, p, long, cmd.short@, cmd.subs.0@, cmd.subs.0@.len() as int);
    let recf = subs_rec_upto(p, cmd, long, lbuf, false, cmd.subs.0@.len() as int);
    let rect = subs_rec_upto(p, cmd, long, lbuf, true, cmd.subs.0@.len() as int);
    assert(node_pairs(pfx, cmd, long, lbuf, false) == seg0f + Seq::<(Seq<char>, Seq<char>)>::empty()
        + flagsf + subsf + recf);
    assert(node_pairs(pfx, cmd, long, lbuf, true) == one_pair(true, lbuf, pre_short, pre_long
        + blank()) + seq![(pre_long, pre_long + blank())] + flagst + subst + rect);
    crate::strings::lemma_seq_contains_concat(
        seg0f + Seq::<(Seq<char>, Seq<char>)>::empty() + flagsf + subsf,
        recf,
        x,
    );
    crate::strings::lemma_seq_contains_concat(
        seg0f + Seq::<(Seq<char>, Seq<char>)>::empty() + flagsf,
        subsf,
        x,
    );
    crate::strings::lemma_seq_contains_concat(
        seg0f + Seq::<(Seq<char>, Seq<char>)>::empty(),
        flagsf,
        x,
    );
    crate::strings::lemma_seq_contains_concat(seg0f, Seq::<(Seq<char>, Seq<char>)>::empty(), x);
    if seg0f.contains(x) {
        lemma_one_pair_subset(lbuf, pre_short, pre_long + blank(), x);
        assert((one_pair(true, lbuf, pre_short, pre_long + blank()) + seq![
            (pre_long, pre_long + blank()),
        ]).contains(x)) by {
            crate::strings::lemma_seq_contains_concat(
                one_pair(true, lbuf, pre_short, pre_long + blank()),
                seq![(pre_long, pre_long + blank())],
                x,
            );
        }
    } else if flagsf.contains(x) {
        lemma_flags_subset(lbuf, p, long, cmd.short@, cmd.flags@, cmd.flags@.len() as int, x);
    } else if subsf.contains(x) {
        lemma_subs_subset(lbuf, p, long, cmd.short@, cmd.subs.0@, cmd.subs.0@.len() as int, x);
    } else {
        assert(recf.contains(x));
        lemma_subs_rec_subset(p, cmd, long, lbuf, cmd.subs.0@.len() as int, x);
    }
    // reassemble membership on the exhaustive side
    let a1 = one_pair(true, lbuf, pre_short, pre_long + blank()) + seq![
        (pre_long, pre_long + blank()),
    ];
    crate::strings::lemma_seq_contains_concat(a1, flagst, x);
    crate::strings::lemma_seq_contains_concat(a1 + flagst, subst, x);
    crate::strings::lemma_seq_contains_concat(a1 + flagst + subst, rect, x);
}

proof fn lemma_subs_rec_subset(
    p: Seq<char>,
    cmd: Cmd,
    long: Seq<char>,
    lbuf: Seq<char>,
    j: int,
    x: (Seq<char>, Seq<char>),
)
    requires
        subs_rec_upto(p, cmd, long, lbuf, false, j).contains(x),
    ensures
        subs_rec_upto(p, cmd, long, lbuf, true, j).contains(x),
    decreases cmd, 0int, j,
{
    if j > 0 {
        let tail_f = if (p + long).is_prefix_of(lbuf) {
            if 0 <= j - 1 < cmd.subs.0@.len() {
                node_pairs(p + long, cmd.subs.0@[j - 1].1, cmd.subs.0@[j - 1].0@, lbuf, false)
            } else {
                Seq::empty()
            }
        } else {
            Seq::empty()
        };
        let tail_t = if 0 <= j - 1 < cmd.subs.0@.len() {
            node_pairs(p + long, cmd.subs.0@[j - 1].1, cmd.subs.0@[j - 1].0@, lbuf, true)
        } else {
            Seq::empty()
        };
        crate::strings::lemma_seq_contains_concat(
            subs_rec_upto(p, cmd, long, lbuf, false, j - 1),
            tail_f,
            x,
        );
        crate::strings::lemma_seq_contains_concat(
            subs_rec_upto(p, cmd, long, lbuf, true, j - 1),
            tail_t,
            x,
        );
        if subs_rec_upto(p, cmd, long, lbuf, false, j - 1).contains(x) {
            lemma_subs_rec_subset(p, cmd, long, lbuf, j - 1, x);
        } else {
            assert(tail_f.contains(x));
            assert((p + long).is_prefix_of(lbuf) && 0 <= j - 1 < cmd.subs.0@.len());
            lemma_node_subset(p + long, cmd.subs.0@[j - 1].1, cmd.subs.0@[j - 1].0@, lbuf, x);
        }
    }
}

proof fn lemma_compile_subset(
    cmds: Seq<(String, Cmd)>,
    lbuf: Seq<char>,
    j: int,
    x: (Seq<char>, Seq<char>),
)
    requires
        compile_upto(cmds, lbuf, false, j).contains(x),
    ensures
        compile_upto(cmds, lbuf, true, j).contains(x),
    decreases j,
{
    if j > 0 {
        let root_in = lbuf.len() == 0 || cmds[j - 1].1.short@.is_prefix_of(lbuf) || cmds[j
            - 1].0@.is_prefix_of(lbuf);
        let tail_f = if root_in {
            node_pairs(Seq::empty(), cmds[j - 1].1, cmds[j - 1].0@, lbuf, false)
        } else {
            Seq::empty()
        };
        let tail_t = if root_in {
            node_pairs(Seq::empty(), cmds[j - 1].1, cmds[j - 1].0@, lbuf, true)
        } else {
            Seq::empty()
        };
        crate::strings::lemma_seq_contains_concat(compile_upto(cmds, lbuf, false, j - 1), tail_f, x);
        crate::strings::lemma_seq_contains_concat(compile_upto(cmds, lbuf, true, j - 1), tail_t, x);
        if compile_upto(cmds, lbuf, false, j - 1).contains(x) {
            lemma_compile_subset(cmds, lbuf, j - 1, x);
        } else {
            lemma_node_subset(Seq::empty(), cmds[j - 1].1, cmds[j - 1].0@, lbuf, x);
        }
    }
}

/// The domain of a fold is the base domain plus the bindings' keys.
pub proof fn lemma_to_map_from_dom(
    m: Map<Seq<char>, Seq<char>>,
    s: Seq<(Seq<char>, Seq<char>)>,
    k: Seq<char>,
)
    ensures
        to_map_from(m, s).dom().contains(k) == (m.dom().contains(k) || exists|i: int|
            0 <= i < s.len() && (#[trigger] s[i]).0 == k),
    decreases s.len(),
{
    if s.len() == 0 {
    } else {
        lemma_to_map_from_dom(m, s.drop_last(), k);
        if exists|i: int| 0 <= i < s.drop_last().len() && (#[trigger] s.drop_last()[i]).0 == k {
            let i = choose|i: int|
                0 <= i < s.drop_last().len() && (#[trigger] s.drop_last()[i]).0 == k;
            assert(s[i].0 == k);
        }
        if s.last().0 == k {
            assert(s[s.len() - 1].0 == k);
        }
        if exists|i: int| 0 <= i < s.len() && (#[trigger] s[i]).0 == k {
            let i = choose|i: int| 0 <= i < s.len() && (#[trigger] s[i]).0 == k;
            if i < s.len() - 1 {
                assert(s.drop_last()[i].0 == k);
            }
        }
    }
}

/// Law: pruning is monotonic. Every key the pruned compilation binds, the
/// exhaustive compilation of the same tree and buffer binds too.
pub proof fn lemma_compile_monotonic(cmds: Cmds, lbuf: Seq<char>, k: Seq<char>)
    requires
        compile_map(cmds, lbuf, false).dom().contains(k),
    ensures
        compile_map(cmds, lbuf, true).dom().contains(k),
{
    let pf = compile_pairs(cmds, lbuf, false);
    let pt = compile_pairs(cmds, lbuf, true);
    lemma_to_map_from_dom(Map::empty(), pf, k);
    let i = choose|i: int| 0 <= i < pf.len() && (#[trigger] pf[i]).0 == k;
    assert(pf.contains(pf[i]));
    lemma_compile_subset(cmds.0@, lbuf, cmds.0@.len() as int, pf[i]);
    let t = choose|t: int| 0 <= t < pt.len() && pt[t] == pf[i];
    lemma_to_map_from_dom(Map::empty(), pt, k);
    assert(pt[t].0 == k);
}

// ---------------------------------------------------------------------------
// law: a compiled command expansion, taken as the buffer, binds itself
// ---------------------------------------------------------------------------

/// Whether `v` is the full expansion of some command reachable from `cmds`,
/// where `q` is the accumulated prefix a node walk would be entered with.
pub open spec fn is_expansion_from(q: Seq<char>, cmds: Seq<(String, Cmd)>, v: Seq<char>) -> bool
    decreases cmds,
{
    exists|i: int|
        0 <= i < cmds.len() && (v == spaced(q) + (#[trigger] cmds[i]).0@ + blank()
            || is_expansion_from(spaced(q) + cmds[i].0@, cmds[i].1.subs.0@, v))
}

/// Every expansion under `q` starts with `spaced(q)`.
proof fn lemma_expansion_prefix(q: Seq<char>, cmds: Seq<(String, Cmd)>, v: Seq<char>)
    requires
        is_expansion_from(q, cmds, v),
    ensures
        spaced(q).is_prefix_of(v),
    decreases cmds,
{
    let i = choose|i: int|
        0 <= i < cmds.len() && (v == spaced(q) + (#[trigger] cmds[i]).0@ + blank()
            || is_expansion_from(spaced(q) + cmds[i].0@, cmds[i].1.subs.0@, v));
    if v == spaced(q) + cmds[i].0@ + blank() {
        assert(spaced(q) =~= v.take(spaced(q).len() as int));
    } else {
        lemma_expansion_prefix(spaced(q) + cmds[i].0@, cmds[i].1.subs.0@, v);
        let q2 = spaced(spaced(q) + cmds[i].0@);
        assert(spaced(q).is_prefix_of(q2)) by {
            assert(spaced(q) =~= q2.take(spaced(q).len() as int));
        }
        assert(spaced(q) =~= v.take(spaced(q).len() as int));
    }
}

/// Membership in one recursive walk lifts into the walks segment.
proof fn lemma_subs_rec_contains(
    p: Seq<char>,
    cmd: Cmd,
    long: Seq<char>,
    lbuf: Seq<char>,
    i: int,
    j: int,
    x: (Seq<char>, Seq<char>),
)
    requires
        0 <= i < j <= cmd.subs.0@.len(),
        node_pairs(p + long, cmd.subs.0@[i].1, cmd.subs.0@[i].0@, lbuf, true).contains(x),
    ensures
        subs_rec_upto(p, cmd, long, lbuf, true, j).contains(x),
    decreases j,
{
    if i == j - 1 {
        crate::strings::lemma_seq_contains_concat(
            subs_rec_upto(p, cmd, long, lbuf, true, j - 1),
            node_pairs(p + long, cmd.subs.0@[j - 1].1, cmd.subs.0@[j - 1].0@, lbuf, true),
            x,
        );
    } else {
        lemma_subs_rec_contains(p, cmd, long, lbuf, i, j - 1, x);
        crate::strings::lemma_seq_contains_concat(
            subs_rec_upto(p, cmd, long, lbuf, true, j - 1),
            if 0 <= j - 1 < cmd.subs.0@.len() {
                node_pairs(p + long, cmd.subs.0@[j - 1].1, cmd.subs.0@[j - 1].0@, lbuf, true)
            } else {
                Seq::empty()
            },
            x,
        );
    }
}

/// In exhaustive mode a node's walk emits its own long self-binding, and the
/// self-binding of every command reachable below it.
proof fn lemma_node_contains_expansions(
    pfx: Seq<char>,
    cmd: Cmd,
    long: Seq<char>,
    lbuf: Seq<char>,
    v: Seq<char>,
)
    requires
        v == spaced(pfx) + long + blank() || is_expansion_from(
            spaced(pfx) + long,
            cmd.subs.0@,
            v,
        ),
    ensures
        node_pairs(pfx, cmd, long, lbuf, true).contains((v.drop_last(), v)),
    decreases cmd,
{
    let p = spaced(pfx);
    let pre_short = p + cmd.short@;
    let pre_long = p + long;
    let a1 = one_pair(true, lbuf, pre_short, pre_long + blank()) + seq![
        (pre_long, pre_long + blank()),
    ];
    let flagst = flags_upto(true, lbuf, p, long, cmd.short@, cmd.flags@, cmd.flags@.len() as int);
    let subst = subs_upto(true, lbuf, p, long, cmd.short@, cmd.subs.0@, cmd.subs.0@.len() as int);
    let rect = subs_rec_upto(p, cmd, long, lbuf, true, cmd.subs.0@.len() as int);
    assert(node_pairs(pfx, cmd, long, lbuf, true) == a1 + flagst + subst + rect);
    if v == p + long + blank() {
        assert(v.drop_last() =~= pre_long);
        assert(a1.contains((v.drop_last(), v))) by {
            assert(a1[a1.len() - 1] == (pre_long, pre_long + blank()));
        }
    } else {
        let q = pre_long;
        let i = choose|i: int|
            0 <= i < cmd.subs.0@.len() && (v == spaced(q) + (#[trigger] cmd.subs.0@[i]).0@
                + blank() || is_expansion_from(
                spaced(q) + cmd.subs.0@[i].0@,
                cmd.subs.0@[i].1.subs.0@,
                v,
            ));
        lemma_node_contains_expansions(q, cmd.subs.0@[i].1, cmd.subs.0@[i].0@, lbuf, v);
        lemma_subs_rec_contains(p, cmd, long, lbuf, i, cmd.subs.0@.len() as int, (
            v.drop_last(),
            v,
        ));
    }
    crate::strings::lemma_seq_contains_concat(a1, flagst, (v.drop_last(), v));
    crate::strings::lemma_seq_contains_concat(a1 + flagst, subst, (v.drop_last(), v));
    crate::strings::lemma_seq_contains_concat(a1 + flagst + subst, rect, (v.drop_last(), v));
}

/// Membership in one root's walk lifts into the whole tree's bindings.
proof fn lemma_compile_upto_contains(
    cmds: Seq<(String, Cmd)>,
    lbuf: Seq<char>,
    i: int,
    j: int,
    x: (Seq<char>, Seq<char>),
)
    requires
        0 <= i < j <= cmds.len(),
        lbuf.len() == 0 || cmds[i].1.short@.is_prefix_of(lbuf) || cmds[i].0@.is_prefix_of(lbuf),
        node_pairs(Seq::empty(), cmds[i].1, cmds[i].0@, lbuf, true).contains(x),
    ensures
        compile_upto(cmds, lbuf, true, j).contains(x),
    decreases j,
{
    let tail = if lbuf.len() == 0 || cmds[j - 1].1.short@.is_prefix_of(lbuf) || cmds[j
        - 1].0@.is_prefix_of(lbuf) {
        node_pairs(Seq::empty(), cmds[j - 1].1, cmds[j - 1].0@, lbuf, true)
    } else {
        Seq::empty()
    };
    if i == j - 1 {
        crate::strings::lemma_seq_contains_concat(compile_upto(cmds, lbuf, true, j - 1), tail, x);
    } else {
        lemma_compile_upto_contains(cmds, lbuf, i, j - 1, x);
        crate::strings::lemma_seq_contains_concat(compile_upto(cmds, lbuf, true, j - 1), tail, x);
    }
}

/// When every binding of key `k` in the sequence carries the value `v`, and
/// one such binding occurs, the folded map sends `k` to `v`.
proof fn lemma_to_map_value(
    m: Map<Seq<char>, Seq<char>>,
    s: Seq<(Seq<char>, Seq<char>)>,
    k: Seq<char>,
    v: Seq<char>,
)
    requires
        s.contains((k, v)),
        forall|i: int| 0 <= i < s.len() && (#[trigger] s[i]).0 == k ==> s[i].1 == v,
    ensures
        to_map_from(m, s).dom().contains(k),
        to_map_from(m, s)[k] == v,
    decreases s.len(),
{
    if s.last().0 == k {
        assert(s[s.len() - 1].1 == v);
    } else {
        let i = choose|i: int| 0 <= i < s.len() && s[i] == (k, v);
        assert(i < s.len() - 1);
        assert(s.drop_last()[i] == (k, v));
        assert(s.drop_last().contains((k, v)));
        assert forall|t: int|
            0 <= t < s.drop_last().len() && (#[trigger] s.drop_last()[t]).0 == k implies s.drop_last()[t].1
            == v by {
            assert(s[t] == s.drop_last()[t]);
        }
        lemma_to_map_value(m, s.drop_last(), k, v);
    }
}

/// Law: compiled bindings are reversible. Any command expansion `v` the
/// compiler can produce as a value, re-compiled in exhaustive mode with `v`
/// itself as the buffer, is bound under its own text (less the trailing
/// space) — provided no other binding claims that key, as deconfliction is
/// meant to guarantee.
pub proof fn lemma_compile_reversible(
    cmds: Cmds,
    lbuf: Seq<char>,
    all: bool,
    k: Seq<char>,
    v: Seq<char>,
)
    requires
        compile_map(cmds, lbuf, all).dom().contains(k),
        compile_map(cmds, lbuf, all)[k] == v,
        is_expansion_from(Seq::empty(), cmds.0@, v),
        forall|i: int|
            0 <= i < compile_pairs(cmds, v, true).len() && (#[trigger] compile_pairs(
                cmds,
                v,
                true,
            )[i]).0 == v.drop_last() ==> compile_pairs(cmds, v, true)[i].1 == v,
    ensures
        compile_map(cmds, v, true).dom().contains(v.drop_last()),
        compile_map(cmds, v, true)[v.drop_last()] == v,
{
    assert(spaced(Seq::<char>::empty()) =~= Seq::<char>::empty());
    let i = choose|i: int|
        0 <= i < cmds.0@.len() && (v == spaced(Seq::<char>::empty()) + (#[trigger] cmds.0@[i]).0@
            + blank() || is_expansion_from(
            spaced(Seq::<char>::empty()) + cmds.0@[i].0@,
            cmds.0@[i].1.subs.0@,
            v,
        ));
    let long = cmds.0@[i].0@;
    // the root's long name is a prefix of the buffer v
    assert(long.is_prefix_of(v)) by {
        if v == spaced(Seq::<char>::empty()) + long + blank() {
            assert(v == long + blank());
            assert(long =~= v.take(long.len() as int));
        } else {
            assert(spaced(Seq::<char>::empty()) + long =~= long);
            lemma_expansion_prefix(long, cmds.0@[i].1.subs.0@, v);
            assert(long.is_prefix_of(spaced(long))) by {
                assert(long =~= spaced(long).take(long.len() as int));
            }
            assert(long =~= v.take(long.len() as int));
        }
    }
    assert(v == spaced(Seq::<char>::empty()) + long + blank() ==> v == Seq::<char>::empty() + long
        + blank());
    lemma_node_contains_expansions(Seq::empty(), cmds.0@[i].1, long, v, v);
    lemma_compile_upto_contains(cmds.0@, v, i, cmds.0@.len() as int, (v.drop_last(), v));
    lemma_to_map_value(Map::empty(), compile_pairs(cmds, v, true), v.drop_last(), v);
}

/// Inserts every entry of `other` into `m`, in entry order.
fn merge_into(m: &mut StringMap, other: &StringMap)
    requires
        old(m).wf(),
        other.wf(),
    ensures
        final(m).wf(),
        final(m).as_map() == old(m).as_map().union_prefer_right(other.as_map()),
{
    let ghost base = m.as_map();
    let mut c: usize = 0;
    while c < other.len()
        invariant
            0 <= c <= other@.len(),
            m.wf(),
            other.wf(),
            base == old(m).as_map(),
            m.as_map() == base.union_prefer_right(map_of(other@.take(c as int))),
        decreases other@.len() - c,
    {
        let e = other.entry_at(c);
        m.insert(e.0.clone(), e.1.clone());
        proof {
            crate::strmap::lemma_map_of_take_push(other@, c as int);
            assert(m.as_map() =~= base.union_prefer_right(map_of(other@.take(c + 1))));
        }
        c = c + 1;
    }
    proof {
        assert(other@.take(other@.len() as int) =~= other@);
    }
}

/// Compiles a whole tree: walks each root command whose short or long form
/// is consistent with the buffer, an empty buffer meaning all of them, and
/// merges the walks in order.
pub fn compile(cmds: &Cmds, lbuf: &str, all: bool) -> (r: StringMap)
    ensures
        r.wf(),
        r.as_map() == compile_map(*cmds, lbuf@, all),
{
    let mut r = StringMap::new();
    let mut j: usize = 0;
    while j < cmds.0.len()
        invariant
            0 <= j <= cmds.0@.len(),
            r.wf(),
            r.as_map() == to_map(compile_upto(cmds.0@, lbuf@, all, j as int)),
        decreases cmds.0@.len() - j,
    {
        let ghost done = compile_upto(cmds.0@, lbuf@, all, j as int);
        let long: &String = &cmds.0[j].0;
        let cmd: &Cmd = &cmds.0[j].1;
        if lbuf.unicode_len() == 0 || str_starts_with(lbuf, cmd.short.as_str()) || str_starts_with(
            lbuf,
            long.as_str(),
        ) {
            let child = compile_recursive(String::new(), cmd, long.as_str(), lbuf, all);
            let ghost child_pairs = node_pairs(Seq::empty(), *cmd, long@, lbuf@, all);
            merge_into(&mut r, &child);
            proof {
                lemma_to_map_from_union(to_map(done), child_pairs);
                lemma_to_map_from_concat(Map::empty(), done, child_pairs);
                assert(compile_upto(cmds.0@, lbuf@, all, j + 1) =~= done + child_pairs);
            }
        } else {
            proof {
                assert(compile_upto(cmds.0@, lbuf@, all, j + 1) =~= done);
            }
        }
        j = j + 1;
    }
    r
}

// ---------------------------------------------------------------------------
// the prefix extender
// ---------------------------------------------------------------------------

/// The compiled values that start with the buffer and have as many words as
/// it, among the first `j` entries, in entry order.
pub open spec fn relevant_values_upto(
    entries: Seq<(Seq<char>, Seq<char>)>,
    lbuf: Seq<char>,
    j: int,
) -> Seq<Seq<char>>
    decreases j,
{
    if j <= 0 {
        Seq::empty()
    } else {
        relevant_values_upto(entries, lbuf, j - 1) + (if lbuf.is_prefix_of(entries[j - 1].1)
            && spec_words(entries[j - 1].1).len() == spec_words(lbuf).len() {
            seq![entries[j - 1].1]
        } else {
            Seq::empty()
        })
    }
}

/// A sorted sequence with adjacent duplicates removed.
pub open spec fn dedup_sorted(s: Seq<Seq<char>>) -> Seq<Seq<char>>
    decreases s.len(),
{
    if s.len() == 0 {
        Seq::empty()
    } else if s.len() >= 2 && s.last() == s[s.len() - 2] {
        dedup_sorted(s.drop_last())
    } else {
        dedup_sorted(s.drop_last()).push(s.last())
    }
}

/// Extends the map with the proper prefixes of `s` from length `l` up to,
/// but not including, the last character, binding each to `s`; in pruned
/// mode lengths shorter than the buffer are skipped and only the first
/// binding strictly longer than the buffer is added.
pub open spec fn add_pfx_one(
    m: Map<Seq<char>, Seq<char>>,
    lbuf: Seq<char>,
    all: bool,
    s: Seq<char>,
    l: int,
) -> Map<Seq<char>, Seq<char>>
    decreases s.len() - l,
{
    if l > s.len() - 2 || l < 0 {
        m
    } else if !all && lbuf.len() > l {
        add_pfx_one(m, lbuf, all, s, l + 1)
    } else {
        let m2 = m.insert(s.take(l), s);
        if !all && l > lbuf.len() {
            m2
        } else {
            add_pfx_one(m2, lbuf, all, s, l + 1)
        }
    }
}

/// Processes the first `j` relevant values: each value whose unique prefix
/// (against the pool of relevant values, with the compiled keys denied) is
/// shorter than itself contributes its extra prefix bindings.
pub open spec fn add_pfxs_upto(
    m: Map<Seq<char>, Seq<char>>,
    lbuf: Seq<char>,
    all: bool,
    strings: Seq<Seq<char>>,
    deny: Seq<Seq<char>>,
    j: int,
) -> Map<Seq<char>, Seq<char>>
    decreases j,
{
    if j <= 0 {
        m
    } else {
        let m1 = add_pfxs_upto(m, lbuf, all, strings, deny, j - 1);
        let s = strings[j - 1];
        let pfx = unique_prefix(strings, deny, s);
        if pfx == s {
            m1
        } else {
            add_pfx_one(m1, lbuf, all, s, pfx.len() as int)
        }
    }
}

/// The keys of an entry sequence, in order.
pub open spec fn keys_of(entries: Seq<(Seq<char>, Seq<char>)>) -> Seq<Seq<char>> {
    entries.map_values(|e: (Seq<char>, Seq<char>)| e.0)
}

/// What the prefix extender returns for a compiled map.
pub open spec fn add_prefixes_map(
    entries: Seq<(Seq<char>, Seq<char>)>,
    lbuf: Seq<char>,
    all: bool,
) -> Map<Seq<char>, Seq<char>> {
    let strings = dedup_sorted(sorted_lex(relevant_values_upto(entries, lbuf, entries.len() as int)));
    add_pfxs_upto(map_of(entries), lbuf, all, strings, keys_of(entries), strings.len() as int)
}

/// The proper prefixes of `s` of length `l` and more, except the one that
/// only lacks the last character.
pub fn prefixes(s: &str, l: usize) -> (r: Vec<String>)
    requires
        l < s@.len(),
    ensures
        r@.len() == (if s@.len() - 1 - l >= 0 {
            s@.len() - 1 - l
        } else {
            0
        }),
        forall|m: int| 0 <= m < r@.len() ==> (#[trigger] r@[m])@ == s@.take(l + m),
{
    let n: usize = s.unicode_len();
    let mut r: Vec<String> = Vec::new();
    let mut len: usize = l;
    while len < n - 1
        invariant
            l <= len <= n - 1 || (len == l && l >= n - 1),
            n == s@.len(),
            l < n,
            r@.len() == len - l,
            forall|m: int| 0 <= m < r@.len() ==> (#[trigger] r@[m])@ == s@.take(l + m),
        decreases n - len,
    {
        r.push(String::from_str(s.substring_char(0, len)));
        proof {
            assert(s@.subrange(0, len as int) =~= s@.take(l + (len - l)));
        }
        len = len + 1;
    }
    r
}

/// Post-processes a compiled map: binds shorter unique prefixes of the
/// relevant compiled values as additional keys, so that typing fewer
/// characters than a full abbreviation still resolves.
pub fn add_prefixes(compiled: StringMap, lbuf: &str, all: bool) -> (r: StringMap)
    requires
        compiled.wf(),
    ensures
        r.wf(),
        r.as_map() == add_prefixes_map(compiled@, lbuf@, all),
{
    let lbuf_len: usize = lbuf.unicode_len();
    let lwords: usize = split_words(lbuf).len();
    // the values the buffer could still become
    let mut strings: Vec<String> = Vec::new();
    let mut i: usize = 0;
    while i < compiled.len()
        invariant
            0 <= i <= compiled@.len(),
            compiled.wf(),
            lwords == spec_words(lbuf@).len(),
            views_of(strings@) == relevant_values_upto(compiled@, lbuf@, i as int),
        decreases compiled@.len() - i,
    {
        let ghost pre = views_of(strings@);
        let e = compiled.entry_at(i);
        if str_starts_with(e.1.as_str(), lbuf) && split_words(e.1.as_str()).len() == lwords {
            strings.push(e.1.clone());
            proof {
                assert(views_of(strings@) =~= pre + seq![compiled@[i as int].1]);
            }
        } else {
            proof {
                assert(relevant_values_upto(compiled@, lbuf@, i + 1) =~= pre);
            }
        }
        i = i + 1;
    }
    sort_strings(&mut strings);
    // drop duplicates of the now-adjacent equal values
    let mut pool: Vec<String> = Vec::new();
    let mut i: usize = 0;
    while i < strings.len()
        invariant
            0 <= i <= strings@.len(),
            views_of(pool@) == dedup_sorted(views_of(strings@).take(i as int)),
        decreases strings@.len() - i,
    {
        let ghost pre = views_of(pool@);
        proof {
            assert(views_of(strings@).take(i + 1).drop_last() =~= views_of(strings@).take(i as int));
            assert(views_of(strings@).take(i + 1).last() == views_of(strings@)[i as int]);
        }
        if i > 0 && str_eq(strings[i].as_str(), strings[i - 1].as_str()) {
            proof {
                assert(views_of(strings@).take(i + 1)[i - 1] == views_of(strings@)[i - 1]);
            }
        } else {
            pool.push(strings[i].clone());
            proof {
                assert(views_of(pool@) =~= pre.push(views_of(strings@)[i as int]));
            }
        }
        i = i + 1;
    }
    proof {
        assert(views_of(strings@).take(strings@.len() as int) =~= views_of(strings@));
    }
    let denylist = compiled.keys();
    proof {
        assert(views_of(denylist@) =~= keys_of(compiled@));
    }
    let pfxs = unique_prefixes(&pool, &denylist);
    let ghost pool_v = views_of(pool@);
    let ghost deny_v = views_of(denylist@);
    let ghost base = compiled.as_map();
    proof {
        assert forall|t: int| 0 <= t < pool@.len() implies pfxs.as_map().dom().contains(
            (#[trigger] pool@[t])@,
        ) && pfxs.as_map()[pool@[t]@] == unique_prefix(pool_v, deny_v, pool@[t]@) by {
            assert(views_of(pool@)[t] == pool@[t]@);
            assert(views_of(pool@).contains(pool@[t]@));
        }
    }
    let mut m = compiled;
    let mut j: usize = 0;
    while j < pool.len()
        invariant
            0 <= j <= pool@.len(),
            m.wf(),
            pfxs.wf(),
            lbuf_len == lbuf@.len(),
            pool_v == views_of(pool@),
            deny_v == views_of(denylist@),
            forall|t: int|
                0 <= t < pool@.len() ==> pfxs.as_map().dom().contains((#[trigger] pool@[t])@)
                    && pfxs.as_map()[pool@[t]@] == unique_prefix(pool_v, deny_v, pool@[t]@),
            m.as_map() == add_pfxs_upto(base, lbuf@, all, pool_v, deny_v, j as int),
        decreases pool@.len() - j,
    {
        let ghost m1 = add_pfxs_upto(base, lbuf@, all, pool_v, deny_v, j as int);
        let s: &String = &pool[j];
        let pfx: &String = match pfxs.get(s.as_str()) {
            Some(p) => p,
            None => {
                proof {
                    assert(false);
                }
                s
            },
        };
        proof {
            assert(pfx@ == unique_prefix(pool_v, deny_v, s@));
        }
        if !str_eq(s.as_str(), pfx.as_str()) {
            proof {
                crate::abbrev::lemma_unique_prefix_shape(pool_v, deny_v, s@);
                if pfx@.len() == s@.len() {
                    assert(pfx@ =~= s@);
                }
            }
            let slen: usize = s.as_str().unicode_len();
            let plen: usize = pfx.as_str().unicode_len();
            let mut l: usize = plen;
            loop
                invariant_except_break
                    plen <= l,
                    plen < slen,
                    slen == s@.len(),
                    lbuf_len == lbuf@.len(),
                    l <= slen || l == plen,
                    m.wf(),
                    add_pfx_one(m.as_map(), lbuf@, all, s@, l as int) == add_pfx_one(
                        m1,
                        lbuf@,
                        all,
                        s@,
                        plen as int,
                    ),
                ensures
                    m.wf(),
                    m.as_map() == add_pfx_one(m1, lbuf@, all, s@, plen as int),
                decreases slen - l,
            {
                if slen < 2 || l > slen - 2 {
                    break ;
                }
                if !all && lbuf_len > l {
                    l = l + 1;
                    continue ;
                }
                let p = String::from_str(s.as_str().substring_char(0, l));
                proof {
                    assert(p@ =~= s@.take(l as int));
                }
                let ghost before = m.as_map();
                m.insert(p, s.clone());
                proof {
                    assert(m.as_map() == before.insert(s@.take(l as int), s@));
                }
                if !all && l > lbuf_len {
                    break ;
                }
                l = l + 1;
            }
            proof {
                assert(add_pfxs_upto(base, lbuf@, all, pool_v, deny_v, j + 1) == m.as_map());
            }
        } else {
            proof {
                assert(pfx@ == s@);
                assert(add_pfxs_upto(base, lbuf@, all, pool_v, deny_v, j + 1) == m1);
            }
        }
        j = j + 1;
    }
    proof {
        assert(pool_v == dedup_sorted(sorted_lex(relevant_values_upto(
            compiled@,
            lbuf@,
            compiled@.len() as int,
        ))));
    }
    m
}

/// Compilation followed by the prefix extender. The compiled map's entries
/// are some duplicate-free arrangement of `compile_map`; the result is the
/// extender run on them.
pub fn compile_with_prefixes(cmds: &Cmds, lbuf: &str, all: bool) -> (r: StringMap)
    ensures
        r.wf(),
        exists|entries: Seq<(Seq<char>, Seq<char>)>|
            crate::strmap::entries_unique(entries) && map_of(entries) == compile_map(
                *cmds,
                lbuf@,
                all,
            ) && r.as_map() == add_prefixes_map(entries, lbuf@, all),
{
    let compiled = compile(cmds, lbuf, all);
    let ghost entries = compiled@;
    let r = add_prefixes(compiled, lbuf, all);
    proof {
        assert(crate::strmap::entries_unique(entries) && map_of(entries) == compile_map(
            *cmds,
            lbuf@,
            all,
        ) && r.as_map() == add_prefixes_map(entries, lbuf@, all));
    }
    r
}

} // verus!
