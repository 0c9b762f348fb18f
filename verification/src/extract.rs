//! The command tree: commands with long names, assigned short codes, flags
//! and nested subcommands; the deconfliction that assigns the codes; and the
//! extraction of flags and subcommands from captured help text.

use vstd::prelude::*;
use vstd::string::StrSliceExecFns;
use vstd::string::StringExecFns;
use crate::abbrev::{
    devowel, devowel_eligible, do_remove_vowels, shorten_map, shorten_unique_prefixes,
    unique_prefix, unique_prefixes,
};
use crate::strings::{
    lemma_views_push, push_char, sort_strings, sorted_lex, split_lines, split_words, str_eq,
    views_of,
};
use crate::strmap::StringMap;

verus! {

/// A flag of a command: its short code, and whether the code may be glued
/// directly onto the owning command's short code.
#[derive(Clone, Debug)]
pub struct Flag {
    pub short: String,
    pub squish: bool,
}

/// The subcommands of a node: long name to command, ordered by long name.
#[derive(Debug)]
pub struct Cmds(pub Vec<(String, Cmd)>);

/// A node of the command tree.
#[derive(Debug)]
pub struct Cmd {
    /// The assigned abbreviation.
    pub short: String,
    /// Long flag name (with its leading dashes) to flag, ordered by name.
    pub flags: Vec<(String, Flag)>,
    /// Whether the command takes no further arguments.
    pub no_args: bool,
    /// The nested subcommands.
    pub subs: Cmds,
}

impl Cmds {
    /// Whether the node has no subcommands.
    pub fn is_empty(&self) -> (r: bool)
        ensures
            r == (self.0@.len() == 0),
    {
        self.0.len() == 0
    }
}

impl Default for Cmds {
    /// An empty subcommand table.
    fn default() -> (r: Cmds)
        ensures
            r.0@.len() == 0,
    {
        Cmds(Vec::new())
    }
}

/// Whether `*t` is the boolean default.
pub fn is_default(t: &bool) -> (r: bool)
    ensures
        r == (*t == false),
{
    *t == false
}

/// The extraction settings for one command, as a configuration file gives
/// them: explicit short codes, the denylist, whether to scrape flags and
/// subcommands out of help text, and the settings of each subcommand.
#[derive(Debug)]
pub struct ConfigFile {
    pub short: Option<String>,
    pub devowel: bool,
    pub deny: Vec<String>,
    pub extract_flags: bool,
    pub extract_subs: bool,
    pub exact_subs: Vec<String>,
    pub extra_subs: Vec<String>,
    pub flags: Vec<(String, Flag)>,
    pub no_args: bool,
    pub stop: bool,
    pub subs: Vec<(String, ConfigFile)>,
}

impl Default for ConfigFile {
    /// Settings that ask for nothing: no explicit codes, no scraping.
    fn default() -> (r: ConfigFile)
        ensures
            r.short is None,
            r.devowel == false,
            r.deny@.len() == 0,
            r.extract_flags == false,
            r.extract_subs == false,
            r.exact_subs@.len() == 0,
            r.extra_subs@.len() == 0,
            r.flags@.len() == 0,
            r.no_args == false,
            r.stop == false,
            r.subs@.len() == 0,
    {
        ConfigFile {
            short: None,
            devowel: false,
            deny: Vec::new(),
            extract_flags: false,
            extract_subs: false,
            exact_subs: Vec::new(),
            extra_subs: Vec::new(),
            flags: Vec::new(),
            no_args: false,
            stop: false,
            subs: Vec::new(),
        }
    }
}

// ---------------------------------------------------------------------------
// deconfliction
// ---------------------------------------------------------------------------

/// The first configured flag entry for `name`, if any.
pub open spec fn lookup_flag(flags: Seq<(String, Flag)>, name: Seq<char>) -> Option<Flag>
    decreases flags.len(),
{
    if flags.len() == 0 {
        Option::None
    } else if flags[0].0@ == name {
        Option::Some(flags[0].1)
    } else {
        lookup_flag(flags.drop_first(), name)
    }
}

/// The first configured subcommand entry for `name`, if any.
pub open spec fn lookup_sub(subs: Seq<(String, ConfigFile)>, name: Seq<char>) -> Option<ConfigFile>
    decreases subs.len(),
{
    if subs.len() == 0 {
        Option::None
    } else if subs[0].0@ == name {
        Option::Some(subs[0].1)
    } else {
        lookup_sub(subs.drop_first(), name)
    }
}

/// The first pass over the flag names: explicit codes are assigned and
/// denied to later names; the rest go into the shared pool. Returns the
/// assignments, the codes consumed, and the pool so far.
pub open spec fn flags_pass(conf: ConfigFile, flags: Seq<Seq<char>>, i: int) -> (
    Map<Seq<char>, Seq<char>>,
    Seq<Seq<char>>,
    Seq<Seq<char>>,
)
    decreases i,
{
    if i <= 0 {
        (Map::<Seq<char>, Seq<char>>::empty(), Seq::empty(), Seq::empty())
    } else {
        let st = flags_pass(conf, flags, i - 1);
        let name = flags[i - 1];
        match lookup_flag(conf.flags@, name) {
            Option::Some(fl) => (st.0.insert(name, fl.short@), st.1.push(fl.short@), st.2),
            Option::None => (st.0, st.1, st.2.push(name)),
        }
    }
}

/// The pass over the subcommand names, continuing from the flag pass.
pub open spec fn subs_pass(
    conf: ConfigFile,
    subs: Seq<Seq<char>>,
    i: int,
    m0: Map<Seq<char>, Seq<char>>,
    dx0: Seq<Seq<char>>,
) -> (Map<Seq<char>, Seq<char>>, Seq<Seq<char>>, Seq<Seq<char>>)
    decreases i,
{
    if i <= 0 {
        (m0, dx0, Seq::empty())
    } else {
        let st = subs_pass(conf, subs, i - 1, m0, dx0);
        let name = subs[i - 1];
        match lookup_sub(conf.subs@, name) {
            Option::Some(sc) => match sc.short {
                Option::Some(s) => (st.0.insert(name, s@), st.1.push(s@), st.2),
                Option::None => (st.0, st.1, st.2.push(name)),
            },
            Option::None => (st.0, st.1, st.2.push(name)),
        }
    }
}

/// The vowel-stripped pool: each pool name's elided form, or the name itself
/// when elision does not apply to it.
pub open spec fn rmvd_of(rest: Seq<Seq<char>>) -> Seq<Seq<char>> {
    Seq::new(rest.len(), |k: int|
        if devowel_eligible(rest, rest[k]) {
            devowel(rest[k])
        } else {
            rest[k]
        },
    )
}

/// Assignments of the vowel-elision strategy: each pool name gets the unique
/// prefix of its vowel-stripped form, computed against the stripped pool.
pub open spec fn devowel_assign(
    m: Map<Seq<char>, Seq<char>>,
    rest: Seq<Seq<char>>,
    deny: Seq<Seq<char>>,
    k: int,
) -> Map<Seq<char>, Seq<char>>
    decreases k,
{
    if k <= 0 {
        m
    } else {
        devowel_assign(m, rest, deny, k - 1).insert(
            rest[k - 1],
            unique_prefix(rmvd_of(rest), deny, rmvd_of(rest)[k - 1]),
        )
    }
}

/// The unique prefixes of the distinct pool names, one each, in first
/// occurrence order.
pub open spec fn distinct_upfx(rest: Seq<Seq<char>>, deny: Seq<Seq<char>>, k: int) -> Seq<
    Seq<char>,
>
    decreases k,
{
    if k <= 0 {
        Seq::empty()
    } else {
        distinct_upfx(rest, deny, k - 1) + (if rest.take(k - 1).contains(rest[k - 1]) {
            Seq::empty()
        } else {
            seq![unique_prefix(rest, deny, rest[k - 1])]
        })
    }
}

/// Assignments of the prefix strategy: each pool name gets its unique
/// prefix, further shortened by the second pass when that pass rebound it.
pub open spec fn prefix_assign(
    m: Map<Seq<char>, Seq<char>>,
    rest: Seq<Seq<char>>,
    deny: Seq<Seq<char>>,
    k: int,
) -> Map<Seq<char>, Seq<char>>
    decreases k,
{
    let sm = shorten_map(sorted_lex(distinct_upfx(rest, deny, rest.len() as int)), deny);
    if k <= 0 {
        m
    } else {
        let up = unique_prefix(rest, deny, rest[k - 1]);
        prefix_assign(m, rest, deny, k - 1).insert(
            rest[k - 1],
            if sm.dom().contains(up) {
                sm[up]
            } else {
                up
            },
        )
    }
}

/// The whole deconfliction: explicit codes first, each denied to later
/// names; then one of the two strategies over the pooled remainder.
pub open spec fn deconflict_map(
    conf: ConfigFile,
    flags: Seq<Seq<char>>,
    subs: Seq<Seq<char>>,
    deny: Seq<Seq<char>>,
) -> Map<Seq<char>, Seq<char>> {
    let st1 = flags_pass(conf, flags, flags.len() as int);
    let st2 = subs_pass(conf, subs, subs.len() as int, st1.0, st1.1);
    let rest = st1.2 + st2.2;
    let denyfull = deny + st2.1;
    if conf.devowel {
        devowel_assign(st2.0, rest, denyfull, rest.len() as int)
    } else {
        prefix_assign(st2.0, rest, denyfull, rest.len() as int)
    }
}

/// Finds the first configured flag entry for `name`.
fn lookup_flag_exec<'a>(flags: &'a Vec<(String, Flag)>, name: &str) -> (r: Option<&'a Flag>)
    ensures
        match r {
            Some(fl) => lookup_flag(flags@, name@) == Option::Some(*fl),
            None => lookup_flag(flags@, name@) is None,
        },
{
    proof {
        assert(flags@.skip(0) =~= flags@);
    }
    let mut i: usize = 0;
    while i < flags.len()
        invariant
            0 <= i <= flags@.len(),
            lookup_flag(flags@, name@) == lookup_flag(flags@.skip(i as int), name@),
        decreases flags@.len() - i,
    {
        if str_eq(flags[i].0.as_str(), name) {
            proof {
                assert(flags@.skip(i as int)[0] == flags@[i as int]);
            }
            return Some(&flags[i].1);
        }
        proof {
            assert(flags@.skip(i as int)[0] == flags@[i as int]);
            assert(flags@.skip(i as int).drop_first() =~= flags@.skip(i + 1));
        }
        i = i + 1;
    }
    proof {
        assert(flags@.skip(flags@.len() as int).len() == 0);
    }
    None
}

/// Finds the first configured subcommand entry for `name`.
fn lookup_sub_exec<'a>(subs: &'a Vec<(String, ConfigFile)>, name: &str) -> (r: Option<
    &'a ConfigFile,
>)
    ensures
        match r {
            Some(sc) => lookup_sub(subs@, name@) == Option::Some(*sc),
            None => lookup_sub(subs@, name@) is None,
        },
{
    proof {
        assert(subs@.skip(0) =~= subs@);
    }
    let mut i: usize = 0;
    while i < subs.len()
        invariant
            0 <= i <= subs@.len(),
            lookup_sub(subs@, name@) == lookup_sub(subs@.skip(i as int), name@),
        decreases subs@.len() - i,
    {
        if str_eq(subs[i].0.as_str(), name) {
            proof {
                assert(subs@.skip(i as int)[0] == subs@[i as int]);
            }
            return Some(&subs[i].1);
        }
        proof {
            assert(subs@.skip(i as int)[0] == subs@[i as int]);
            assert(subs@.skip(i as int).drop_first() =~= subs@.skip(i + 1));
        }
        i = i + 1;
    }
    proof {
        assert(subs@.skip(subs@.len() as int).len() == 0);
    }
    None
}

/// Merges the explicit per-name short codes, the denylist, and one of the
/// two abbreviation strategies into a total mapping from each given flag or
/// subcommand long name to its short code.
pub fn deconflict(
    conf: &ConfigFile,
    flags: &Vec<String>,
    subs: &Vec<String>,
    deny: &Vec<String>,
) -> (r: StringMap)
    ensures
        r.wf(),
        r.as_map() == deconflict_map(*conf, views_of(flags@), views_of(subs@), views_of(deny@)),
{
    let mut result = StringMap::new();
    let mut denyv: Vec<String> = Vec::new();
    let mut t: usize = 0;
    while t < deny.len()
        invariant
            0 <= t <= deny@.len(),
            views_of(denyv@) == views_of(deny@).take(t as int),
        decreases deny@.len() - t,
    {
        let ghost dv = denyv@;
        let x = deny[t].clone();
        denyv.push(x);
        proof {
            lemma_views_push(dv, x);
            assert(views_of(denyv@) =~= views_of(deny@).take(t + 1));
        }
        t = t + 1;
    }
    proof {
        assert(views_of(deny@).take(deny@.len() as int) =~= views_of(deny@));
    }
    let mut rest: Vec<String> = Vec::new();
    // explicit flag codes
    let mut i: usize = 0;
    while i < flags.len()
        invariant
            0 <= i <= flags@.len(),
            result.wf(),
            (result.as_map(), views_of(denyv@), views_of(rest@)) == {
                let st = flags_pass(*conf, views_of(flags@), i as int);
                (st.0, views_of(deny@) + st.1, st.2)
            },
        decreases flags@.len() - i,
    {
        let name: &String = &flags[i];
        proof {
            assert(views_of(flags@)[i as int] == flags@[i as int]@);
        }
        let ghost st = flags_pass(*conf, views_of(flags@), i as int);
        match lookup_flag_exec(&conf.flags, name.as_str()) {
            Some(fl) => {
                let ghost dv = denyv@;
                let s = fl.short.clone();
                result.insert(name.clone(), s.clone());
                denyv.push(s);
                proof {
                    lemma_views_push(dv, fl.short);
                    assert(views_of(denyv@) =~= views_of(deny@) + st.1.push(fl.short@));
                }
            },
            None => {
                let ghost rv = rest@;
                let x = name.clone();
                rest.push(x);
                proof {
                    lemma_views_push(rv, x);
                    assert(views_of(rest@) =~= st.2.push(name@));
                }
            },
        }
        i = i + 1;
    }
    let ghost st1 = flags_pass(*conf, views_of(flags@), flags@.len() as int);
    proof {
        assert(views_of(flags@).len() == flags@.len());
    }
    // explicit subcommand codes
    let mut rest_subs: Vec<String> = Vec::new();
    let mut i: usize = 0;
    while i < subs.len()
        invariant
            0 <= i <= subs@.len(),
            result.wf(),
            st1 == flags_pass(*conf, views_of(flags@), views_of(flags@).len() as int),
            views_of(rest@) == st1.2,
            (result.as_map(), views_of(denyv@), views_of(rest_subs@)) == {
                let st = subs_pass(*conf, views_of(subs@), i as int, st1.0, st1.1);
                (st.0, views_of(deny@) + st.1, st.2)
            },
        decreases subs@.len() - i,
    {
        let name: &String = &subs[i];
        proof {
            assert(views_of(subs@)[i as int] == subs@[i as int]@);
        }
        let ghost st = subs_pass(*conf, views_of(subs@), i as int, st1.0, st1.1);
        let mut explicit: Option<&String> = None;
        match lookup_sub_exec(&conf.subs, name.as_str()) {
            Some(sc) => {
                match &sc.short {
                    Some(s) => {
                        explicit = Some(s);
                    },
                    None => {
                    },
                }
            },
            None => {
            },
        }
        match explicit {
            Some(s) => {
                let ghost dv = denyv@;
                let sv = s.clone();
                result.insert(name.clone(), sv.clone());
                denyv.push(sv);
                proof {
                    lemma_views_push(dv, *s);
                    assert(views_of(denyv@) =~= views_of(deny@) + st.1.push(s@));
                }
            },
            None => {
                let ghost rv = rest_subs@;
                let x = name.clone();
                rest_subs.push(x);
                proof {
                    lemma_views_push(rv, x);
                    assert(views_of(rest_subs@) =~= st.2.push(name@));
                }
            },
        }
        i = i + 1;
    }
    let ghost st2 = subs_pass(*conf, views_of(subs@), views_of(subs@).len() as int, st1.0, st1.1);
    proof {
        assert(views_of(subs@).len() == subs@.len());
    }
    // pool the remainder
    let mut i: usize = 0;
    while i < rest_subs.len()
        invariant
            0 <= i <= rest_subs@.len(),
            views_of(rest@) == st1.2 + views_of(rest_subs@).take(i as int),
        decreases rest_subs@.len() - i,
    {
        let ghost rv = rest@;
        let x = rest_subs[i].clone();
        rest.push(x);
        proof {
            lemma_views_push(rv, x);
            assert(views_of(rest_subs@)[i as int] == rest_subs@[i as int]@);
            assert(views_of(rest@) =~= st1.2 + views_of(rest_subs@).take(i + 1));
        }
        i = i + 1;
    }
    proof {
        assert(views_of(rest_subs@).take(rest_subs@.len() as int) =~= views_of(rest_subs@));
    }
    let ghost rest_v = st1.2 + st2.2;
    let ghost denyfull = views_of(deny@) + st2.1;
    proof {
        assert(views_of(rest@) == rest_v);
        assert(views_of(denyv@) == denyfull);
    }
    if conf.devowel {
        let rmvd = do_remove_vowels(&rest);
        proof {
            assert(views_of(rmvd@) =~= rmvd_of(rest_v));
        }
        let pfxs = unique_prefixes(&rmvd, &denyv);
        proof {
            assert forall|j: int| 0 <= j < rmvd@.len() implies pfxs.as_map().dom().contains(
                (#[trigger] rmvd@[j])@,
            ) && pfxs.as_map()[rmvd@[j]@] == unique_prefix(
                rmvd_of(rest_v),
                denyfull,
                rmvd@[j]@,
            ) by {
                assert(views_of(rmvd@)[j] == rmvd@[j]@);
                assert(views_of(rmvd@).contains(rmvd@[j]@));
            }
        }
        let mut k: usize = 0;
        while k < rest.len()
            invariant
                0 <= k <= rest@.len(),
                rest@.len() == rmvd@.len(),
                rest_v == views_of(rest@),
                denyfull == views_of(denyv@),
                views_of(rmvd@) == rmvd_of(rest_v),
                result.wf(),
                pfxs.wf(),
                forall|j: int|
                    0 <= j < rmvd@.len() ==> pfxs.as_map().dom().contains(
                        (#[trigger] rmvd@[j])@,
                    ) && pfxs.as_map()[rmvd@[j]@] == unique_prefix(
                        rmvd_of(rest_v),
                        denyfull,
                        rmvd@[j]@,
                    ),
                result.as_map() == devowel_assign(st2.0, rest_v, denyfull, k as int),
            decreases rest@.len() - k,
        {
            match pfxs.get(rmvd[k].as_str()) {
                Some(p) => {
                    result.insert(rest[k].clone(), p.clone());
                    proof {
                        assert(rmvd@[k as int]@ == rmvd_of(rest_v)[k as int]);
                        assert(rest@[k as int]@ == rest_v[k as int]);
                    }
                },
                None => {
                    proof {
                        assert(false);
                    }
                },
            }
            k = k + 1;
        }
        result
    } else {
        let pfxs = unique_prefixes(&rest, &denyv);
        proof {
            assert forall|j: int| 0 <= j < rest@.len() implies pfxs.as_map().dom().contains(
                (#[trigger] rest@[j])@,
            ) && pfxs.as_map()[rest@[j]@] == unique_prefix(rest_v, denyfull, rest@[j]@) by {
                assert(views_of(rest@)[j] == rest@[j]@);
                assert(views_of(rest@).contains(rest@[j]@));
            }
        }
        // one unique prefix per distinct pool name, then the second pass
        let mut pvec: Vec<String> = Vec::new();
        let mut k: usize = 0;
        while k < rest.len()
            invariant
                0 <= k <= rest@.len(),
                rest_v == views_of(rest@),
                denyfull == views_of(denyv@),
                pfxs.wf(),
                forall|j: int|
                    0 <= j < rest@.len() ==> pfxs.as_map().dom().contains(
                        (#[trigger] rest@[j])@,
                    ) && pfxs.as_map()[rest@[j]@] == unique_prefix(rest_v, denyfull, rest@[j]@),
                views_of(pvec@) == distinct_upfx(rest_v, denyfull, k as int),
            decreases rest@.len() - k,
        {
            let mut dup: bool = false;
            let mut tt: usize = 0;
            while tt < k
                invariant
                    0 <= tt <= k < rest@.len(),
                    rest_v == views_of(rest@),
                    dup == exists|w: int| 0 <= w < tt && (#[trigger] rest_v.take(k as int)[w]) == rest_v[k as int],
                decreases k - tt,
            {
                proof {
                    assert(rest_v.take(k as int)[tt as int] == rest_v[tt as int]);
                    assert(rest_v[tt as int] == rest@[tt as int]@);
                    assert(rest_v[k as int] == rest@[k as int]@);
                }
                if str_eq(rest[tt].as_str(), rest[k].as_str()) {
                    dup = true;
                    proof {
                        assert(rest_v.take(k as int)[tt as int] == rest_v[k as int]);
                    }
                }
                tt = tt + 1;
            }
            proof {
                assert(dup == rest_v.take(k as int).contains(rest_v[k as int]));
            }
            if !dup {
                match pfxs.get(rest[k].as_str()) {
                    Some(p) => {
                        let ghost pv = pvec@;
                        let x = p.clone();
                        pvec.push(x);
                        proof {
                            lemma_views_push(pv, x);
                            assert(views_of(pvec@) =~= distinct_upfx(
                                rest_v,
                                denyfull,
                                k + 1,
                            ));
                        }
                    },
                    None => {
                        proof {
                            assert(false);
                        }
                    },
                }
            } else {
                proof {
                    assert(distinct_upfx(rest_v, denyfull, k + 1) =~= distinct_upfx(
                        rest_v,
                        denyfull,
                        k as int,
                    ));
                }
            }
            k = k + 1;
        }
        sort_strings(&mut pvec);
        let shorter = shorten_unique_prefixes(&pvec, &denyv);
        let ghost sm = shorten_map(sorted_lex(distinct_upfx(rest_v, denyfull, rest_v.len() as int)), denyfull);
        proof {
            assert(shorter.as_map() == sm);
        }
        let mut k: usize = 0;
        while k < rest.len()
            invariant
                0 <= k <= rest@.len(),
                rest_v == views_of(rest@),
                denyfull == views_of(denyv@),
                result.wf(),
                pfxs.wf(),
                shorter.wf(),
                shorter.as_map() == sm,
                sm == shorten_map(
                    sorted_lex(distinct_upfx(rest_v, denyfull, rest_v.len() as int)),
                    denyfull,
                ),
                forall|j: int|
                    0 <= j < rest@.len() ==> pfxs.as_map().dom().contains(
                        (#[trigger] rest@[j])@,
                    ) && pfxs.as_map()[rest@[j]@] == unique_prefix(rest_v, denyfull, rest@[j]@),
                result.as_map() == prefix_assign(st2.0, rest_v, denyfull, k as int),
            decreases rest@.len() - k,
        {
            match pfxs.get(rest[k].as_str()) {
                Some(p) => {
                    let up = p.clone();
                    proof {
                        assert(rest@[k as int]@ == rest_v[k as int]);
                        assert(up@ == unique_prefix(rest_v, denyfull, rest_v[k as int]));
                    }
                    match shorter.get(up.as_str()) {
                        Some(sh) => {
                            result.insert(rest[k].clone(), sh.clone());
                        },
                        None => {
                            result.insert(rest[k].clone(), up);
                        },
                    }
                },
                None => {
                    proof {
                        assert(false);
                    }
                },
            }
            k = k + 1;
        }
        result
    }
}

// ---------------------------------------------------------------------------
// every given name receives a code
// ---------------------------------------------------------------------------

proof fn lemma_flags_pass_covers(conf: ConfigFile, flags: Seq<Seq<char>>, i: int)
    ensures
        forall|j: int|
            0 <= j < i ==> flags_pass(conf, flags, i).0.dom().contains(#[trigger] flags[j])
                || flags_pass(conf, flags, i).2.contains(flags[j]),
    decreases i,
{
    if i > 0 {
        lemma_flags_pass_covers(conf, flags, i - 1);
        let st = flags_pass(conf, flags, i - 1);
        assert forall|j: int|
            0 <= j < i implies flags_pass(conf, flags, i).0.dom().contains(#[trigger] flags[j])
            || flags_pass(conf, flags, i).2.contains(flags[j]) by {
            if j < i - 1 {
                if st.2.contains(flags[j]) {
                    let w = choose|w: int| 0 <= w < st.2.len() && st.2[w] == flags[j];
                    match lookup_flag(conf.flags@, flags[i - 1]) {
                        Option::Some(_) => {},
                        Option::None => {
                            assert(st.2.push(flags[i - 1])[w] == flags[j]);
                        },
                    }
                }
            } else {
                match lookup_flag(conf.flags@, flags[i - 1]) {
                    Option::Some(_) => {},
                    Option::None => {
                        assert(st.2.push(flags[i - 1]).last() == flags[i - 1]);
                    },
                }
            }
        }
    }
}

proof fn lemma_subs_pass_covers(
    conf: ConfigFile,
    subs: Seq<Seq<char>>,
    i: int,
    m0: Map<Seq<char>, Seq<char>>,
    dx0: Seq<Seq<char>>,
)
    ensures
        forall|k: Seq<char>|
            m0.dom().contains(k) ==> subs_pass(conf, subs, i, m0, dx0).0.dom().contains(k),
        forall|j: int|
            0 <= j < i ==> subs_pass(conf, subs, i, m0, dx0).0.dom().contains(#[trigger] subs[j])
                || subs_pass(conf, subs, i, m0, dx0).2.contains(subs[j]),
    decreases i,
{
    if i > 0 {
        lemma_subs_pass_covers(conf, subs, i - 1, m0, dx0);
        let st = subs_pass(conf, subs, i - 1, m0, dx0);
        let stepped = subs_pass(conf, subs, i, m0, dx0);
        assert forall|j: int|
            0 <= j < i implies stepped.0.dom().contains(#[trigger] subs[j]) || stepped.2.contains(
            subs[j],
        ) by {
            if j < i - 1 {
                if st.2.contains(subs[j]) {
                    let w = choose|w: int| 0 <= w < st.2.len() && st.2[w] == subs[j];
                    if stepped.2 == st.2.push(subs[i - 1]) {
                        assert(st.2.push(subs[i - 1])[w] == subs[j]);
                    }
                }
            } else {
                if stepped.2 == st.2.push(subs[i - 1]) {
                    assert(st.2.push(subs[i - 1]).last() == subs[i - 1]);
                }
            }
        }
    }
}

proof fn lemma_devowel_assign_covers(
    m: Map<Seq<char>, Seq<char>>,
    rest: Seq<Seq<char>>,
    deny: Seq<Seq<char>>,
    k: int,
)
    ensures
        forall|x: Seq<char>|
            m.dom().contains(x) ==> devowel_assign(m, rest, deny, k).dom().contains(x),
        forall|j: int|
            0 <= j < k ==> devowel_assign(m, rest, deny, k).dom().contains(#[trigger] rest[j]),
    decreases k,
{
    if k > 0 {
        lemma_devowel_assign_covers(m, rest, deny, k - 1);
    }
}

proof fn lemma_prefix_assign_covers(
    m: Map<Seq<char>, Seq<char>>,
    rest: Seq<Seq<char>>,
    deny: Seq<Seq<char>>,
    k: int,
)
    ensures
        forall|x: Seq<char>|
            m.dom().contains(x) ==> prefix_assign(m, rest, deny, k).dom().contains(x),
        forall|j: int|
            0 <= j < k ==> prefix_assign(m, rest, deny, k).dom().contains(#[trigger] rest[j]),
    decreases k,
{
    if k > 0 {
        lemma_prefix_assign_covers(m, rest, deny, k - 1);
    }
}

/// Deconfliction is total: every flag and subcommand name passed in gets a
/// code.
pub proof fn lemma_deconflict_covers(
    conf: ConfigFile,
    flags: Seq<Seq<char>>,
    subs: Seq<Seq<char>>,
    deny: Seq<Seq<char>>,
)
    ensures
        forall|j: int|
            0 <= j < flags.len() ==> deconflict_map(conf, flags, subs, deny).dom().contains(
                #[trigger] flags[j],
            ),
        forall|j: int|
            0 <= j < subs.len() ==> deconflict_map(conf, flags, subs, deny).dom().contains(
                #[trigger] subs[j],
            ),
{
    let st1 = flags_pass(conf, flags, flags.len() as int);
    let st2 = subs_pass(conf, subs, subs.len() as int, st1.0, st1.1);
    let rest = st1.2 + st2.2;
    let denyfull = deny + st2.1;
    lemma_flags_pass_covers(conf, flags, flags.len() as int);
    lemma_subs_pass_covers(conf, subs, subs.len() as int, st1.0, st1.1);
    if conf.devowel {
        lemma_devowel_assign_covers(st2.0, rest, denyfull, rest.len() as int);
    } else {
        lemma_prefix_assign_covers(st2.0, rest, denyfull, rest.len() as int);
    }
    assert forall|j: int|
        0 <= j < flags.len() implies deconflict_map(conf, flags, subs, deny).dom().contains(
        #[trigger] flags[j],
    ) by {
        if st1.2.contains(flags[j]) {
            let w = choose|w: int| 0 <= w < st1.2.len() && st1.2[w] == flags[j];
            assert(rest[w] == flags[j]);
        }
    }
    assert forall|j: int|
        0 <= j < subs.len() implies deconflict_map(conf, flags, subs, deny).dom().contains(
        #[trigger] subs[j],
    ) by {
        if st2.2.contains(subs[j]) {
            let w = choose|w: int| 0 <= w < st2.2.len() && st2.2[w] == subs[j];
            assert(rest[st1.2.len() + w] == subs[j]);
        }
    }
}

proof fn lemma_devowel_assign_at(
    m0: Map<Seq<char>, Seq<char>>,
    rest: Seq<Seq<char>>,
    deny: Seq<Seq<char>>,
    k: int,
    i: int,
)
    requires
        forall|p: int, q: int| 0 <= p < q < rest.len() ==> rest[p] != rest[q],
        0 <= i < k <= rest.len(),
    ensures
        devowel_assign(m0, rest, deny, k).dom().contains(rest[i]),
        devowel_assign(m0, rest, deny, k)[rest[i]] == unique_prefix(
            rmvd_of(rest),
            deny,
            rmvd_of(rest)[i],
        ),
    decreases k,
{
    if i == k - 1 {
    } else {
        lemma_devowel_assign_at(m0, rest, deny, k - 1, i);
        assert(rest[k - 1] != rest[i]);
    }
}

/// Law: the codes the vowel-elision strategy assigns to a sibling set are
/// pairwise distinct and avoid the denylist — for a set of distinct names
/// with no explicitly configured codes, whose stripped forms stay distinct
/// and each admit an acceptable prefix. One input outside that scope: two
/// names whose stripped forms collide fall back to themselves, and equal
/// fallbacks of duplicated names coincide.
pub proof fn lemma_deconflict_devowel_unique(
    conf: ConfigFile,
    subs: Seq<Seq<char>>,
    deny: Seq<Seq<char>>,
    i: int,
    j: int,
)
    requires
        conf.devowel,
        conf.flags@.len() == 0,
        conf.subs@.len() == 0,
        forall|p: int, q: int| 0 <= p < q < subs.len() ==> subs[p] != subs[q],
        forall|p: int, q: int|
            0 <= p < q < subs.len() ==> rmvd_of(subs)[p] != rmvd_of(subs)[q],
        forall|p: int|
            0 <= p < subs.len() ==> exists|k: int|
                1 <= k && crate::abbrev::good_prefix(
                    rmvd_of(subs),
                    deny,
                    #[trigger] rmvd_of(subs)[p],
                    k,
                ),
        0 <= i < subs.len(),
        0 <= j < subs.len(),
    ensures
        ({
            let m = deconflict_map(conf, Seq::empty(), subs, deny);
            &&& m.dom().contains(subs[i])
            &&& !deny.contains(m[subs[i]])
            &&& (i != j ==> m[subs[i]] != m[subs[j]])
        }),
{
    let st1 = flags_pass(conf, Seq::empty(), 0);
    assert(st1.0 =~= Map::<Seq<char>, Seq<char>>::empty());
    assert forall|t: int| 0 <= t < subs.len() implies subs_pass(conf, subs, t + 1, st1.0, st1.1)
        == (subs_pass(conf, subs, t, st1.0, st1.1).0, subs_pass(conf, subs, t, st1.0, st1.1).1,
    subs_pass(conf, subs, t, st1.0, st1.1).2.push(subs[t])) by {
        assert(lookup_sub(conf.subs@, subs[t]) is None);
    }
    let st2 = subs_pass(conf, subs, subs.len() as int, st1.0, st1.1);
    assert(st2.2 =~= subs) by {
        lemma_subs_pass_pool(conf, subs, subs.len() as int, st1.0, st1.1);
    }
    assert(st2.1 =~= Seq::<Seq<char>>::empty()) by {
        lemma_subs_pass_pool(conf, subs, subs.len() as int, st1.0, st1.1);
    }
    let rest = st1.2 + st2.2;
    assert(rest =~= subs);
    let denyfull = deny + st2.1;
    assert(denyfull =~= deny);
    let pool = rmvd_of(subs);
    lemma_devowel_assign_at(st2.0, subs, deny, subs.len() as int, i);
    let m = deconflict_map(conf, Seq::empty(), subs, deny);
    assert(m == devowel_assign(st2.0, subs, deny, subs.len() as int));
    assert(m[subs[i]] == unique_prefix(pool, deny, pool[i]));
    assert(pool.contains(pool[i]));
    crate::abbrev::lemma_unique_prefix_good(pool, deny, pool[i]);
    if i != j {
        lemma_devowel_assign_at(st2.0, subs, deny, subs.len() as int, j);
        assert(pool.contains(pool[j]));
        assert(pool[i] != pool[j]) by {
            if i < j {
                assert(rmvd_of(subs)[i] != rmvd_of(subs)[j]);
            } else {
                assert(rmvd_of(subs)[j] != rmvd_of(subs)[i]);
            }
        }
        crate::abbrev::lemma_unique_prefixes_distinct(pool, deny, pool[i], pool[j]);
    }
}

proof fn lemma_subs_pass_pool(
    conf: ConfigFile,
    subs: Seq<Seq<char>>,
    t: int,
    m0: Map<Seq<char>, Seq<char>>,
    dx0: Seq<Seq<char>>,
)
    requires
        conf.subs@.len() == 0,
        dx0 == Seq::<Seq<char>>::empty(),
        0 <= t <= subs.len(),
    ensures
        subs_pass(conf, subs, t, m0, dx0).0 == m0,
        subs_pass(conf, subs, t, m0, dx0).1 == dx0,
        subs_pass(conf, subs, t, m0, dx0).2 == subs.take(t),
    decreases t,
{
    if t <= 0 {
        assert(subs.take(0) =~= Seq::<Seq<char>>::empty());
        assert(subs_pass(conf, subs, t, m0, dx0).2 =~= subs.take(t));
    } else {
        lemma_subs_pass_pool(conf, subs, t - 1, m0, dx0);
        assert(lookup_sub(conf.subs@, subs[t - 1]) is None);
        assert(subs.take(t) =~= subs.take(t - 1).push(subs[t - 1]));
    }
}

// ---------------------------------------------------------------------------
// scraping names out of help text
// ---------------------------------------------------------------------------

/// The characters kept in a scraped name: dashes, letters and digits.
pub open spec fn filtered_name(s: Seq<char>) -> Seq<char>
    decreases s.len(),
{
    if s.len() == 0 {
        Seq::empty()
    } else {
        filtered_name(s.drop_last()) + (if s.last() == '-' || crate::strings::is_alphanumeric_char(
            s.last(),
        ) {
            seq![s.last()]
        } else {
            Seq::empty()
        })
    }
}

/// Keeps the dashes, letters and digits of `s`.
fn filtered_name_exec(s: &str) -> (r: String)
    ensures
        r@ == filtered_name(s@),
{
    let n: usize = s.unicode_len();
    let mut r = String::new();
    proof {
        assert(s@.take(0) =~= Seq::<char>::empty());
        assert(r@ =~= filtered_name(s@.take(0)));
    }
    let mut i: usize = 0;
    while i < n
        invariant
            0 <= i <= n,
            n == s@.len(),
            r@ == filtered_name(s@.take(i as int)),
        decreases n - i,
    {
        let c = s.get_char(i);
        proof {
            assert(s@.take(i + 1).drop_last() =~= s@.take(i as int));
            assert(s@.take(i + 1).last() == s@[i as int]);
        }
        if c == '-' || c.is_alphanumeric() {
            push_char(&mut r, c);
            proof {
                assert(r@ =~= filtered_name(s@.take(i + 1)));
            }
        } else {
            proof {
                assert(r@ =~= filtered_name(s@.take(i + 1)));
            }
        }
        i = i + 1;
    }
    proof {
        assert(s@.take(n as int) =~= s@);
    }
    r
}

/// What a help line's words yield as a subcommand name: the first word,
/// filtered, when it opens in lowercase ASCII and a capitalized description
/// follows in the second or third word.
pub open spec fn extract_sub_spec(words: Seq<Seq<char>>) -> Option<Seq<char>> {
    if words.len() < 2 {
        Option::None
    } else if words[0].len() > 0 && crate::strings::is_lowercase_char(words[0][0]) && (
    (words[1].len() > 0 && crate::strings::is_uppercase_char(words[1][0])) || (words.len() > 2
        && words[2].len() > 0 && crate::strings::is_uppercase_char(words[2][0])))
        && vstd::utf8::is_ascii_chars(words[0]) {
        Option::Some(filtered_name(words[0]))
    } else {
        Option::None
    }
}

/// Scrapes a subcommand name out of one help line's words.
pub fn extract_sub(words: &Vec<String>) -> (r: Option<String>)
    ensures
        match r {
            Some(l) => extract_sub_spec(views_of(words@)) == Option::Some(l@),
            None => extract_sub_spec(views_of(words@)) is None,
        },
{
    proof {
        assert(forall|j: int|
            0 <= j < words@.len() ==> views_of(words@)[j] == (#[trigger] words@[j])@);
    }
    if words.len() < 2 {
        return None;
    }
    let first: &String = &words[0];
    let n0: usize = first.as_str().unicode_len();
    if n0 == 0 {
        return None;
    }
    if !first.as_str().get_char(0).is_lowercase() {
        return None;
    }
    let second_cap = words[1].as_str().unicode_len() > 0 && words[1].as_str().get_char(
        0,
    ).is_uppercase();
    let third_cap = words.len() > 2 && words[2].as_str().unicode_len() > 0 && words[2]
        .as_str().get_char(0).is_uppercase();
    if !(second_cap || third_cap) {
        return None;
    }
    if !first.as_str().is_ascii() {
        return None;
    }
    Some(filtered_name_exec(first.as_str()))
}

/// The position of the first occurrence of `c` in `s`, or the length.
pub open spec fn first_index_of(s: Seq<char>, c: char) -> int
    decreases s.len(),
{
    if s.len() == 0 {
        0
    } else if s[0] == c {
        0
    } else {
        1 + first_index_of(s.drop_first(), c)
    }
}

/// `s` cut at the first occurrence of `c`, whole when `c` does not occur.
pub open spec fn truncate_at(s: Seq<char>, c: char) -> Seq<char> {
    s.take(first_index_of(s, c))
}

proof fn lemma_first_index_bounds(s: Seq<char>, c: char)
    ensures
        0 <= first_index_of(s, c) <= s.len(),
        forall|j: int| 0 <= j < first_index_of(s, c) ==> s[j] != c,
        first_index_of(s, c) < s.len() ==> s[first_index_of(s, c)] == c,
    decreases s.len(),
{
    if s.len() == 0 {
    } else if s[0] == c {
    } else {
        lemma_first_index_bounds(s.drop_first(), c);
        assert forall|j: int| 0 <= j < first_index_of(s, c) implies s[j] != c by {
            if j > 0 {
                assert(s.drop_first()[j - 1] == s[j]);
            }
        }
        if first_index_of(s, c) < s.len() {
            assert(s.drop_first()[first_index_of(s, c) - 1] == s[first_index_of(s, c)]);
        }
    }
}

/// Cuts `s` at the first occurrence of `c`.
fn truncate_at_exec(s: String, c: char) -> (r: String)
    ensures
        r@ == truncate_at(s@, c),
{
    let n: usize = s.as_str().unicode_len();
    let mut i: usize = 0;
    while i < n
        invariant
            0 <= i <= n,
            n == s@.len(),
            forall|j: int| 0 <= j < i ==> s@[j] != c,
        decreases n - i,
    {
        if s.as_str().get_char(i) == c {
            let r = String::from_str(s.as_str().substring_char(0, i));
            proof {
                lemma_first_index_bounds(s@, c);
                assert(first_index_of(s@, c) == i as int);
                assert(r@ =~= s@.take(i as int));
            }
            return r;
        }
        i = i + 1;
    }
    proof {
        lemma_first_index_bounds(s@, c);
        assert(first_index_of(s@, c) == n as int);
        assert(s@.take(n as int) =~= s@);
    }
    s
}

/// The option name a long-form word yields: everything after the leading
/// dashes, cut at the first `=`, `[` or `]`, filtered.
pub open spec fn opt_name_of(w: Seq<char>) -> Seq<char> {
    filtered_name(truncate_at(truncate_at(truncate_at(w.skip(2), '='), '['), ']'))
}

/// The first long-form option name the words of a help line yield: from the
/// first word that opens with a dash, has more than two characters, and does
/// not continue with a dash after the dropped pair, a name longer than two
/// characters.
pub open spec fn extract_opt_spec(words: Seq<Seq<char>>, i: int) -> Option<Seq<char>>
    decreases words.len() - i,
{
    if i < 0 || i >= words.len() {
        Option::None
    } else {
        let w = words[i];
        if !(w.len() > 0 && w[0] == '-') || w.len() <= 2 {
            extract_opt_spec(words, i + 1)
        } else if w.skip(2).len() > 0 && w.skip(2)[0] == '-' {
            extract_opt_spec(words, i + 1)
        } else if opt_name_of(w).len() <= 2 {
            extract_opt_spec(words, i + 1)
        } else {
            Option::Some(opt_name_of(w))
        }
    }
}

/// A scraped option: the long name, and a short form when one was given
/// explicitly.
#[derive(Debug)]
pub struct Opt {
    pub short: Option<String>,
    pub long: String,
}

/// Scrapes a long-form option out of one help line's words.
pub fn extract_opt(words: &Vec<String>) -> (r: Option<Opt>)
    ensures
        match r {
            Some(o) => extract_opt_spec(views_of(words@), 0) == Option::Some(o.long@) && o.short
                is None,
            None => extract_opt_spec(views_of(words@), 0) is None,
        },
{
    proof {
        assert(forall|j: int|
            0 <= j < words@.len() ==> views_of(words@)[j] == (#[trigger] words@[j])@);
    }
    let mut i: usize = 0;
    while i < words.len()
        invariant
            0 <= i <= words@.len(),
            forall|j: int|
                0 <= j < words@.len() ==> views_of(words@)[j] == (#[trigger] words@[j])@,
            extract_opt_spec(views_of(words@), 0) == extract_opt_spec(views_of(words@), i as int),
        decreases words@.len() - i,
    {
        let w: &String = &words[i];
        let n: usize = w.as_str().unicode_len();
        if n > 0 && w.as_str().get_char(0) == '-' && n > 2 {
            let tail = String::from_str(w.as_str().substring_char(2, n));
            proof {
                assert(tail@ =~= w@.skip(2));
            }
            if !(tail.as_str().unicode_len() > 0 && tail.as_str().get_char(0) == '-') {
                let t1 = truncate_at_exec(tail, '=');
                let t2 = truncate_at_exec(t1, '[');
                let t3 = truncate_at_exec(t2, ']');
                let long = filtered_name_exec(t3.as_str());
                if long.as_str().unicode_len() > 2 {
                    proof {
                        assert(long@ == opt_name_of(w@));
                    }
                    return Some(Opt { short: None, long });
                }
            }
        }
        i = i + 1;
    }
    None
}

// ---------------------------------------------------------------------------
// turning one command's help text into flags and subcommands
// ---------------------------------------------------------------------------

/// The subcommand name one help line yields: only indented lines count.
pub open spec fn line_sub(l: Seq<char>) -> Option<Seq<char>> {
    if l.len() > 0 && l[0] == ' ' {
        extract_sub_spec(crate::strings::spec_words(l))
    } else {
        Option::None
    }
}

/// The subcommand names the first `j` help lines yield, in order.
pub open spec fn discovered_subs(lines: Seq<Seq<char>>, j: int) -> Seq<Seq<char>>
    decreases j,
{
    if j <= 0 {
        Seq::empty()
    } else {
        discovered_subs(lines, j - 1) + (match line_sub(lines[j - 1]) {
            Option::Some(l) => seq![l],
            Option::None => Seq::empty(),
        })
    }
}

/// The option names the first `j` help lines yield, in order.
pub open spec fn discovered_opts(lines: Seq<Seq<char>>, j: int) -> Seq<Seq<char>>
    decreases j,
{
    if j <= 0 {
        Seq::empty()
    } else {
        discovered_opts(lines, j - 1) + (match extract_opt_spec(
            crate::strings::spec_words(lines[j - 1]),
            0,
        ) {
            Option::Some(l) => seq![l],
            Option::None => Seq::empty(),
        })
    }
}

/// The first `k` strings with later duplicates removed.
pub open spec fn dedup_first(s: Seq<Seq<char>>, k: int) -> Seq<Seq<char>>
    decreases k,
{
    if k <= 0 {
        Seq::empty()
    } else {
        dedup_first(s, k - 1) + (if s.take(k - 1).contains(s[k - 1]) {
            Seq::empty()
        } else {
            seq![s[k - 1]]
        })
    }
}

/// The subcommand names fed to deconfliction: the exact list when one is
/// configured; otherwise the configured extras and, when scraping is on,
/// what the help lines yield — each name once.
pub open spec fn sub_pool(conf: ConfigFile, text: Seq<char>) -> Seq<Seq<char>> {
    let cand = if conf.exact_subs@.len() > 0 {
        views_of(conf.exact_subs@)
    } else {
        views_of(conf.extra_subs@) + (if conf.extract_subs {
            discovered_subs(
                crate::strings::spec_lines(text),
                crate::strings::spec_lines(text).len() as int,
            )
        } else {
            Seq::empty()
        })
    };
    dedup_first(cand, cand.len() as int)
}

/// The flag names fed to deconfliction: the scraped ones, each once, then
/// every configured flag name.
pub open spec fn opt_pool(conf: ConfigFile, text: Seq<char>) -> Seq<Seq<char>> {
    let disc = if conf.extract_flags {
        discovered_opts(
            crate::strings::spec_lines(text),
            crate::strings::spec_lines(text).len() as int,
        )
    } else {
        Seq::empty()
    };
    dedup_first(disc, disc.len() as int) + views_of(
        conf.flags@.map_values(|e: (String, Flag)| e.0),
    )
}

/// A flag key as the tree stores it: with its leading dashes.
pub open spec fn dashed(l: Seq<char>) -> Seq<char> {
    if l.len() > 0 && l[0] == '-' {
        l
    } else {
        seq!['-', '-'] + l
    }
}

/// The pool names that produce a flag entry: those whose dashed key no
/// earlier pool name already produced, in order.
pub open spec fn flag_longs(op: Seq<Seq<char>>, k: int) -> Seq<Seq<char>>
    decreases k,
{
    if k <= 0 {
        Seq::empty()
    } else {
        flag_longs(op, k - 1) + (if exists|q: int|
            0 <= q < k - 1 && dashed(#[trigger] op[q]) == dashed(op[k - 1]) {
            Seq::empty()
        } else {
            seq![op[k - 1]]
        })
    }
}

proof fn lemma_flag_longs_members(op: Seq<Seq<char>>, k: int)
    ensures
        forall|i: int|
            0 <= i < flag_longs(op, k).len() ==> exists|j: int|
                0 <= j < k && #[trigger] flag_longs(op, k)[i] == op[j],
    decreases k,
{
    if k > 0 {
        lemma_flag_longs_members(op, k - 1);
        assert forall|i: int|
            0 <= i < flag_longs(op, k).len() implies exists|j: int|
            0 <= j < k && #[trigger] flag_longs(op, k)[i] == op[j] by {
            if i < flag_longs(op, k - 1).len() {
                assert(flag_longs(op, k)[i] == flag_longs(op, k - 1)[i]);
                let j = choose|j: int|
                    0 <= j < k - 1 && #[trigger] flag_longs(op, k - 1)[i] == op[j];
                assert(flag_longs(op, k)[i] == op[j]);
            } else {
                assert(flag_longs(op, k)[i] == op[k - 1]);
            }
        }
    }
}

/// The squish setting a long flag name gets from the configuration.
pub open spec fn squish_of(conf: ConfigFile, long: Seq<char>) -> bool {
    match lookup_flag(conf.flags@, long) {
        Option::Some(f) => f.squish,
        Option::None => false,
    }
}

/// Keeps the first occurrence of each string.
fn dedup_first_exec(v: &Vec<String>) -> (r: Vec<String>)
    ensures
        views_of(r@) == dedup_first(views_of(v@), v@.len() as int),
{
    let ghost vs = views_of(v@);
    let mut r: Vec<String> = Vec::new();
    let mut k: usize = 0;
    while k < v.len()
        invariant
            0 <= k <= v@.len(),
            vs == views_of(v@),
            views_of(r@) == dedup_first(vs, k as int),
        decreases v@.len() - k,
    {
        let mut dup: bool = false;
        let mut t: usize = 0;
        while t < k
            invariant
                0 <= t <= k < v@.len(),
                vs == views_of(v@),
                dup == exists|w: int| 0 <= w < t && (#[trigger] vs.take(k as int)[w]) == vs[k as int],
            decreases k - t,
        {
            proof {
                assert(vs.take(k as int)[t as int] == vs[t as int]);
                assert(vs[t as int] == v@[t as int]@);
                assert(vs[k as int] == v@[k as int]@);
            }
            if str_eq(v[t].as_str(), v[k].as_str()) {
                dup = true;
                proof {
                    assert(vs.take(k as int)[t as int] == vs[k as int]);
                }
            }
            t = t + 1;
        }
        proof {
            assert(dup == vs.take(k as int).contains(vs[k as int]));
        }
        if !dup {
            let ghost rv = r@;
            let x = v[k].clone();
            r.push(x);
            proof {
                lemma_views_push(rv, x);
                assert(views_of(r@) =~= dedup_first(vs, k + 1));
            }
        } else {
            proof {
                assert(dedup_first(vs, k + 1) =~= dedup_first(vs, k as int));
            }
        }
        k = k + 1;
    }
    r
}

/// Scrapes the flags and subcommands out of one command's help text and
/// assigns their short codes: indented lines yield subcommand names, any
/// line can yield a long-form flag, the configured lists override or extend
/// them, and deconfliction gives every name its code. Subcommand entries
/// come back sorted by name; a `stop` configuration drops them.
#[verifier::rlimit(100)]
pub fn extract_text(conf: &ConfigFile, text: &str) -> (r: (Vec<(String, Flag)>, Cmds))
    ensures
        ({
            let sp = sub_pool(*conf, text@);
            let op = opt_pool(*conf, text@);
            let m = deconflict_map(*conf, op, sp, views_of(conf.deny@));
            // the subcommand entries: the pool sorted by name, each name
            // bound to its assigned code
            &&& (conf.stop ==> r.1.0@.len() == 0)
            &&& (!conf.stop ==> {
                &&& r.1.0@.len() == sorted_lex(sp).len()
                &&& (forall|i: int|
                    0 <= i < r.1.0@.len() ==> (#[trigger] r.1.0@[i]).0@ == sorted_lex(sp)[i])
                &&& (forall|i: int|
                    0 <= i < r.1.0@.len() ==> sp.contains((#[trigger] r.1.0@[i]).0@)
                        && m.dom().contains(r.1.0@[i].0@) && r.1.0@[i].1.short@ == m[r.1.0@[i].0@]
                        && r.1.0@[i].1.flags@.len() == 0 && r.1.0@[i].1.no_args == conf.no_args
                        && r.1.0@[i].1.subs.0@.len() == 0)
            })
            // the flag entries: the pooled names under their dashed keys, the
            // first name with a given key providing its entry
            &&& r.0@.len() == flag_longs(op, op.len() as int).len()
            &&& (forall|i: int|
                0 <= i < r.0@.len() ==> (#[trigger] r.0@[i]).0@ == dashed(
                    flag_longs(op, op.len() as int)[i],
                ) && m.dom().contains(flag_longs(op, op.len() as int)[i]) && r.0@[i].1.short@
                    == m[flag_longs(op, op.len() as int)[i]] && r.0@[i].1.squish == squish_of(
                    *conf,
                    flag_longs(op, op.len() as int)[i],
                ))
        }),
{
    let lines = split_lines(text);
    let ghost lines_v = crate::strings::spec_lines(text@);
    // candidate subcommand names
    let mut sub_cand: Vec<String> = Vec::new();
    if conf.exact_subs.len() > 0 {
        let mut t: usize = 0;
        while t < conf.exact_subs.len()
            invariant
                0 <= t <= conf.exact_subs@.len(),
                views_of(sub_cand@) == views_of(conf.exact_subs@).take(t as int),
            decreases conf.exact_subs@.len() - t,
        {
            let ghost sv = sub_cand@;
            let x = conf.exact_subs[t].clone();
            sub_cand.push(x);
            proof {
                lemma_views_push(sv, x);
                assert(views_of(sub_cand@) =~= views_of(conf.exact_subs@).take(t + 1));
            }
            t = t + 1;
        }
        proof {
            assert(views_of(conf.exact_subs@).take(conf.exact_subs@.len() as int) =~= views_of(
                conf.exact_subs@,
            ));
        }
    } else {
        let mut t: usize = 0;
        while t < conf.extra_subs.len()
            invariant
                0 <= t <= conf.extra_subs@.len(),
                views_of(sub_cand@) == views_of(conf.extra_subs@).take(t as int),
            decreases conf.extra_subs@.len() - t,
        {
            let ghost sv = sub_cand@;
            let x = conf.extra_subs[t].clone();
            sub_cand.push(x);
            proof {
                lemma_views_push(sv, x);
                assert(views_of(sub_cand@) =~= views_of(conf.extra_subs@).take(t + 1));
            }
            t = t + 1;
        }
        proof {
            assert(views_of(conf.extra_subs@).take(conf.extra_subs@.len() as int) =~= views_of(
                conf.extra_subs@,
            ));
        }
        if conf.extract_subs {
            let mut t: usize = 0;
            while t < lines.len()
                invariant
                    0 <= t <= lines@.len(),
                    lines_v == views_of(lines@),
                    views_of(sub_cand@) == views_of(conf.extra_subs@) + discovered_subs(
                        lines_v,
                        t as int,
                    ),
                decreases lines@.len() - t,
            {
                let line: &String = &lines[t];
                proof {
                    assert(lines_v[t as int] == lines@[t as int]@);
                }
                let mut found: Option<String> = None;
                if line.as_str().unicode_len() > 0 && line.as_str().get_char(0) == ' ' {
                    let words = split_words(line.as_str());
                    found = extract_sub(&words);
                }
                match found {
                    Some(l) => {
                        let ghost sv = sub_cand@;
                        sub_cand.push(l);
                        proof {
                            assert(views_of(sub_cand@) =~= views_of(sv).push(
                                sub_cand@[sv.len() as int]@,
                            ));
                            assert(views_of(sub_cand@) =~= views_of(conf.extra_subs@)
                                + discovered_subs(lines_v, t + 1));
                        }
                    },
                    None => {
                        proof {
                            assert(discovered_subs(lines_v, t + 1) =~= discovered_subs(
                                lines_v,
                                t as int,
                            ));
                            assert(views_of(sub_cand@) =~= views_of(conf.extra_subs@)
                                + discovered_subs(lines_v, t + 1));
                        }
                    },
                }
                t = t + 1;
            }
        }
    }
    let sub_vec = dedup_first_exec(&sub_cand);
    let ghost sp = sub_pool(*conf, text@);
    proof {
        assert(views_of(sub_vec@) == sp);
    }
    // candidate flag names
    let mut opt_cand: Vec<String> = Vec::new();
    if conf.extract_flags {
        let mut t: usize = 0;
        while t < lines.len()
            invariant
                0 <= t <= lines@.len(),
                lines_v == views_of(lines@),
                views_of(opt_cand@) == discovered_opts(lines_v, t as int),
            decreases lines@.len() - t,
        {
            let line: &String = &lines[t];
            proof {
                assert(lines_v[t as int] == lines@[t as int]@);
            }
            let words = split_words(line.as_str());
            match extract_opt(&words) {
                Some(o) => {
                    let ghost ov = opt_cand@;
                    opt_cand.push(o.long);
                    proof {
                        assert(views_of(opt_cand@) =~= views_of(ov).push(
                            opt_cand@[ov.len() as int]@,
                        ));
                        assert(views_of(opt_cand@) =~= discovered_opts(lines_v, t + 1));
                    }
                },
                None => {
                    proof {
                        assert(discovered_opts(lines_v, t + 1) =~= discovered_opts(
                            lines_v,
                            t as int,
                        ));
                    }
                },
            }
            t = t + 1;
        }
    }
    let mut opt_vec = dedup_first_exec(&opt_cand);
    let ghost disc_dedup = views_of(opt_vec@);
    let mut t: usize = 0;
    while t < conf.flags.len()
        invariant
            0 <= t <= conf.flags@.len(),
            views_of(opt_vec@) == disc_dedup + views_of(
                conf.flags@.map_values(|e: (String, Flag)| e.0),
            ).take(t as int),
        decreases conf.flags@.len() - t,
    {
        let ghost ov = opt_vec@;
        let x = conf.flags[t].0.clone();
        opt_vec.push(x);
        proof {
            lemma_views_push(ov, x);
            assert(views_of(conf.flags@.map_values(|e: (String, Flag)| e.0))[t as int]
                == conf.flags@[t as int].0@);
            assert(views_of(opt_vec@) =~= disc_dedup + views_of(
                conf.flags@.map_values(|e: (String, Flag)| e.0),
            ).take(t + 1));
        }
        t = t + 1;
    }
    let ghost op = opt_pool(*conf, text@);
    proof {
        assert(views_of(conf.flags@.map_values(|e: (String, Flag)| e.0)).take(
            conf.flags@.len() as int,
        ) =~= views_of(conf.flags@.map_values(|e: (String, Flag)| e.0)));
        assert(views_of(opt_vec@) == op);
    }
    // assign the short codes
    let deco = deconflict(conf, &opt_vec, &sub_vec, &conf.deny);
    let ghost m = deconflict_map(*conf, op, sp, views_of(conf.deny@));
    proof {
        assert(deco.as_map() == m);
        lemma_deconflict_covers(*conf, op, sp, views_of(conf.deny@));
    }
    // the subcommand entries, sorted by name
    let mut names: Vec<String> = Vec::new();
    let mut t: usize = 0;
    while t < sub_vec.len()
        invariant
            0 <= t <= sub_vec@.len(),
            sp == views_of(sub_vec@),
            views_of(names@) == views_of(sub_vec@).take(t as int),
        decreases sub_vec@.len() - t,
    {
        let ghost nv = names@;
        let x = sub_vec[t].clone();
        names.push(x);
        proof {
            lemma_views_push(nv, x);
            assert(views_of(names@) =~= views_of(sub_vec@).take(t + 1));
        }
        t = t + 1;
    }
    proof {
        assert(views_of(sub_vec@).take(sub_vec@.len() as int) =~= views_of(sub_vec@));
    }
    sort_strings(&mut names);
    proof {
        crate::strings::lemma_lex_total_ordering();
        sp.lemma_sort_by_ensures(crate::strings::lex_le_fn());
        assert(views_of(names@).to_multiset() == sp.to_multiset());
    }
    let subs_vec: Vec<(String, Cmd)> = if conf.stop {
        Vec::new()
    } else {
        build_sub_entries(conf.no_args, &names, &deco, Ghost(sp), Ghost(m))
    };
    let flags_vec = build_flag_entries(conf, &opt_vec, &deco, Ghost(op), Ghost(m));
    proof {
        lemma_flag_longs_members(op, op.len() as int);
        assert forall|i: int|
            0 <= i < flag_longs(op, op.len() as int).len() implies m.dom().contains(
            #[trigger] flag_longs(op, op.len() as int)[i],
        ) by {
            let j = choose|j: int|
                0 <= j < op.len() && #[trigger] flag_longs(op, op.len() as int)[i] == op[j];
            assert(m.dom().contains(op[j]));
        }
    }
    (flags_vec, Cmds(subs_vec))
}


/// Builds the sorted subcommand entries, one per pool name, each bound to
/// its assigned code.
fn build_sub_entries(
    no_args: bool,
    names: &Vec<String>,
    deco: &StringMap,
    Ghost(sp): Ghost<Seq<Seq<char>>>,
    Ghost(m): Ghost<Map<Seq<char>, Seq<char>>>,
) -> (r: Vec<(String, Cmd)>)
    requires
        deco.wf(),
        deco.as_map() == m,
        views_of(names@) == sorted_lex(sp),
        views_of(names@).to_multiset() == sp.to_multiset(),
        forall|j: int| 0 <= j < sp.len() ==> m.dom().contains(#[trigger] sp[j]),
    ensures
        r@.len() == names@.len(),
        forall|i: int| 0 <= i < r@.len() ==> (#[trigger] r@[i]).0@ == views_of(names@)[i],
        forall|i: int|
            0 <= i < r@.len() ==> sp.contains((#[trigger] r@[i]).0@) && m.dom().contains(r@[i].0@)
                && r@[i].1.short@ == m[r@[i].0@] && r@[i].1.flags@.len() == 0 && r@[i].1.no_args
                == no_args && r@[i].1.subs.0@.len() == 0,
{
    let mut subs_vec: Vec<(String, Cmd)> = Vec::new();
    let mut t: usize = 0;
    while t < names.len()
        invariant
            0 <= t <= names@.len(),
            deco.wf(),
            deco.as_map() == m,
            views_of(names@) == sorted_lex(sp),
            views_of(names@).to_multiset() == sp.to_multiset(),
            forall|j: int| 0 <= j < sp.len() ==> m.dom().contains(#[trigger] sp[j]),
            subs_vec@.len() == t,
            forall|i: int| 0 <= i < t ==> (#[trigger] subs_vec@[i]).0@ == views_of(names@)[i],
            forall|i: int|
                0 <= i < t ==> sp.contains((#[trigger] subs_vec@[i]).0@) && m.dom().contains(
                    subs_vec@[i].0@,
                ) && subs_vec@[i].1.short@ == m[subs_vec@[i].0@] && subs_vec@[i].1.flags@.len()
                    == 0 && subs_vec@[i].1.no_args == no_args && subs_vec@[i].1.subs.0@.len() == 0,
        decreases names@.len() - t,
    {
        let name: &String = &names[t];
        proof {
            views_of(names@).to_multiset_ensures();
            sp.to_multiset_ensures();
            assert(views_of(names@)[t as int] == names@[t as int]@);
            assert(views_of(names@).contains(views_of(names@)[t as int]));
            assert(views_of(names@).to_multiset().count(views_of(names@)[t as int]) > 0);
            assert(sp.to_multiset().count(views_of(names@)[t as int]) > 0);
            assert(sp.contains(name@));
        }
        match deco.get(name.as_str()) {
            Some(short) => {
                subs_vec.push(
                    (
                        name.clone(),
                        Cmd {
                            short: short.clone(),
                            flags: Vec::new(),
                            no_args,
                            subs: Cmds(Vec::new()),
                        },
                    ),
                );
            },
            None => {
                proof {
                    let j = choose|j: int| 0 <= j < sp.len() && sp[j] == name@;
                    assert(m.dom().contains(sp[j]));
                    assert(false);
                }
            },
        }
        t = t + 1;
    }
    subs_vec
}

/// Builds the flag entries: each pooled name under its dashed key, the
/// first pool name with a given key providing its entry.
fn build_flag_entries(
    conf: &ConfigFile,
    opt_vec: &Vec<String>,
    deco: &StringMap,
    Ghost(op): Ghost<Seq<Seq<char>>>,
    Ghost(m): Ghost<Map<Seq<char>, Seq<char>>>,
) -> (r: Vec<(String, Flag)>)
    requires
        deco.wf(),
        deco.as_map() == m,
        op == views_of(opt_vec@),
        forall|j: int| 0 <= j < op.len() ==> m.dom().contains(#[trigger] op[j]),
    ensures
        r@.len() == flag_longs(op, op.len() as int).len(),
        forall|i: int|
            0 <= i < r@.len() ==> (#[trigger] r@[i]).0@ == dashed(
                flag_longs(op, op.len() as int)[i],
            ) && r@[i].1.short@ == m[flag_longs(op, op.len() as int)[i]] && r@[i].1.squish
                == squish_of(*conf, flag_longs(op, op.len() as int)[i]),
{
    let mut flags_vec: Vec<(String, Flag)> = Vec::new();
    let mut t: usize = 0;
    while t < opt_vec.len()
        invariant
            0 <= t <= opt_vec@.len(),
            deco.wf(),
            deco.as_map() == m,
            op == views_of(opt_vec@),
            op.len() == opt_vec@.len(),
            forall|j: int| 0 <= j < op.len() ==> m.dom().contains(#[trigger] op[j]),
            flags_vec@.len() == flag_longs(op, t as int).len(),
            forall|i: int|
                0 <= i < flags_vec@.len() ==> (#[trigger] flags_vec@[i]).0@ == dashed(
                    flag_longs(op, t as int)[i],
                ) && flags_vec@[i].1.short@ == m[flag_longs(op, t as int)[i]]
                    && flags_vec@[i].1.squish == squish_of(*conf, flag_longs(op, t as int)[i]),
        decreases opt_vec@.len() - t,
    {
        let long: &String = &opt_vec[t];
        proof {
            assert(views_of(opt_vec@)[t as int] == opt_vec@[t as int]@);
            assert(op.contains(long@));
        }
        // skip a name whose dashed key an earlier name already produced
        let mut dup: bool = false;
        let mut q: usize = 0;
        while q < t
            invariant
                0 <= q <= t < opt_vec@.len(),
                op == views_of(opt_vec@),
                op.len() == opt_vec@.len(),
                long@ == op[t as int],
                dup == exists|w: int|
                    0 <= w < q && dashed(#[trigger] op[w]) == dashed(op[t as int]),
            decreases t - q,
        {
            proof {
                assert(op[q as int] == opt_vec@[q as int]@);
            }
            let a = dashed_exec(&opt_vec[q]);
            let b = dashed_exec(long);
            if str_eq(a.as_str(), b.as_str()) {
                dup = true;
            }
            q = q + 1;
        }
        if !dup {
            let short: String = match deco.get(long.as_str()) {
                Some(s) => s.clone(),
                None => {
                    proof {
                        assert(false);
                    }
                    String::new()
                },
            };
            let squish: bool = match lookup_flag_exec(&conf.flags, long.as_str()) {
                Some(f) => f.squish,
                None => false,
            };
            let key = dashed_exec(long);
            let ghost before = flags_vec@;
            let entry = (key, Flag { short, squish });
            flags_vec.push(entry);
            proof {
                assert(flags_vec@ == before.push(entry));
                assert(flag_longs(op, t + 1) =~= flag_longs(op, t as int) + seq![op[t as int]]);
                assert(flags_vec@[before.len() as int].0@ == dashed(op[t as int]));
                assert(flags_vec@[before.len() as int].1.short@ == m[op[t as int]]);
                assert(flags_vec@[before.len() as int].1.squish == squish_of(*conf, op[t as int]));
                assert forall|i2: int| 0 <= i2 < flags_vec@.len() implies (
                #[trigger] flags_vec@[i2]).0@ == dashed(flag_longs(op, t + 1)[i2])
                    && flags_vec@[i2].1.short@ == m[flag_longs(op, t + 1)[i2]]
                    && flags_vec@[i2].1.squish == squish_of(*conf, flag_longs(op, t + 1)[i2]) by {
                    if i2 < before.len() {
                        assert(flags_vec@[i2] == before[i2]);
                        assert(flag_longs(op, t + 1)[i2] == flag_longs(op, t as int)[i2]);
                    } else {
                        assert(flag_longs(op, t + 1)[i2] == op[t as int]);
                    }
                }
            }
        } else {
            proof {
                assert(flag_longs(op, t + 1) =~= flag_longs(op, t as int));
            }
        }
        t = t + 1;
    }
    flags_vec
}

/// A flag name under its leading dashes.
fn dashed_exec(long: &String) -> (r: String)
    ensures
        r@ == dashed(long@),
{
    let n: usize = long.as_str().unicode_len();
    if n > 0 && long.as_str().get_char(0) == '-' {
        long.clone()
    } else {
        let k = crate::strings::str_concat("--", long.as_str());
        proof {
            reveal_strlit("--");
            assert("--"@ =~= seq!['-', '-']);
        }
        k
    }
}

// ---------------------------------------------------------------------------
// assembling the tree from captured help texts
// ---------------------------------------------------------------------------

/// The extraction surface's arguments: the command to extract, an optional
/// settings file, and whether to print the subcommands alone.
#[derive(Debug)]
pub struct Config {
    pub cmd: String,
    pub conf: Option<String>,
    pub print_subs: bool,
}

/// Captured help texts, keyed by command path: an entry holds the text the
/// command printed, or nothing when it could not be run.
pub struct HelpTexts(pub Vec<(Vec<String>, Option<String>)>);

/// The first recorded entry for `path`, if any.
pub open spec fn lookup_help(
    hs: Seq<(Vec<String>, Option<String>)>,
    path: Seq<Seq<char>>,
) -> Option<Option<String>>
    decreases hs.len(),
{
    if hs.len() == 0 {
        Option::None
    } else if views_of(hs[0].0@) == path {
        Option::Some(hs[0].1)
    } else {
        lookup_help(hs.drop_first(), path)
    }
}

/// Whether two command paths are the same.
fn path_eq(a: &Vec<String>, b: &Vec<String>) -> (r: bool)
    ensures
        r == (views_of(a@) == views_of(b@)),
{
    if a.len() != b.len() {
        proof {
            assert(views_of(a@).len() != views_of(b@).len());
        }
        return false;
    }
    let mut i: usize = 0;
    while i < a.len()
        invariant
            0 <= i <= a@.len(),
            a@.len() == b@.len(),
            forall|j: int| 0 <= j < i ==> views_of(a@)[j] == views_of(b@)[j],
        decreases a@.len() - i,
    {
        if !str_eq(a[i].as_str(), b[i].as_str()) {
            proof {
                assert(views_of(a@)[i as int] != views_of(b@)[i as int]);
            }
            return false;
        }
        proof {
            assert(views_of(a@)[i as int] == views_of(b@)[i as int]);
        }
        i = i + 1;
    }
    proof {
        assert(views_of(a@) =~= views_of(b@));
    }
    true
}

/// Finds the recorded help entry for `path`.
fn find_help<'a>(helps: &'a HelpTexts, path: &Vec<String>) -> (r: Option<&'a Option<String>>)
    ensures
        match r {
            Some(h) => lookup_help(helps.0@, views_of(path@)) == Option::Some(*h),
            None => lookup_help(helps.0@, views_of(path@)) is None,
        },
{
    proof {
        assert(helps.0@.skip(0) =~= helps.0@);
    }
    let mut i: usize = 0;
    while i < helps.0.len()
        invariant
            0 <= i <= helps.0@.len(),
            lookup_help(helps.0@, views_of(path@)) == lookup_help(
                helps.0@.skip(i as int),
                views_of(path@),
            ),
        decreases helps.0@.len() - i,
    {
        proof {
            assert(helps.0@.skip(i as int)[0] == helps.0@[i as int]);
            assert(helps.0@.skip(i as int).drop_first() =~= helps.0@.skip(i + 1));
        }
        if path_eq(&helps.0[i].0, path) {
            return Some(&helps.0[i].1);
        }
        i = i + 1;
    }
    proof {
        assert(helps.0@.skip(helps.0@.len() as int).len() == 0);
    }
    None
}

proof fn lemma_lookup_sub_member(subs: Seq<(String, ConfigFile)>, name: Seq<char>)
    requires
        lookup_sub(subs, name) is Some,
    ensures
        exists|w: int|
            0 <= w < subs.len() && lookup_sub(subs, name)->0 == (#[trigger] subs[w]).1,
    decreases subs.len(),
{
    if subs[0].0@ == name {
        assert(lookup_sub(subs, name)->0 == subs[0].1);
    } else {
        lemma_lookup_sub_member(subs.drop_first(), name);
        let w = choose|w: int|
            0 <= w < subs.drop_first().len() && lookup_sub(subs.drop_first(), name)->0 == (
            #[trigger] subs.drop_first()[w]).1;
        assert(subs.drop_first()[w] == subs[w + 1]);
        assert(lookup_sub(subs, name)->0 == subs[w + 1].1);
    }
}

/// The short code a node gets: the configured one, else the long name's
/// first character, else nothing.
pub open spec fn short_of(conf: ConfigFile, long: Seq<char>) -> Seq<char> {
    match conf.short {
        Option::Some(s) => s@,
        Option::None => if long.len() > 0 {
            seq![long[0]]
        } else {
            Seq::empty()
        },
    }
}

/// Builds the node for the command `prefix long` from its settings and the
/// recorded help texts, descending into each scraped subcommand that has
/// settings of its own. Returns nothing when the command's help text is
/// needed and recorded as unobtainable, or not recorded at all.
pub fn extract_recursive(
    prefix: Vec<String>,
    conf: &ConfigFile,
    long: String,
    helps: &HelpTexts,
) -> (r: Option<Cmd>)
    ensures
        match r {
            Option::Some(c) => c.short@ == short_of(*conf, long@) && c.no_args == conf.no_args,
            Option::None => (conf.extract_subs || conf.extract_flags) && (lookup_help(
                helps.0@,
                views_of(prefix@).push(long@),
            ) is None || lookup_help(helps.0@, views_of(prefix@).push(long@)) == Option::Some(
                Option::<String>::None,
            )),
        },
    decreases *conf,
{
    let ghost prefix_v = views_of(prefix@);
    let mut path = prefix;
    let ghost p0 = path@;
    path.push(long.clone());
    proof {
        lemma_views_push(p0, long);
        assert(views_of(path@) == prefix_v.push(long@));
    }
    let h: String = if conf.extract_subs || conf.extract_flags {
        match find_help(helps, &path) {
            Some(recorded) => match recorded {
                Some(text) => text.clone(),
                None => {
                    return None;
                },
            },
            None => {
                return None;
            },
        }
    } else {
        String::new()
    };
    let parsed = extract_text(conf, h.as_str());
    let flags = parsed.0;
    let subs0 = parsed.1;
    let mut subs: Vec<(String, Cmd)> = Vec::new();
    let mut i: usize = 0;
    while i < subs0.0.len()
        invariant
            0 <= i <= subs0.0@.len(),
        decreases subs0.0@.len() - i,
    {
        let sub_long: &String = &subs0.0[i].0;
        let sub_short: String = subs0.0[i].1.short.clone();
        let no_args0: bool = subs0.0[i].1.no_args;
        match lookup_sub_exec(&conf.subs, sub_long.as_str()) {
            Some(sub_conf) => {
                proof {
                    lemma_lookup_sub_member(conf.subs@, sub_long@);
                    let w = choose|w: int|
                        0 <= w < conf.subs@.len() && lookup_sub(conf.subs@, sub_long@)->0 == (
                        #[trigger] conf.subs@[w]).1;
                    assert(*sub_conf == conf.subs@[w].1);
                    assert(decreases_to!(*conf => conf.subs));
                    assert(decreases_to!(conf.subs@[w] => conf.subs@[w].1));
                }
                match extract_recursive(path.clone(), sub_conf, sub_long.clone(), helps) {
                    Some(sub) => {
                        let rebuilt = Cmd {
                            short: sub_short,
                            flags: sub.flags,
                            no_args: sub.no_args,
                            subs: sub.subs,
                        };
                        subs.push((sub_long.clone(), rebuilt));
                    },
                    None => {
                        subs.push(
                            (
                                sub_long.clone(),
                                Cmd {
                                    short: sub_short,
                                    flags: Vec::new(),
                                    no_args: no_args0,
                                    subs: Cmds(Vec::new()),
                                },
                            ),
                        );
                    },
                }
            },
            None => {
                // a subcommand without settings of its own is a leaf
                subs.push(
                    (
                        sub_long.clone(),
                        Cmd {
                            short: sub_short,
                            flags: Vec::new(),
                            no_args: false,
                            subs: Cmds(Vec::new()),
                        },
                    ),
                );
            },
        }
        i = i + 1;
    }
    let short: String = match &conf.short {
        Some(s) => s.clone(),
        None => {
            let n: usize = long.as_str().unicode_len();
            if n > 0 {
                let mut s = String::new();
                push_char(&mut s, long.as_str().get_char(0));
                proof {
                    assert(s@ =~= seq![long@[0]]);
                }
                s
            } else {
                String::new()
            }
        },
    };
    proof {
        assert(short@ == short_of(*conf, long@));
    }
    Some(Cmd { short, flags, no_args: conf.no_args, subs: Cmds(subs) })
}

/// The help texts the extraction of `prefix long` would consult but finds
/// unrecorded: fetch these, record them, and run again until none are left.
pub fn extract_requests(
    prefix: Vec<String>,
    conf: &ConfigFile,
    long: String,
    helps: &HelpTexts,
) -> (r: Vec<Vec<String>>)
    ensures
        forall|i: int|
            0 <= i < r@.len() ==> lookup_help(
                helps.0@,
                views_of((#[trigger] r@[i])@),
            ) is None,
    decreases *conf,
{
    let mut path = prefix;
    path.push(long.clone());
    let mut out: Vec<Vec<String>> = Vec::new();
    let h: String = if conf.extract_subs || conf.extract_flags {
        match find_help(helps, &path) {
            Some(recorded) => match recorded {
                Some(text) => text.clone(),
                None => {
                    return out;
                },
            },
            None => {
                out.push(path);
                return out;
            },
        }
    } else {
        String::new()
    };
    let parsed = extract_text(conf, h.as_str());
    let subs0 = parsed.1;
    let mut i: usize = 0;
    while i < subs0.0.len()
        invariant
            0 <= i <= subs0.0@.len(),
            forall|j: int|
                0 <= j < out@.len() ==> lookup_help(
                    helps.0@,
                    views_of((#[trigger] out@[j])@),
                ) is None,
        decreases subs0.0@.len() - i,
    {
        let sub_long: &String = &subs0.0[i].0;
        match lookup_sub_exec(&conf.subs, sub_long.as_str()) {
            Some(sub_conf) => {
                proof {
                    lemma_lookup_sub_member(conf.subs@, sub_long@);
                    let w = choose|w: int|
                        0 <= w < conf.subs@.len() && lookup_sub(conf.subs@, sub_long@)->0 == (
                        #[trigger] conf.subs@[w]).1;
                    assert(*sub_conf == conf.subs@[w].1);
                    assert(decreases_to!(*conf => conf.subs));
                    assert(decreases_to!(conf.subs@[w] => conf.subs@[w].1));
                }
                let child = extract_requests(path.clone(), sub_conf, sub_long.clone(), helps);
                let mut c: usize = 0;
                while c < child.len()
                    invariant
                        0 <= c <= child@.len(),
                        forall|j: int|
                            0 <= j < child@.len() ==> lookup_help(
                                helps.0@,
                                views_of((#[trigger] child@[j])@),
                            ) is None,
                        forall|j: int|
                            0 <= j < out@.len() ==> lookup_help(
                                helps.0@,
                                views_of((#[trigger] out@[j])@),
                            ) is None,
                    decreases child@.len() - c,
                {
                    let mut p: Vec<String> = Vec::new();
                    let mut w: usize = 0;
                    while w < child[c].len()
                        invariant
                            0 <= c < child@.len(),
                            0 <= w <= child@[c as int]@.len(),
                            views_of(p@) == views_of(child@[c as int]@).take(w as int),
                        decreases child@[c as int]@.len() - w,
                    {
                        let ghost pv = p@;
                        let x = child[c][w].clone();
                        p.push(x);
                        proof {
                            lemma_views_push(pv, x);
                            assert(views_of(p@) =~= views_of(child@[c as int]@).take(w + 1));
                        }
                        w = w + 1;
                    }
                    proof {
                        assert(views_of(child@[c as int]@).take(child@[c as int]@.len() as int)
                            =~= views_of(child@[c as int]@));
                        assert(views_of(p@) == views_of(child@[c as int]@));
                    }
                    out.push(p);
                    c = c + 1;
                }
            },
            None => {
            },
        }
        i = i + 1;
    }
    out
}

/// Builds the whole tree for the command `long`.
pub fn extract(conf: &ConfigFile, long: String, helps: &HelpTexts) -> (r: Option<Cmd>)
    ensures
        r is Some ==> r->0.short@ == short_of(*conf, long@) && r->0.no_args == conf.no_args,
{
    extract_recursive(Vec::new(), conf, long, helps)
}

} // verus!
