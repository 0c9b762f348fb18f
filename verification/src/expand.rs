//! Expansion of a typed buffer: splitting off compound-command prefixes,
//! looking the trailing statement up in the compiled mapping, and the
//! build-system fallbacks for single-letter buffers.

use vstd::prelude::*;
use vstd::string::StrSliceExecFns;
use vstd::string::StringExecFns;
use crate::buildsys::System;
use crate::compile::{add_prefixes_map, compile_map, compile_with_prefixes};
use crate::extract::Cmds;
use crate::strings::{has_sub, occurs_at, rfind_sub, str_concat, str_eq};
use crate::strmap::{entries_unique, map_of};

verus! {

/// A configuration file's contents: the command tree.
#[derive(Debug)]
pub struct ConfigFile {
    pub cmds: Cmds,
}

// ---------------------------------------------------------------------------
// the buffer splitter
// ---------------------------------------------------------------------------

/// The `" || "` separator.
pub open spec fn sep_pipes() -> Seq<char> {
    seq![' ', '|', '|', ' ']
}

/// The `" && "` separator.
pub open spec fn sep_amps() -> Seq<char> {
    seq![' ', '&', '&', ' ']
}

/// The `"; "` separator.
pub open spec fn sep_semi() -> Seq<char> {
    seq![';', ' ']
}

/// The position of the last occurrence of `d` in `s`.
pub open spec fn last_occurrence(s: Seq<char>, d: Seq<char>) -> int {
    choose|i: int| occurs_at(s, d, i) && (forall|j: int| i < j ==> !occurs_at(s, d, j))
}

/// One splitting step: when the separator occurs, everything up to and
/// including its last occurrence replaces the prefix and the rest becomes
/// the buffer; otherwise both are kept.
pub open spec fn clean_step(pre: Seq<char>, buf: Seq<char>, d: Seq<char>) -> (Seq<char>, Seq<char>) {
    if has_sub(buf, d) {
        let c = last_occurrence(buf, d) + d.len();
        (buf.take(c), buf.skip(c))
    } else {
        (pre, buf)
    }
}

/// The buffer splitter: tries the three separators in a fixed order, each on
/// what the previous step left as the buffer.
pub open spec fn clean_spec(s: Seq<char>) -> (Seq<char>, Seq<char>) {
    let step1 = clean_step(Seq::empty(), s, sep_pipes());
    let step2 = clean_step(step1.0, step1.1, sep_amps());
    clean_step(step2.0, step2.1, sep_semi())
}

/// A later separator never splits what an earlier separator already split:
/// on such buffers the splitter's prefix and suffix rejoin to the input.
/// One compound buffer mixing separators, with the later-tried one last,
/// breaks this.
pub open spec fn resplit_free(s: Seq<char>) -> bool {
    let step1 = clean_step(Seq::empty(), s, sep_pipes());
    let step2 = clean_step(step1.0, step1.1, sep_amps());
    &&& (has_sub(s, sep_pipes()) ==> !has_sub(step1.1, sep_amps()) && !has_sub(
        step1.1,
        sep_semi(),
    ))
    &&& (has_sub(step1.1, sep_amps()) ==> !has_sub(step2.1, sep_semi()))
}

/// A latest occurrence exists whenever any occurrence does.
proof fn lemma_max_occurrence_from(s: Seq<char>, d: Seq<char>, i0: int)
    requires
        occurs_at(s, d, i0),
    ensures
        occurs_at(s, d, last_occurrence(s, d)),
        forall|j: int| last_occurrence(s, d) < j ==> !occurs_at(s, d, j),
    decreases s.len() - i0,
{
    if forall|j: int| i0 < j ==> !occurs_at(s, d, j) {
        assert(occurs_at(s, d, i0) && (forall|j: int| i0 < j ==> !occurs_at(s, d, j)));
        let c = last_occurrence(s, d);
        assert(occurs_at(s, d, c) && (forall|j: int| c < j ==> !occurs_at(s, d, j)));
    } else {
        let j = choose|j: int| i0 < j && occurs_at(s, d, j);
        assert(j <= s.len());
        lemma_max_occurrence_from(s, d, j);
    }
}

proof fn lemma_last_occurrence_is(s: Seq<char>, d: Seq<char>, i: int)
    requires
        occurs_at(s, d, i),
        forall|j: int| i < j ==> !occurs_at(s, d, j),
    ensures
        last_occurrence(s, d) == i,
{
    let c = last_occurrence(s, d);
    assert(occurs_at(s, d, c) && (forall|j: int| c < j ==> !occurs_at(s, d, j)));
    if c < i {
        assert(!occurs_at(s, d, i));
    }
    if i < c {
        assert(!occurs_at(s, d, c));
    }
}

/// After cutting at the last occurrence, the suffix holds none.
proof fn lemma_suffix_free(s: Seq<char>, d: Seq<char>, i: int)
    requires
        d.len() > 0,
        occurs_at(s, d, i),
        forall|j: int| i < j ==> !occurs_at(s, d, j),
    ensures
        !has_sub(s.skip(i + d.len()), d),
{
    let c = i + d.len() as int;
    assert forall|j: int| !occurs_at(s.skip(c), d, j) by {
        if occurs_at(s.skip(c), d, j) {
            assert(s.skip(c).subrange(j, j + d.len() as int) =~= s.subrange(
                c + j,
                c + j + d.len() as int,
            ));
            assert(occurs_at(s, d, c + j));
            assert(c + j > i);
        }
    }
}

/// What a suffix lacks, its suffixes lack.
proof fn lemma_skip_keeps_free(s: Seq<char>, d: Seq<char>, c: int)
    requires
        !has_sub(s, d),
        0 <= c <= s.len(),
    ensures
        !has_sub(s.skip(c), d),
{
    assert forall|j: int| !occurs_at(s.skip(c), d, j) by {
        if occurs_at(s.skip(c), d, j) {
            assert(s.skip(c).subrange(j, j + d.len() as int) =~= s.subrange(
                c + j,
                c + j + d.len() as int,
            ));
            assert(occurs_at(s, d, c + j));
        }
    }
}

/// Law: whatever the input, the buffer the splitter hands back holds none of
/// the three separators.
#[verifier::rlimit(60)]
pub proof fn lemma_clean_buf_no_separator(s: Seq<char>)
    ensures
        !has_sub(clean_spec(s).1, sep_pipes()),
        !has_sub(clean_spec(s).1, sep_amps()),
        !has_sub(clean_spec(s).1, sep_semi()),
{
    let step1 = clean_step(Seq::empty(), s, sep_pipes());
    let step2 = clean_step(step1.0, step1.1, sep_amps());
    let step3 = clean_step(step2.0, step2.1, sep_semi());
    if has_sub(s, sep_pipes()) {
        let i0 = choose|i: int| occurs_at(s, sep_pipes(), i);
        lemma_max_occurrence_from(s, sep_pipes(), i0);
        lemma_suffix_free(s, sep_pipes(), last_occurrence(s, sep_pipes()));
    }
    assert(!has_sub(step1.1, sep_pipes()));
    if has_sub(step1.1, sep_amps()) {
        let i0 = choose|i: int| occurs_at(step1.1, sep_amps(), i);
        lemma_max_occurrence_from(step1.1, sep_amps(), i0);
        let i = last_occurrence(step1.1, sep_amps());
        lemma_suffix_free(step1.1, sep_amps(), i);
        lemma_skip_keeps_free(step1.1, sep_pipes(), i + sep_amps().len());
        assert(occurs_at(step1.1, sep_amps(), i));
    }
    assert(!has_sub(step2.1, sep_amps()) && !has_sub(step2.1, sep_pipes()));
    if has_sub(step2.1, sep_semi()) {
        let i0 = choose|i: int| occurs_at(step2.1, sep_semi(), i);
        lemma_max_occurrence_from(step2.1, sep_semi(), i0);
        let i = last_occurrence(step2.1, sep_semi());
        lemma_suffix_free(step2.1, sep_semi(), i);
        lemma_skip_keeps_free(step2.1, sep_pipes(), i + sep_semi().len());
        lemma_skip_keeps_free(step2.1, sep_amps(), i + sep_semi().len());
        assert(occurs_at(step2.1, sep_semi(), i));
    }
}

/// Law: when no later separator splits what an earlier one already split,
/// the splitter's prefix and suffix rejoin to the original buffer.
#[verifier::rlimit(60)]
pub proof fn lemma_clean_buf_round_trip(s: Seq<char>)
    requires
        resplit_free(s),
    ensures
        clean_spec(s).0 + clean_spec(s).1 == s,
{
    let step1 = clean_step(Seq::empty(), s, sep_pipes());
    let step2 = clean_step(step1.0, step1.1, sep_amps());
    let step3 = clean_step(step2.0, step2.1, sep_semi());
    if has_sub(s, sep_pipes()) {
        let i0 = choose|i: int| occurs_at(s, sep_pipes(), i);
        lemma_max_occurrence_from(s, sep_pipes(), i0);
        assert(!has_sub(step1.1, sep_amps()) && !has_sub(step1.1, sep_semi()));
        let c = last_occurrence(s, sep_pipes()) + sep_pipes().len() as int;
        assert(occurs_at(s, sep_pipes(), last_occurrence(s, sep_pipes())));
        assert(step3 == step1);
        assert(s.take(c) + s.skip(c) =~= s);
    } else if has_sub(step1.1, sep_amps()) {
        assert(step1.1 == s);
        let i0 = choose|i: int| occurs_at(s, sep_amps(), i);
        lemma_max_occurrence_from(s, sep_amps(), i0);
        assert(!has_sub(step2.1, sep_semi()));
        let c = last_occurrence(s, sep_amps()) + sep_amps().len() as int;
        assert(occurs_at(s, sep_amps(), last_occurrence(s, sep_amps())));
        assert(step3 == step2);
        assert(s.take(c) + s.skip(c) =~= s);
    } else if has_sub(s, sep_semi()) {
        assert(step2.1 == s);
        let i0 = choose|i: int| occurs_at(s, sep_semi(), i);
        lemma_max_occurrence_from(s, sep_semi(), i0);
        let c = last_occurrence(s, sep_semi()) + sep_semi().len() as int;
        assert(occurs_at(s, sep_semi(), last_occurrence(s, sep_semi())));
        assert(s.take(c) + s.skip(c) =~= s);
    } else {
        assert(step3.0 =~= Seq::<char>::empty());
        assert(Seq::<char>::empty() + s =~= s);
    }
}

/// Splits off everything up to the last compound-command separator, trying
/// `" || "`, `" && "` and `"; "` in that order, each on what the previous
/// split left; the suffix is what abbreviation applies to.
pub fn clean_buf(lbuf: String) -> (r: (String, String))
    ensures
        (r.0@, r.1@) == clean_spec(lbuf@),
        !has_sub(r.1@, sep_pipes()),
        !has_sub(r.1@, sep_amps()),
        !has_sub(r.1@, sep_semi()),
{
    proof {
        lemma_clean_buf_no_separator(lbuf@);
    }
    let mut prefix = String::new();
    let mut buf = lbuf;
    let ghost s0 = buf@;
    // " || "
    proof {
        reveal_strlit(" || ");
        assert(" || "@ =~= sep_pipes());
    }
    match rfind_sub(buf.as_str(), " || ") {
        Some(i) => {
            proof {
                lemma_last_occurrence_is(buf@, sep_pipes(), i as int);
            }
            let n: usize = buf.as_str().unicode_len();
            let cut: usize = i + 4;
            let pre = String::from_str(buf.as_str().substring_char(0, cut));
            let post = String::from_str(buf.as_str().substring_char(cut, n));
            proof {
                assert(pre@ =~= buf@.take(cut as int));
                assert(post@ =~= buf@.skip(cut as int));
            }
            prefix = pre;
            buf = post;
        },
        None => {
        },
    }
    let ghost step1 = clean_step(Seq::empty(), s0, sep_pipes());
    proof {
        assert((prefix@, buf@) == step1);
    }
    // " && "
    proof {
        reveal_strlit(" && ");
        assert(" && "@ =~= sep_amps());
    }
    match rfind_sub(buf.as_str(), " && ") {
        Some(i) => {
            proof {
                lemma_last_occurrence_is(buf@, sep_amps(), i as int);
            }
            let n: usize = buf.as_str().unicode_len();
            let cut: usize = i + 4;
            let pre = String::from_str(buf.as_str().substring_char(0, cut));
            let post = String::from_str(buf.as_str().substring_char(cut, n));
            proof {
                assert(pre@ =~= buf@.take(cut as int));
                assert(post@ =~= buf@.skip(cut as int));
            }
            prefix = pre;
            buf = post;
        },
        None => {
        },
    }
    let ghost step2 = clean_step(step1.0, step1.1, sep_amps());
    proof {
        assert((prefix@, buf@) == step2);
    }
    // "; "
    proof {
        reveal_strlit("; ");
        assert("; "@ =~= sep_semi());
    }
    match rfind_sub(buf.as_str(), "; ") {
        Some(i) => {
            proof {
                lemma_last_occurrence_is(buf@, sep_semi(), i as int);
            }
            let n: usize = buf.as_str().unicode_len();
            let cut: usize = i + 2;
            let pre = String::from_str(buf.as_str().substring_char(0, cut));
            let post = String::from_str(buf.as_str().substring_char(cut, n));
            proof {
                assert(pre@ =~= buf@.take(cut as int));
                assert(post@ =~= buf@.skip(cut as int));
            }
            prefix = pre;
            buf = post;
        },
        None => {
        },
    }
    proof {
        assert((prefix@, buf@) == clean_spec(s0));
    }
    (prefix, buf)
}

// ---------------------------------------------------------------------------
// expansion
// ---------------------------------------------------------------------------

/// The build-system fallback for the four single-letter buffers.
pub open spec fn fallback_spec(lbuf: Seq<char>, sys: Option<System>) -> Option<Seq<char>> {
    if lbuf == seq!['b'] {
        match sys {
            Option::Some(System::Cabal) => Option::Some("cabal build "@),
            Option::Some(System::Cargo) => Option::Some("cargo build "@),
            Option::Some(System::Make) => Option::Some("make "@),
            Option::None => Option::None,
        }
    } else if lbuf == seq!['r'] {
        match sys {
            Option::Some(System::Cabal) => Option::Some("cabal run "@),
            Option::Some(System::Cargo) => Option::Some("cargo -q run "@),
            Option::Some(System::Make) => Option::None,
            Option::None => Option::None,
        }
    } else if lbuf == seq!['t'] {
        match sys {
            Option::Some(System::Cabal) => Option::Some("cabal test "@),
            Option::Some(System::Cargo) => Option::Some("cargo test "@),
            Option::Some(System::Make) => Option::Some("make test "@),
            Option::None => Option::None,
        }
    } else if lbuf == seq!['w'] {
        match sys {
            Option::Some(System::Cabal) => Option::Some(
                "ls ./**/*.cabal ./**/*.hs | entr -c -s 'cabal build'"@,
            ),
            Option::Some(System::Cargo) => Option::Some(
                "ls ./**/Cargo.toml ./**/*.rs | entr -c -s 'cargo fmt && cargo clippy -- --deny warnings'"@,
            ),
            Option::Some(System::Make) => Option::Some("make test"@),
            Option::None => Option::None,
        }
    } else {
        Option::None
    }
}

/// What `expand_pre` returns: the compiled mapping's entry for the buffer
/// when there is one, else the build-system fallback.
pub open spec fn expand_pre_ok(
    cmds: Cmds,
    lbuf: Seq<char>,
    sys: Option<System>,
    r: Option<String>,
) -> bool {
    exists|entries: Seq<(Seq<char>, Seq<char>)>|
        {
            &&& #[trigger] entries_unique(entries)
            &&& map_of(entries) == compile_map(cmds, lbuf, false)
            &&& {
                let m = add_prefixes_map(entries, lbuf, false);
                if m.dom().contains(lbuf) {
                    r is Some && r->0@ == m[lbuf]
                } else {
                    match fallback_spec(lbuf, sys) {
                        Option::Some(v) => r is Some && r->0@ == v,
                        Option::None => r is None,
                    }
                }
            }
        }
}

/// Looks the buffer up in the compiled mapping; for the single-letter
/// build/run/test/watch buffers that the mapping does not bind, falls back
/// to a command for the detected build system.
fn expand_pre(conf: &ConfigFile, lbuf: String, sys: Option<System>) -> (r: Option<String>)
    ensures
        expand_pre_ok(conf.cmds, lbuf@, sys, r),
{
    let compiled = compile_with_prefixes(&conf.cmds, lbuf.as_str(), false);
    match compiled.get(lbuf.as_str()) {
        Some(v) => Some(v.clone()),
        None => {
            let r = if str_eq(lbuf.as_str(), "b") {
                match sys {
                    Some(System::Cabal) => Some(String::from_str("cabal build ")),
                    Some(System::Cargo) => Some(String::from_str("cargo build ")),
                    Some(System::Make) => Some(String::from_str("make ")),
                    None => None,
                }
            } else if str_eq(lbuf.as_str(), "r") {
                match sys {
                    Some(System::Cabal) => Some(String::from_str("cabal run ")),
                    Some(System::Cargo) => Some(String::from_str("cargo -q run ")),
                    Some(System::Make) => None,
                    None => None,
                }
            } else if str_eq(lbuf.as_str(), "t") {
                match sys {
                    Some(System::Cabal) => Some(String::from_str("cabal test ")),
                    Some(System::Cargo) => Some(String::from_str("cargo test ")),
                    Some(System::Make) => Some(String::from_str("make test ")),
                    None => None,
                }
            } else if str_eq(lbuf.as_str(), "w") {
                match sys {
                    Some(System::Cabal) => Some(
                        String::from_str("ls ./**/*.cabal ./**/*.hs | entr -c -s 'cabal build'"),
                    ),
                    Some(System::Cargo) => Some(
                        String::from_str(
                            "ls ./**/Cargo.toml ./**/*.rs | entr -c -s 'cargo fmt && cargo clippy -- --deny warnings'",
                        ),
                    ),
                    Some(System::Make) => Some(String::from_str("make test")),
                    None => None,
                }
            } else {
                None
            };
            proof {
                reveal_strlit("b");
                reveal_strlit("r");
                reveal_strlit("t");
                reveal_strlit("w");
                assert("b"@ =~= seq!['b']);
                assert("r"@ =~= seq!['r']);
                assert("t"@ =~= seq!['t']);
                assert("w"@ =~= seq!['w']);
            }
            r
        },
    }
}

/// What `expand` returns for a buffer: nothing when text stands to the right
/// of the cursor; otherwise the expansion of the trailing statement, with
/// the untouched compound prefix glued back on.
pub open spec fn expand_ok(
    cmds: Cmds,
    lbuf: Seq<char>,
    rbuf: Seq<char>,
    sys: Option<System>,
    r: Option<String>,
) -> bool {
    if rbuf.len() > 0 {
        r is None
    } else {
        let pre = clean_spec(lbuf).0;
        let buf = clean_spec(lbuf).1;
        exists|inner: Option<String>|
            #[trigger] expand_pre_ok(cmds, buf, sys, inner) && (match inner {
                Option::Some(v) => r is Some && r->0@ == pre + v@,
                Option::None => r is None,
            })
    }
}

/// Expands the buffer: splits off any compound-command prefix, expands the
/// trailing statement, and re-attaches the prefix.
pub fn expand(conf: &ConfigFile, lbuf: String, rbuf: String, sys: Option<System>) -> (r: Option<
    String,
>)
    ensures
        expand_ok(conf.cmds, lbuf@, rbuf@, sys, r),
{
    if rbuf.as_str().unicode_len() > 0 {
        return None;
    }
    let (prefix, buf) = clean_buf(lbuf);
    let expanded = expand_pre(conf, buf, sys);
    match expanded {
        Some(s) => {
            let r = Some(str_concat(prefix.as_str(), s.as_str()));
            proof {
                let inner = Some(s);
                assert(expand_pre_ok(conf.cmds, clean_spec(lbuf@).1, sys, inner));
            }
            r
        },
        None => {
            proof {
                let inner = Option::<String>::None;
                assert(expand_pre_ok(conf.cmds, clean_spec(lbuf@).1, sys, inner));
            }
            None
        },
    }
}

} // verus!
