use zbr::compile::{compile, compile_with_prefixes};
use zbr::extract::{Cmd, Cmds, Flag};

fn leaf(short: &str) -> Cmd {
    Cmd { short: String::from(short), flags: Vec::new(), no_args: false, subs: Cmds(Vec::new()) }
}

fn flag(short: &str, squish: bool) -> Flag {
    Flag { short: String::from(short), squish }
}

/// A command tree with the shape the tool is typically configured with.
fn git_tree() -> Cmds {
    let submodule_subs: Vec<(String, Cmd)> = vec![
        (String::from("absorbgitdirs"), leaf("ab")),
        (String::from("add"), leaf("ad")),
        (String::from("deinit"), leaf("d")),
        (String::from("foreach"), leaf("f")),
        (String::from("init"), leaf("i")),
        (String::from("set-branch"), leaf("seb")),
        (String::from("set-url"), leaf("seu")),
        (String::from("status"), leaf("st")),
        (String::from("summary"), leaf("su")),
        (String::from("sync"), leaf("sy")),
        (
            String::from("update"),
            Cmd {
                short: String::from("u"),
                flags: vec![(String::from("--init"), flag("i", true))],
                no_args: false,
                subs: Cmds(Vec::new()),
            },
        ),
    ];
    let git_subs: Vec<(String, Cmd)> = vec![
        (
            String::from("commit"),
            Cmd {
                short: String::from("cm"),
                flags: vec![(String::from("--message"), flag("m", true))],
                no_args: false,
                subs: Cmds(Vec::new()),
            },
        ),
        (
            String::from("rebase"),
            Cmd {
                short: String::from("rb"),
                flags: vec![
                    (String::from("--abort"), flag("a", true)),
                    (String::from("--continue"), flag("c", true)),
                    (String::from("--interactive"), flag("i", true)),
                ],
                no_args: false,
                subs: Cmds(Vec::new()),
            },
        ),
        (
            String::from("submodule"),
            Cmd {
                short: String::from("su"),
                flags: Vec::new(),
                no_args: false,
                subs: Cmds(submodule_subs),
            },
        ),
    ];
    Cmds(vec![(
        String::from("git"),
        Cmd { short: String::from("g"), flags: Vec::new(), no_args: false, subs: Cmds(git_subs) },
    )])
}

fn sorted_pairs(m: &zbr::strmap::StringMap) -> Vec<(String, String)> {
    let mut v: Vec<(String, String)> = Vec::new();
    let mut i = 0;
    while i < m.len() {
        let e = m.entry_at(i);
        v.push((e.0.clone(), e.1.clone()));
        i += 1;
    }
    v.sort();
    v
}

#[test]
fn test_compile() {
    let cmds = Cmds(Vec::new());
    let r = compile(&cmds, "", false);
    assert_eq!(r.len(), 0);

    let cmds = Cmds(vec![(
        String::from("git"),
        Cmd {
            short: String::from("g"),
            flags: Vec::new(),
            no_args: false,
            subs: Cmds(vec![(String::from("submodule"), leaf("su"))]),
        },
    )]);
    let r = compile(&cmds, "g", false);
    assert_eq!(
        sorted_pairs(&r),
        vec![
            (String::from("g"), String::from("git ")),
            (String::from("gsu"), String::from("git submodule ")),
        ]
    );
}

// Pruned compilation binds a subset of the keys exhaustive compilation binds.
#[test]
fn test_compile_pruned_subset_of_all() {
    let cmds = git_tree();
    for buf in ["", "g", "gsu", "git submodule", "git rb", "grb"] {
        let pruned = compile(&cmds, buf, false);
        let all = compile(&cmds, buf, true);
        let mut i = 0;
        while i < pruned.len() {
            let e = pruned.entry_at(i);
            assert!(all.get(e.0.as_str()).is_some(), "missing key {}", e.0);
            i += 1;
        }
    }
}

// A compiled command expansion, used as the buffer in exhaustive mode, is
// bound under its own text less the trailing space.
#[test]
fn test_compile_reversible() {
    let cmds = git_tree();
    let first = compile(&cmds, "gsu", false);
    let v = first.get("gsu").unwrap().clone();
    assert_eq!(v, "git submodule ");
    let again = compile(&cmds, v.as_str(), true);
    assert_eq!(*again.get("git submodule").unwrap(), v);
}

// In exhaustive mode the long form of every command is bound to itself.
#[test]
fn test_compile_all_binds_long_forms() {
    let cmds = git_tree();
    let r = compile(&cmds, "", true);
    assert_eq!(*r.get("git").unwrap(), "git ");
    assert_eq!(*r.get("git rebase").unwrap(), "git rebase ");
    assert_eq!(*r.get("git submodule update").unwrap(), "git submodule update ");
}

#[test]
fn test_compile_with_prefixes_adds_hint_keys() {
    let cmds = git_tree();
    let r = compile_with_prefixes(&cmds, "git submo", false);
    assert_eq!(*r.get("git submo").unwrap(), "git submodule ");
    assert_eq!(*r.get("git submod").unwrap(), "git submodule ");
}
