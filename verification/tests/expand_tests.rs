use zbr::buildsys::System;
use zbr::expand::{clean_buf, expand, ConfigFile};
use zbr::extract::{Cmd, Cmds, Flag};

fn leaf(short: &str) -> Cmd {
    Cmd { short: String::from(short), flags: Vec::new(), no_args: false, subs: Cmds(Vec::new()) }
}

fn flag(short: &str, squish: bool) -> Flag {
    Flag { short: String::from(short), squish }
}

fn conf() -> ConfigFile {
    let submodule_subs: Vec<(String, Cmd)> = vec![
        (String::from("absorbgitdirs"), leaf("ab")),
        (String::from("add"), leaf("ad")),
        (String::from("deinit"), leaf("d")),
        (String::from("foreach"), leaf("f")),
        (String::from("init"), leaf("i")),
        (String::from("set-branch"), leaf("seb")),
        (String::from("set-url"), leaf("seu")),
        (String::from("status"), leaf("st")),
        (String::from("summary"), leaf("su")),
        (String::from("sync"), leaf("sy")),
        (
            String::from("update"),
            Cmd {
                short: String::from("u"),
                flags: vec![(String::from("--init"), flag("i", true))],
                no_args: false,
                subs: Cmds(Vec::new()),
            },
        ),
    ];
    let git_subs: Vec<(String, Cmd)> = vec![
        (
            String::from("commit"),
            Cmd {
                short: String::from("cm"),
                flags: vec![(String::from("--message"), flag("m", true))],
                no_args: false,
                subs: Cmds(Vec::new()),
            },
        ),
        (
            String::from("rebase"),
            Cmd {
                short: String::from("rb"),
                flags: vec![
                    (String::from("--abort"), flag("a", true)),
                    (String::from("--continue"), flag("c", true)),
                    (String::from("--interactive"), flag("i", true)),
                ],
                no_args: false,
                subs: Cmds(Vec::new()),
            },
        ),
        (
            String::from("submodule"),
            Cmd {
                short: String::from("su"),
                flags: Vec::new(),
                no_args: false,
                subs: Cmds(submodule_subs),
            },
        ),
    ];
    ConfigFile {
        cmds: Cmds(vec![(
            String::from("git"),
            Cmd {
                short: String::from("g"),
                flags: Vec::new(),
                no_args: false,
                subs: Cmds(git_subs),
            },
        )]),
    }
}

fn test_expand(l: &str, r: &str) {
    assert_eq!(
        expand(&conf(), String::from(l), String::new(), None).as_deref(),
        Some(r)
    );
}

#[test]
fn test_expand_grba() {
    test_expand("grba", "git rebase --abort ");
}

#[test]
fn test_expand_gsu() {
    test_expand("gsu", "git submodule ");
}

#[test]
fn test_expand_gsuui() {
    // TODO
    // test_expand("gsuui", "git submodule update --init");
}

#[test]
fn test_expand_git_commit_m() {
    test_expand("git commit -m", "git commit --message ");
}

// TODO: Squished flags before subcommands
#[test]
fn test_expand_sysus() {
    // test_expand("sysus", "systemctl --user status");
}

#[test]
fn test_expand_keeps_compound_prefix() {
    assert_eq!(
        expand(&conf(), String::from("echo hi && gsu"), String::new(), None).as_deref(),
        Some("echo hi && git submodule ")
    );
}

#[test]
fn test_expand_right_buffer_blocks() {
    assert_eq!(expand(&conf(), String::from("gsu"), String::from("x"), None), None);
}

#[test]
fn test_expand_unknown_buffer() {
    assert_eq!(expand(&conf(), String::from("zz"), String::new(), None), None);
}

#[test]
fn test_expand_build_fallbacks() {
    assert_eq!(
        expand(&conf(), String::from("b"), String::new(), Some(System::Cargo)).as_deref(),
        Some("cargo build ")
    );
    assert_eq!(
        expand(&conf(), String::from("t"), String::new(), Some(System::Make)).as_deref(),
        Some("make test ")
    );
    assert_eq!(
        expand(&conf(), String::from("r"), String::new(), Some(System::Make)),
        None
    );
    assert_eq!(
        expand(&conf(), String::from("b"), String::new(), None),
        None
    );
}

#[test]
fn test_clean_buf_splits_compound() {
    let (pre, buf) = clean_buf(String::from("echo a && git stat"));
    assert_eq!(pre, "echo a && ");
    assert_eq!(buf, "git stat");
}

#[test]
fn test_clean_buf_no_separator() {
    let (pre, buf) = clean_buf(String::from("git stat"));
    assert_eq!(pre, "");
    assert_eq!(buf, "git stat");
}

#[test]
fn test_clean_buf_takes_last_occurrence() {
    let (pre, buf) = clean_buf(String::from("a && b && c"));
    assert_eq!(pre, "a && b && ");
    assert_eq!(buf, "c");
}

#[test]
fn test_clean_buf_round_trip() {
    for s in ["x; y", "a || b", "plain", "a && b && c"] {
        let (pre, buf) = clean_buf(String::from(s));
        assert_eq!(format!("{pre}{buf}"), s);
    }
}
