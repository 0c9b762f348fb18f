use zbr::expand::ConfigFile;
use zbr::extract::{Cmd, Cmds, Flag};
use zbr::hint::hint;

fn leaf(short: &str) -> Cmd {
    Cmd { short: String::from(short), flags: Vec::new(), no_args: false, subs: Cmds(Vec::new()) }
}

fn flag(short: &str, squish: bool) -> Flag {
    Flag { short: String::from(short), squish }
}

fn conf() -> ConfigFile {
    let submodule_subs: Vec<(String, Cmd)> = vec![
        (String::from("absorbgitdirs"), leaf("ab")),
        (String::from("add"), leaf("ad")),
        (String::from("deinit"), leaf("d")),
        (String::from("foreach"), leaf("f")),
        (String::from("init"), leaf("i")),
        (String::from("set-branch"), leaf("seb")),
        (String::from("set-url"), leaf("seu")),
        (String::from("status"), leaf("st")),
        (String::from("summary"), leaf("su")),
        (String::from("sync"), leaf("sy")),
        (
            String::from("update"),
            Cmd {
                short: String::from("u"),
                flags: vec![(String::from("--init"), flag("i", true))],
                no_args: false,
                subs: Cmds(Vec::new()),
            },
        ),
    ];
    let git_subs: Vec<(String, Cmd)> = vec![
        (
            String::from("commit"),
            Cmd {
                short: String::from("cm"),
                flags: vec![(String::from("--message"), flag("m", true))],
                no_args: false,
                subs: Cmds(Vec::new()),
            },
        ),
        (
            String::from("rebase"),
            Cmd {
                short: String::from("rb"),
                flags: vec![
                    (String::from("--abort"), flag("a", true)),
                    (String::from("--continue"), flag("c", true)),
                    (String::from("--interactive"), flag("i", true)),
                ],
                no_args: false,
                subs: Cmds(Vec::new()),
            },
        ),
        (
            String::from("submodule"),
            Cmd {
                short: String::from("su"),
                flags: Vec::new(),
                no_args: false,
                subs: Cmds(submodule_subs),
            },
        ),
    ];
    ConfigFile {
        cmds: Cmds(vec![(
            String::from("git"),
            Cmd {
                short: String::from("g"),
                flags: Vec::new(),
                no_args: false,
                subs: Cmds(git_subs),
            },
        )]),
    }
}

fn pairs(v: &[(&str, &str)]) -> Vec<(String, String)> {
    v.iter().map(|(k, w)| (String::from(*k), String::from(*w))).collect()
}

#[test]
fn test_hint_grb() {
    let hints = hint(&conf(), String::from("grb"), usize::MAX);
    assert_eq!(
        hints,
        pairs(&[
            ("grb", "git rebase "),
            ("grba", "git rebase --abort "),
            ("grbc", "git rebase --continue "),
            ("grbi", "git rebase --interactive "),
        ])
    );

    let hints = hint(&conf(), String::from("git rb"), usize::MAX);
    assert_eq!(
        hints,
        pairs(&[
            ("git rb", "git rebase "),
            ("git rba", "git rebase --abort "),
            ("git rbc", "git rebase --continue "),
            ("git rbi", "git rebase --interactive "),
        ])
    );
}

#[test]
fn test_hint_gsu() {
    let hints = hint(&conf(), String::from("gsu"), usize::MAX);
    assert_eq!(
        hints,
        pairs(&[
            ("gsu", "git submodule "),
            ("gsuab", "git submodule absorbgitdirs "),
            ("gsuad", "git submodule add "),
            ("gsud", "git submodule deinit "),
            ("gsuf", "git submodule foreach "),
            ("gsui", "git submodule init "),
            ("gsuseb", "git submodule set-branch "),
            ("gsuseu", "git submodule set-url "),
            ("gsust", "git submodule status "),
            ("gsusu", "git submodule summary "),
            ("gsusy", "git submodule sync "),
            ("gsuu", "git submodule update "),
        ])
    );
}

#[test]
fn test_hint_git_submodule() {
    let hints = hint(&conf(), String::from("git submodule"), usize::MAX);
    assert_eq!(
        hints,
        pairs(&[
            ("git submodule ab", "git submodule absorbgitdirs "),
            ("git submodule ad", "git submodule add "),
            ("git submodule d", "git submodule deinit "),
            ("git submodule f", "git submodule foreach "),
            ("git submodule i", "git submodule init "),
            ("git submodule seb", "git submodule set-branch "),
            ("git submodule seu", "git submodule set-url "),
            ("git submodule st", "git submodule status "),
            ("git submodule su", "git submodule summary "),
            ("git submodule sy", "git submodule sync "),
            ("git submodule u", "git submodule update "),
            ("git submodule ui", "git submodule update --init "),
            ("git submodule update -i", "git submodule update --init "),
        ])
    );
}

#[test]
fn test_hint_git_submo() {
    let hints = hint(&conf(), String::from("git submo"), 5);
    assert_eq!(
        hints,
        pairs(&[
            ("git submo", "git submodule "),
            ("git submod", "git submodule "),
        ])
    );
}

#[test]
fn test_hint_git_commit_m() {
    let hints = hint(&conf(), String::from("git commit -m"), usize::MAX);
    assert_eq!(hints, pairs(&[("git commit -m", "git commit --message ")]));
}

#[test]
fn test_hint_respects_max() {
    let hints = hint(&conf(), String::from("gsu"), 3);
    assert_eq!(
        hints,
        pairs(&[
            ("gsu", "git submodule "),
            ("gsuab", "git submodule absorbgitdirs "),
            ("gsuad", "git submodule add "),
        ])
    );
}

#[test]
fn test_hint_compound_buffer() {
    let hints = hint(&conf(), String::from("echo foo && grb"), usize::MAX);
    assert_eq!(hints.len(), 4);
}
