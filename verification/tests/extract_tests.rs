use zbr::extract::{extract_text, ConfigFile, Flag};

fn scraping_conf() -> ConfigFile {
    let mut c = ConfigFile::default();
    c.extract_flags = true;
    c.extract_subs = true;
    c
}

/// Flags as `short -> long` lines (the leading dashes dropped) and
/// subcommands as `short -> long` lines, both sorted.
fn rendered(conf: &ConfigFile, text: &str) -> (String, String) {
    let (flags, subs) = extract_text(conf, text);
    let mut fl: Vec<(String, String)> = flags
        .into_iter()
        .map(|(k, f): (String, Flag)| (f.short, String::from(&k[2..])))
        .collect();
    fl.sort();
    let mut sb: Vec<(String, String)> = subs.0.into_iter().map(|(l, c)| (c.short, l)).collect();
    sb.sort();
    (serialize(&fl), serialize(&sb))
}

fn serialize(v: &[(String, String)]) -> String {
    let mut s = String::new();
    for (k, w) in v {
        s.push_str(k);
        s.push_str(" -> ");
        s.push_str(w);
        s.push('\n');
    }
    s
}

const GLAB_HELP: &str = r#"
GLab is an open source GitLab CLI tool bringing GitLab to your command line

USAGE
  glab <command> <subcommand> [flags]

CORE COMMANDS
  alias:       Create, list and delete aliases
  api:         Make an authenticated request to GitLab API
  auth:        Manage glab's authentication state
  check-update: Check for latest glab releases
  ci:          Work with GitLab CI pipelines and jobs
  completion:  Generate shell completion scripts
  config:      Set and get glab settings
  help:        Help about any command
  issue:       Work with GitLab issues
  label:       Manage labels on remote
  mr:          Create, view and manage merge requests
  release:     Manage GitLab releases
  repo:        Work with GitLab repositories and projects
  ssh-key:     Manage SSH keys
  user:        Interact with user
  variable:    Manage GitLab Project and Group Variables
  version:     show glab version information

FLAGS
      --help      Show help for command
  -v, --version   show glab version information

ENVIRONMENT VARIABLES
  GITLAB_TOKEN: an authentication token for API requests. Setting this avoids being
  prompted to authenticate and overrides any previously stored credentials.
  Can be set in the config with 'glab config set token xxxxxx'
  
  GITLAB_HOST or GL_HOST: specify the url of the gitlab server if self hosted (eg: https://gitlab.example.com). Default is https://gitlab.com.
  
  REMOTE_ALIAS or GIT_REMOTE_URL_VAR: git remote variable or alias that contains the gitlab url.
  Can be set in the config with 'glab config set remote_alias origin'
  
  VISUAL, EDITOR (in order of precedence): the editor tool to use for authoring text.
  Can be set in the config with 'glab config set editor vim'
  
  BROWSER: the web browser to use for opening links.
  Can be set in the config with 'glab config set browser mybrowser'
  
  GLAMOUR_STYLE: environment variable to set your desired markdown renderer style
  Available options are (dark|light|notty) or set a custom style
  https://github.com/charmbracelet/glamour#styles
  
  NO_PROMPT: set to 1 (true) or 0 (false) to disable and enable prompts respectively
  
  NO_COLOR: set to any value to avoid printing ANSI escape sequences for color output.
  
  FORCE_HYPERLINKS: set to 1 to force hyperlinks to be output, even when not outputing to a TTY
  
  GLAB_CONFIG_DIR: set to a directory path to override the global configuration location 

LEARN MORE
  Use 'glab <command> <subcommand> --help' for more information about a command.

FEEDBACK
  Encountered a bug or want to suggest a feature?
  Open an issue using 'glab issue create -R profclems/glab'"#;

#[test]
fn extract_glab() {
    let conf = scraping_conf();
    let (flags, subs) = rendered(&conf, GLAB_HELP);
    assert_eq!(flags, r#"hp -> help
ve -> version
"#);
    assert_eq!(subs, r#"al -> alias
ap -> api
au -> auth
ch -> check-update
ci -> ci
cm -> completion
cn -> config
hp -> help
i -> issue
l -> label
m -> mr
rl -> release
rp -> repo
s -> ssh-key
u -> user
va -> variable
"#);
}

const GIT_SUBMODULE_HELP: &str = "GIT-SUBMODULE(1)                              Git Manual                             GIT-SUBMODULE(1)\n\nN\u{0008}NA\u{0008}AM\u{0008}ME\u{0008}E\n       git-submodule - Initialize, update or inspect submodules\n\nS\u{0008}SY\u{0008}YN\u{0008}NO\u{0008}OP\u{0008}PS\u{0008}SI\u{0008}IS\u{0008}S\n       _\u{0008}g_\u{0008}i_\u{0008}t _\u{0008}s_\u{0008}u_\u{0008}b_\u{0008}m_\u{0008}o_\u{0008}d_\u{0008}u_\u{0008}l_\u{0008}e [--quiet] [--cached]\n       _\u{0008}g_\u{0008}i_\u{0008}t _\u{0008}s_\u{0008}u_\u{0008}b_\u{0008}m_\u{0008}o_\u{0008}d_\u{0008}u_\u{0008}l_\u{0008}e [--quiet] add [<options>] [--] <repository> [<path>]\n       _\u{0008}g_\u{0008}i_\u{0008}t _\u{0008}s_\u{0008}u_\u{0008}b_\u{0008}m_\u{0008}o_\u{0008}d_\u{0008}u_\u{0008}l_\u{0008}e [--quiet] status [--cached] [--recursive] [--] [<path>...]\n       _\u{0008}g_\u{0008}i_\u{0008}t _\u{0008}s_\u{0008}u_\u{0008}b_\u{0008}m_\u{0008}o_\u{0008}d_\u{0008}u_\u{0008}l_\u{0008}e [--quiet] init [--] [<path>...]\n       _\u{0008}g_\u{0008}i_\u{0008}t _\u{0008}s_\u{0008}u_\u{0008}b_\u{0008}m_\u{0008}o_\u{0008}d_\u{0008}u_\u{0008}l_\u{0008}e [--quiet] deinit [-f|--force] (--all|[--] <path>...)\n       _\u{0008}g_\u{0008}i_\u{0008}t _\u{0008}s_\u{0008}u_\u{0008}b_\u{0008}m_\u{0008}o_\u{0008}d_\u{0008}u_\u{0008}l_\u{0008}e [--quiet] update [<options>] [--] [<path>...]\n       _\u{0008}g_\u{0008}i_\u{0008}t _\u{0008}s_\u{0008}u_\u{0008}b_\u{0008}m_\u{0008}o_\u{0008}d_\u{0008}u_\u{0008}l_\u{0008}e [--quiet] set-branch [<options>] [--] <path>\n       _\u{0008}g_\u{0008}i_\u{0008}t _\u{0008}s_\u{0008}u_\u{0008}b_\u{0008}m_\u{0008}o_\u{0008}d_\u{0008}u_\u{0008}l_\u{0008}e [--quiet] set-url [--] <path> <newurl>\n       _\u{0008}g_\u{0008}i_\u{0008}t _\u{0008}s_\u{0008}u_\u{0008}b_\u{0008}m_\u{0008}o_\u{0008}d_\u{0008}u_\u{0008}l_\u{0008}e [--quiet] summary [<options>] [--] [<path>...]\n       _\u{0008}g_\u{0008}i_\u{0008}t _\u{0008}s_\u{0008}u_\u{0008}b_\u{0008}m_\u{0008}o_\u{0008}d_\u{0008}u_\u{0008}l_\u{0008}e [--quiet] foreach [--recursive] <command>\n       _\u{0008}g_\u{0008}i_\u{0008}t _\u{0008}s_\u{0008}u_\u{0008}b_\u{0008}m_\u{0008}o_\u{0008}d_\u{0008}u_\u{0008}l_\u{0008}e [--quiet] sync [--recursive] [--] [<path>...]\n       _\u{0008}g_\u{0008}i_\u{0008}t _\u{0008}s_\u{0008}u_\u{0008}b_\u{0008}m_\u{0008}o_\u{0008}d_\u{0008}u_\u{0008}l_\u{0008}e [--quiet] absorbgitdirs [--] [<path>...]\n\nD\u{0008}DE\u{0008}ES\u{0008}SC\u{0008}CR\u{0008}RI\u{0008}IP\u{0008}PT\u{0008}TI\u{0008}IO\u{0008}ON\u{0008}N\n       Inspects, updates and manages submodules.\n\n       For more information about submodules, see g\u{0008}gi\u{0008}it\u{0008}ts\u{0008}su\u{0008}ub\u{0008}bm\u{0008}mo\u{0008}od\u{0008}du\u{0008}ul\u{0008}le\u{0008}es\u{0008}s(7).\n\nC\u{0008}CO\u{0008}OM\u{0008}MM\u{0008}MA\u{0008}AN\u{0008}ND\u{0008}DS\u{0008}S\n       With no arguments, shows the status of existing submodules. Several subcommands are available\n       to perform operations on the submodules.\n\n       add [-b <branch>] [-f|--force] [--name <name>] [--reference <repository>] [--depth <depth>]\n       [--] <repository> [<path>]\n           Add the given repository as a submodule at the given path to the changeset to be committed\n           next to the current project: the current project is termed the \"superproject\".\n\n           <repository> is the URL of the new submodule’s origin repository. This may be either an\n           absolute URL, or (if it begins with ./ or ../), the location relative to the\n           superproject’s default remote repository (Please note that to specify a repository _\u{0008}f_\u{0008}o_\u{0008}o_\u{0008}._\u{0008}g_\u{0008}i_\u{0008}t\n           which is located right next to a superproject _\u{0008}b_\u{0008}a_\u{0008}r_\u{0008}._\u{0008}g_\u{0008}i_\u{0008}t, you’ll have to use .\u{0008}..\u{0008}./\u{0008}/f\u{0008}fo\u{0008}oo\u{0008}o.\u{0008}.g\u{0008}gi\u{0008}it\u{0008}t\n           instead of .\u{0008}./\u{0008}/f\u{0008}fo\u{0008}oo\u{0008}o.\u{0008}.g\u{0008}gi\u{0008}it\u{0008}t - as one might expect when following the rules for relative URLs -\n           because the evaluation of relative URLs in Git is identical to that of relative\n           directories).\n\n           The default remote is the remote of the remote-tracking branch of the current branch. If\n           no such remote-tracking branch exists or the HEAD is detached, \"origin\" is assumed to be\n           the default remote. If the superproject doesn’t have a default remote configured the\n           superproject is its own authoritative upstream and the current working directory is used\n           instead.\n\n           The optional argument <path> is the relative location for the cloned submodule to exist in\n           the superproject. If <path> is not given, the canonical part of the source repository is\n           used (\"repo\" for \"/path/to/repo.git\" and \"foo\" for \"host.xz:foo/.git\"). If <path> exists\n           and is already a valid Git repository, then it is staged for commit without cloning. The\n           <path> is also used as the submodule’s logical name in its configuration entries unless\n           -\u{0008}--\u{0008}-n\u{0008}na\u{0008}am\u{0008}me\u{0008}e is used to specify a logical name.\n\n           The given URL is recorded into .\u{0008}.g\u{0008}gi\u{0008}it\u{0008}tm\u{0008}mo\u{0008}od\u{0008}du\u{0008}ul\u{0008}le\u{0008}es\u{0008}s for use by subsequent users cloning the\n           superproject. If the URL is given relative to the superproject’s repository, the\n           presumption is the superproject and submodule repositories will be kept together in the\n           same relative location, and only the superproject’s URL needs to be provided.\n           git-submodule will correctly locate the submodule using the relative URL in .\u{0008}.g\u{0008}gi\u{0008}it\u{0008}tm\u{0008}mo\u{0008}od\u{0008}du\u{0008}ul\u{0008}le\u{0008}es\u{0008}s.\n\n       status [--cached] [--recursive] [--] [<path>...]\n           Show the status of the submodules. This will print the SHA-1 of the currently checked out\n           commit for each submodule, along with the submodule path and the output of _\u{0008}g_\u{0008}i_\u{0008}t _\u{0008}d_\u{0008}e_\u{0008}s_\u{0008}c_\u{0008}r_\u{0008}i_\u{0008}b_\u{0008}e\n           for the SHA-1. Each SHA-1 will possibly be prefixed with -\u{0008}- if the submodule is not\n           initialized, +\u{0008}+ if the currently checked out submodule commit does not match the SHA-1\n           found in the index of the containing repository and U\u{0008}U if the submodule has merge\n           conflicts.\n\n           If -\u{0008}--\u{0008}-c\u{0008}ca\u{0008}ac\u{0008}ch\u{0008}he\u{0008}ed\u{0008}d is specified, this command will instead print the SHA-1 recorded in the\n           superproject for each submodule.\n\n           If -\u{0008}--\u{0008}-r\u{0008}re\u{0008}ec\u{0008}cu\u{0008}ur\u{0008}rs\u{0008}si\u{0008}iv\u{0008}ve\u{0008}e is specified, this command will recurse into nested submodules, and show\n           their status as well.\n\n           If you are only interested in changes of the currently initialized submodules with respect\n           to the commit recorded in the index or the HEAD, g\u{0008}gi\u{0008}it\u{0008}t-\u{0008}-s\u{0008}st\u{0008}ta\u{0008}at\u{0008}tu\u{0008}us\u{0008}s(1) and g\u{0008}gi\u{0008}it\u{0008}t-\u{0008}-d\u{0008}di\u{0008}if\u{0008}ff\u{0008}f(1) will\n           provide that information too (and can also report changes to a submodule’s work tree).\n\n       init [--] [<path>...]\n           Initialize the submodules recorded in the index (which were added and committed elsewhere)\n           by setting s\u{0008}su\u{0008}ub\u{0008}bm\u{0008}mo\u{0008}od\u{0008}du\u{0008}ul\u{0008}le\u{0008}e.\u{0008}.$\u{0008}$n\u{0008}na\u{0008}am\u{0008}me\u{0008}e.\u{0008}.u\u{0008}ur\u{0008}rl\u{0008}l in .git/config. It uses the same setting from .\u{0008}.g\u{0008}gi\u{0008}it\u{0008}tm\u{0008}mo\u{0008}od\u{0008}du\u{0008}ul\u{0008}le\u{0008}es\u{0008}s\n           as a template. If the URL is relative, it will be resolved using the default remote. If\n           there is no default remote, the current repository will be assumed to be upstream.\n\n           Optional <path> arguments limit which submodules will be initialized. If no path is\n           specified and submodule.active has been configured, submodules configured to be active\n           will be initialized, otherwise all submodules are initialized.\n\n           When present, it will also copy the value of s\u{0008}su\u{0008}ub\u{0008}bm\u{0008}mo\u{0008}od\u{0008}du\u{0008}ul\u{0008}le\u{0008}e.\u{0008}.$\u{0008}$n\u{0008}na\u{0008}am\u{0008}me\u{0008}e.\u{0008}.u\u{0008}up\u{0008}pd\u{0008}da\u{0008}at\u{0008}te\u{0008}e. This command does not\n           alter existing information in .git/config. You can then customize the submodule clone URLs\n           in .git/config for your local setup and proceed to g\u{0008}gi\u{0008}it\u{0008}t s\u{0008}su\u{0008}ub\u{0008}bm\u{0008}mo\u{0008}od\u{0008}du\u{0008}ul\u{0008}le\u{0008}e u\u{0008}up\u{0008}pd\u{0008}da\u{0008}at\u{0008}te\u{0008}e; you can also just\n           use g\u{0008}gi\u{0008}it\u{0008}t s\u{0008}su\u{0008}ub\u{0008}bm\u{0008}mo\u{0008}od\u{0008}du\u{0008}ul\u{0008}le\u{0008}e u\u{0008}up\u{0008}pd\u{0008}da\u{0008}at\u{0008}te\u{0008}e -\u{0008}--\u{0008}-i\u{0008}in\u{0008}ni\u{0008}it\u{0008}t without the explicit _\u{0008}i_\u{0008}n_\u{0008}i_\u{0008}t step if you do not intend to\n           customize any submodule locations.\n\n           See the add subcommand for the definition of default remote.\n\n       deinit [-f|--force] (--all|[--] <path>...)\n           Unregister the given submodules, i.e. remove the whole s\u{0008}su\u{0008}ub\u{0008}bm\u{0008}mo\u{0008}od\u{0008}du\u{0008}ul\u{0008}le\u{0008}e.\u{0008}.$\u{0008}$n\u{0008}na\u{0008}am\u{0008}me\u{0008}e section from\n           .git/config together with their work tree. Further calls to g\u{0008}gi\u{0008}it\u{0008}t s\u{0008}su\u{0008}ub\u{0008}bm\u{0008}mo\u{0008}od\u{0008}du\u{0008}ul\u{0008}le\u{0008}e u\u{0008}up\u{0008}pd\u{0008}da\u{0008}at\u{0008}te\u{0008}e, g\u{0008}gi\u{0008}it\u{0008}t\n           s\u{0008}su\u{0008}ub\u{0008}bm\u{0008}mo\u{0008}od\u{0008}du\u{0008}ul\u{0008}le\u{0008}e f\u{0008}fo\u{0008}or\u{0008}re\u{0008}ea\u{0008}ac\u{0008}ch\u{0008}h and g\u{0008}gi\u{0008}it\u{0008}t s\u{0008}su\u{0008}ub\u{0008}bm\u{0008}mo\u{0008}od\u{0008}du\u{0008}ul\u{0008}le\u{0008}e s\u{0008}sy\u{0008}yn\u{0008}nc\u{0008}c will skip any unregistered submodules until they\n           are initialized again, so use this command if you don’t want to have a local checkout of\n           the submodule in your working tree anymore.\n\n           When the command is run without pathspec, it errors out, instead of deinit-ing everything,\n           to prevent mistakes.\n\n           If -\u{0008}--\u{0008}-f\u{0008}fo\u{0008}or\u{0008}rc\u{0008}ce\u{0008}e is specified, the submodule’s working tree will be removed even if it contains\n           local modifications.\n\n           If you really want to remove a submodule from the repository and commit that use g\u{0008}gi\u{0008}it\u{0008}t-\u{0008}-r\u{0008}rm\u{0008}m(1)\n           instead. See g\u{0008}gi\u{0008}it\u{0008}ts\u{0008}su\u{0008}ub\u{0008}bm\u{0008}mo\u{0008}od\u{0008}du\u{0008}ul\u{0008}le\u{0008}es\u{0008}s(7) for removal options.\n\n       update [--init] [--remote] [-N|--no-fetch] [--[no-]recommend-shallow] [-f|--force]\n       [--checkout|--rebase|--merge] [--reference <repository>] [--depth <depth>] [--recursive]\n       [--jobs <n>] [--[no-]single-branch] [--filter <filter spec>] [--] [<path>...]\n           Update the registered submodules to match what the superproject expects by cloning missing\n           submodules, fetching missing commits in submodules and updating the working tree of the\n           submodules. The \"updating\" can be done in several ways depending on command line options\n           and the value of s\u{0008}su\u{0008}ub\u{0008}bm\u{0008}mo\u{0008}od\u{0008}du\u{0008}ul\u{0008}le\u{0008}e.\u{0008}.<\u{0008}<n\u{0008}na\u{0008}am\u{0008}me\u{0008}e>\u{0008}>.\u{0008}.u\u{0008}up\u{0008}pd\u{0008}da\u{0008}at\u{0008}te\u{0008}e configuration variable. The command line option\n           takes precedence over the configuration variable. If neither is given, a _\u{0008}c_\u{0008}h_\u{0008}e_\u{0008}c_\u{0008}k_\u{0008}o_\u{0008}u_\u{0008}t is\n           performed. The _\u{0008}u_\u{0008}p_\u{0008}d_\u{0008}a_\u{0008}t_\u{0008}e procedures supported both from the command line as well as through\n           the s\u{0008}su\u{0008}ub\u{0008}bm\u{0008}mo\u{0008}od\u{0008}du\u{0008}ul\u{0008}le\u{0008}e.\u{0008}.<\u{0008}<n\u{0008}na\u{0008}am\u{0008}me\u{0008}e>\u{0008}>.\u{0008}.u\u{0008}up\u{0008}pd\u{0008}da\u{0008}at\u{0008}te\u{0008}e configuration are:\n\n           checkout\n               the commit recorded in the superproject will be checked out in the submodule on a\n               detached HEAD.\n\n               If -\u{0008}--\u{0008}-f\u{0008}fo\u{0008}or\u{0008}rc\u{0008}ce\u{0008}e is specified, the submodule will be checked out (using g\u{0008}gi\u{0008}it\u{0008}t c\u{0008}ch\u{0008}he\u{0008}ec\u{0008}ck\u{0008}ko\u{0008}ou\u{0008}ut\u{0008}t\n               -\u{0008}--\u{0008}-f\u{0008}fo\u{0008}or\u{0008}rc\u{0008}ce\u{0008}e), even if the commit specified in the index of the containing repository\n               already matches the commit checked out in the submodule.\n\n           rebase\n               the current branch of the submodule will be rebased onto the commit recorded in the\n               superproject.\n\n           merge\n               the commit recorded in the superproject will be merged into the current branch in the\n               submodule.\n\n           The following _\u{0008}u_\u{0008}p_\u{0008}d_\u{0008}a_\u{0008}t_\u{0008}e procedures are only available via the s\u{0008}su\u{0008}ub\u{0008}bm\u{0008}mo\u{0008}od\u{0008}du\u{0008}ul\u{0008}le\u{0008}e.\u{0008}.<\u{0008}<n\u{0008}na\u{0008}am\u{0008}me\u{0008}e>\u{0008}>.\u{0008}.u\u{0008}up\u{0008}pd\u{0008}da\u{0008}at\u{0008}te\u{0008}e\n           configuration variable:\n\n           custom command\n               arbitrary shell command that takes a single argument (the sha1 of the commit recorded\n               in the superproject) is executed. When s\u{0008}su\u{0008}ub\u{0008}bm\u{0008}mo\u{0008}od\u{0008}du\u{0008}ul\u{0008}le\u{0008}e.\u{0008}.<\u{0008}<n\u{0008}na\u{0008}am\u{0008}me\u{0008}e>\u{0008}>.\u{0008}.u\u{0008}up\u{0008}pd\u{0008}da\u{0008}at\u{0008}te\u{0008}e is set to _\u{0008}!_\u{0008}c_\u{0008}o_\u{0008}m_\u{0008}m_\u{0008}a_\u{0008}n_\u{0008}d, the\n               remainder after the exclamation mark is the custom command.\n\n           none\n               the submodule is not updated.\n\n           If the submodule is not yet initialized, and you just want to use the setting as stored in\n           .\u{0008}.g\u{0008}gi\u{0008}it\u{0008}tm\u{0008}mo\u{0008}od\u{0008}du\u{0008}ul\u{0008}le\u{0008}es\u{0008}s, you can automatically initialize the submodule with the -\u{0008}--\u{0008}-i\u{0008}in\u{0008}ni\u{0008}it\u{0008}t option.\n\n           If -\u{0008}--\u{0008}-r\u{0008}re\u{0008}ec\u{0008}cu\u{0008}ur\u{0008}rs\u{0008}si\u{0008}iv\u{0008}ve\u{0008}e is specified, this command will recurse into the registered submodules, and\n           update any nested submodules within.\n\n           If -\u{0008}--\u{0008}-f\u{0008}fi\u{0008}il\u{0008}lt\u{0008}te\u{0008}er\u{0008}r <\u{0008}<f\u{0008}fi\u{0008}il\u{0008}lt\u{0008}te\u{0008}er\u{0008}r s\u{0008}sp\u{0008}pe\u{0008}ec\u{0008}c>\u{0008}> is specified, the given partial clone filter will be applied to\n           the submodule. See g\u{0008}gi\u{0008}it\u{0008}t-\u{0008}-r\u{0008}re\u{0008}ev\u{0008}v-\u{0008}-l\u{0008}li\u{0008}is\u{0008}st\u{0008}t(1) for details on filter specifications.\n\n       set-branch (-b|--branch) <branch> [--] <path>, set-branch (-d|--default) [--] <path>\n           Sets the default remote tracking branch for the submodule. The -\u{0008}--\u{0008}-b\u{0008}br\u{0008}ra\u{0008}an\u{0008}nc\u{0008}ch\u{0008}h option allows the\n           remote branch to be specified. The -\u{0008}--\u{0008}-d\u{0008}de\u{0008}ef\u{0008}fa\u{0008}au\u{0008}ul\u{0008}lt\u{0008}t option removes the submodule.<name>.branch\n           configuration key, which causes the tracking branch to default to the remote _\u{0008}H_\u{0008}E_\u{0008}A_\u{0008}D.\n\n       set-url [--] <path> <newurl>\n           Sets the URL of the specified submodule to <newurl>. Then, it will automatically\n           synchronize the submodule’s new remote URL configuration.\n\n       summary [--cached|--files] [(-n|--summary-limit) <n>] [commit] [--] [<path>...]\n           Show commit summary between the given commit (defaults to HEAD) and working tree/index.\n           For a submodule in question, a series of commits in the submodule between the given super\n           project commit and the index or working tree (switched by -\u{0008}--\u{0008}-c\u{0008}ca\u{0008}ac\u{0008}ch\u{0008}he\u{0008}ed\u{0008}d) are shown. If the\n           option -\u{0008}--\u{0008}-f\u{0008}fi\u{0008}il\u{0008}le\u{0008}es\u{0008}s is given, show the series of commits in the submodule between the index of\n           the super project and the working tree of the submodule (this option doesn’t allow to use\n           the -\u{0008}--\u{0008}-c\u{0008}ca\u{0008}ac\u{0008}ch\u{0008}he\u{0008}ed\u{0008}d option or to provide an explicit commit).\n\n           Using the -\u{0008}--\u{0008}-s\u{0008}su\u{0008}ub\u{0008}bm\u{0008}mo\u{0008}od\u{0008}du\u{0008}ul\u{0008}le\u{0008}e=\u{0008}=l\u{0008}lo\u{0008}og\u{0008}g option with g\u{0008}gi\u{0008}it\u{0008}t-\u{0008}-d\u{0008}di\u{0008}if\u{0008}ff\u{0008}f(1) will provide that information too.\n\n       foreach [--recursive] <command>\n           Evaluates an arbitrary shell command in each checked out submodule. The command has access\n           to the variables $name, $sm_path, $displaypath, $sha1 and $toplevel: $name is the name of\n           the relevant submodule section in .\u{0008}.g\u{0008}gi\u{0008}it\u{0008}tm\u{0008}mo\u{0008}od\u{0008}du\u{0008}ul\u{0008}le\u{0008}es\u{0008}s, $sm_path is the path of the submodule as\n           recorded in the immediate superproject, $displaypath contains the relative path from the\n           current working directory to the submodules root directory, $sha1 is the commit as\n           recorded in the immediate superproject, and $toplevel is the absolute path to the\n           top-level of the immediate superproject. Note that to avoid conflicts with _\u{0008}$_\u{0008}P_\u{0008}A_\u{0008}T_\u{0008}H on\n           Windows, the _\u{0008}$_\u{0008}p_\u{0008}a_\u{0008}t_\u{0008}h variable is now a deprecated synonym of _\u{0008}$_\u{0008}s_\u{0008}m_\u{0008}__\u{0008}p_\u{0008}a_\u{0008}t_\u{0008}h variable. Any\n           submodules defined in the superproject but not checked out are ignored by this command.\n           Unless given -\u{0008}--\u{0008}-q\u{0008}qu\u{0008}ui\u{0008}ie\u{0008}et\u{0008}t, foreach prints the name of each submodule before evaluating the\n           command. If -\u{0008}--\u{0008}-r\u{0008}re\u{0008}ec\u{0008}cu\u{0008}ur\u{0008}rs\u{0008}si\u{0008}iv\u{0008}ve\u{0008}e is given, submodules are traversed recursively (i.e. the given\n           shell command is evaluated in nested submodules as well). A non-zero return from the\n           command in any submodule causes the processing to terminate. This can be overridden by\n           adding _\u{0008}|_\u{0008}| _\u{0008}: to the end of the command.\n\n           As an example, the command below will show the path and currently checked out commit for\n           each submodule:\n\n               git submodule foreach 'echo $sm_path `git rev-parse HEAD`'\n\n       sync [--recursive] [--] [<path>...]\n           Synchronizes submodules' remote URL configuration setting to the value specified in\n           .\u{0008}.g\u{0008}gi\u{0008}it\u{0008}tm\u{0008}mo\u{0008}od\u{0008}du\u{0008}ul\u{0008}le\u{0008}es\u{0008}s. It will only affect those submodules which already have a URL entry in\n           .git/config (that is the case when they are initialized or freshly added). This is useful\n           when submodule URLs change upstream and you need to update your local repositories\n           accordingly.\n\n           g\u{0008}gi\u{0008}it\u{0008}t s\u{0008}su\u{0008}ub\u{0008}bm\u{0008}mo\u{0008}od\u{0008}du\u{0008}ul\u{0008}le\u{0008}e s\u{0008}sy\u{0008}yn\u{0008}nc\u{0008}c synchronizes all submodules while g\u{0008}gi\u{0008}it\u{0008}t s\u{0008}su\u{0008}ub\u{0008}bm\u{0008}mo\u{0008}od\u{0008}du\u{0008}ul\u{0008}le\u{0008}e s\u{0008}sy\u{0008}yn\u{0008}nc\u{0008}c -\u{0008}--\u{0008}- A\u{0008}A synchronizes\n           submodule \"A\" only.\n\n           If -\u{0008}--\u{0008}-r\u{0008}re\u{0008}ec\u{0008}cu\u{0008}ur\u{0008}rs\u{0008}si\u{0008}iv\u{0008}ve\u{0008}e is specified, this command will recurse into the registered submodules, and\n           sync any nested submodules within.\n\n       absorbgitdirs\n           If a git directory of a submodule is inside the submodule, move the git directory of the\n           submodule into its superproject’s $\u{0008}$G\u{0008}GI\u{0008}IT\u{0008}T_\u{0008}_D\u{0008}DI\u{0008}IR\u{0008}R/\u{0008}/m\u{0008}mo\u{0008}od\u{0008}du\u{0008}ul\u{0008}le\u{0008}es\u{0008}s path and then connect the git directory\n           and its working directory by setting the c\u{0008}co\u{0008}or\u{0008}re\u{0008}e.\u{0008}.w\u{0008}wo\u{0008}or\u{0008}rk\u{0008}kt\u{0008}tr\u{0008}re\u{0008}ee\u{0008}e and adding a .git file pointing to\n           the git directory embedded in the superprojects git directory.\n\n           A repository that was cloned independently and later added as a submodule or old setups\n           have the submodules git directory inside the submodule instead of embedded into the\n           superprojects git directory.\n\n           This command is recursive by default.\n\nO\u{0008}OP\u{0008}PT\u{0008}TI\u{0008}IO\u{0008}ON\u{0008}NS\u{0008}S\n       -q, --quiet\n           Only print error messages.\n\n       --progress\n           This option is only valid for add and update commands. Progress status is reported on the\n           standard error stream by default when it is attached to a terminal, unless -q is\n           specified. This flag forces progress status even if the standard error stream is not\n           directed to a terminal.\n\n       --all\n           This option is only valid for the deinit command. Unregister all submodules in the working\n           tree.\n\n       -b <branch>, --branch <branch>\n           Branch of repository to add as submodule. The name of the branch is recorded as\n           s\u{0008}su\u{0008}ub\u{0008}bm\u{0008}mo\u{0008}od\u{0008}du\u{0008}ul\u{0008}le\u{0008}e.\u{0008}.<\u{0008}<n\u{0008}na\u{0008}am\u{0008}me\u{0008}e>\u{0008}>.\u{0008}.b\u{0008}br\u{0008}ra\u{0008}an\u{0008}nc\u{0008}ch\u{0008}h in .\u{0008}.g\u{0008}gi\u{0008}it\u{0008}tm\u{0008}mo\u{0008}od\u{0008}du\u{0008}ul\u{0008}le\u{0008}es\u{0008}s for u\u{0008}up\u{0008}pd\u{0008}da\u{0008}at\u{0008}te\u{0008}e -\u{0008}--\u{0008}-r\u{0008}re\u{0008}em\u{0008}mo\u{0008}ot\u{0008}te\u{0008}e. A special value of .\u{0008}.  is used\n           to indicate that the name of the branch in the submodule should be the same name as the\n           current branch in the current repository. If the option is not specified, it defaults to\n           the remote _\u{0008}H_\u{0008}E_\u{0008}A_\u{0008}D.\n\n       -f, --force\n           This option is only valid for add, deinit and update commands. When running add, allow\n           adding an otherwise ignored submodule path. When running deinit the submodule working\n           trees will be removed even if they contain local changes. When running update (only\n           effective with the checkout procedure), throw away local changes in submodules when\n           switching to a different commit; and always run a checkout operation in the submodule,\n           even if the commit listed in the index of the containing repository matches the commit\n           checked out in the submodule.\n\n       --cached\n           This option is only valid for status and summary commands. These commands typically use\n           the commit found in the submodule HEAD, but with this option, the commit stored in the\n           index is used instead.\n\n       --files\n           This option is only valid for the summary command. This command compares the commit in the\n           index with that in the submodule HEAD when this option is used.\n\n       -n, --summary-limit\n           This option is only valid for the summary command. Limit the summary size (number of\n           commits shown in total). Giving 0 will disable the summary; a negative number means\n           unlimited (the default). This limit only applies to modified submodules. The size is\n           always limited to 1 for added/deleted/typechanged submodules.\n\n       --remote\n           This option is only valid for the update command. Instead of using the superproject’s\n           recorded SHA-1 to update the submodule, use the status of the submodule’s remote-tracking\n           branch. The remote used is branch’s remote (b\u{0008}br\u{0008}ra\u{0008}an\u{0008}nc\u{0008}ch\u{0008}h.\u{0008}.<\u{0008}<n\u{0008}na\u{0008}am\u{0008}me\u{0008}e>\u{0008}>.\u{0008}.r\u{0008}re\u{0008}em\u{0008}mo\u{0008}ot\u{0008}te\u{0008}e), defaulting to o\u{0008}or\u{0008}ri\u{0008}ig\u{0008}gi\u{0008}in\u{0008}n.\n           The remote branch used defaults to the remote H\u{0008}HE\u{0008}EA\u{0008}AD\u{0008}D, but the branch name may be overridden\n           by setting the s\u{0008}su\u{0008}ub\u{0008}bm\u{0008}mo\u{0008}od\u{0008}du\u{0008}ul\u{0008}le\u{0008}e.\u{0008}.<\u{0008}<n\u{0008}na\u{0008}am\u{0008}me\u{0008}e>\u{0008}>.\u{0008}.b\u{0008}br\u{0008}ra\u{0008}an\u{0008}nc\u{0008}ch\u{0008}h option in either .\u{0008}.g\u{0008}gi\u{0008}it\u{0008}tm\u{0008}mo\u{0008}od\u{0008}du\u{0008}ul\u{0008}le\u{0008}es\u{0008}s or .\u{0008}.g\u{0008}gi\u{0008}it\u{0008}t/\u{0008}/c\u{0008}co\u{0008}on\u{0008}nf\u{0008}fi\u{0008}ig\u{0008}g (with\n           .\u{0008}.g\u{0008}gi\u{0008}it\u{0008}t/\u{0008}/c\u{0008}co\u{0008}on\u{0008}nf\u{0008}fi\u{0008}ig\u{0008}g taking precedence).\n\n           This works for any of the supported update procedures (-\u{0008}--\u{0008}-c\u{0008}ch\u{0008}he\u{0008}ec\u{0008}ck\u{0008}ko\u{0008}ou\u{0008}ut\u{0008}t, -\u{0008}--\u{0008}-r\u{0008}re\u{0008}eb\u{0008}ba\u{0008}as\u{0008}se\u{0008}e, etc.). The\n           only change is the source of the target SHA-1. For example, s\u{0008}su\u{0008}ub\u{0008}bm\u{0008}mo\u{0008}od\u{0008}du\u{0008}ul\u{0008}le\u{0008}e u\u{0008}up\u{0008}pd\u{0008}da\u{0008}at\u{0008}te\u{0008}e -\u{0008}--\u{0008}-r\u{0008}re\u{0008}em\u{0008}mo\u{0008}ot\u{0008}te\u{0008}e\n           -\u{0008}--\u{0008}-m\u{0008}me\u{0008}er\u{0008}rg\u{0008}ge\u{0008}e will merge upstream submodule changes into the submodules, while s\u{0008}su\u{0008}ub\u{0008}bm\u{0008}mo\u{0008}od\u{0008}du\u{0008}ul\u{0008}le\u{0008}e u\u{0008}up\u{0008}pd\u{0008}da\u{0008}at\u{0008}te\u{0008}e\n           -\u{0008}--\u{0008}-m\u{0008}me\u{0008}er\u{0008}rg\u{0008}ge\u{0008}e will merge superproject gitlink changes into the submodules.\n\n           In order to ensure a current tracking branch state, u\u{0008}up\u{0008}pd\u{0008}da\u{0008}at\u{0008}te\u{0008}e -\u{0008}--\u{0008}-r\u{0008}re\u{0008}em\u{0008}mo\u{0008}ot\u{0008}te\u{0008}e fetches the\n           submodule’s remote repository before calculating the SHA-1. If you don’t want to fetch,\n           you should use s\u{0008}su\u{0008}ub\u{0008}bm\u{0008}mo\u{0008}od\u{0008}du\u{0008}ul\u{0008}le\u{0008}e u\u{0008}up\u{0008}pd\u{0008}da\u{0008}at\u{0008}te\u{0008}e -\u{0008}--\u{0008}-r\u{0008}re\u{0008}em\u{0008}mo\u{0008}ot\u{0008}te\u{0008}e -\u{0008}--\u{0008}-n\u{0008}no\u{0008}o-\u{0008}-f\u{0008}fe\u{0008}et\u{0008}tc\u{0008}ch\u{0008}h.\n\n           Use this option to integrate changes from the upstream subproject with your submodule’s\n           current HEAD. Alternatively, you can run g\u{0008}gi\u{0008}it\u{0008}t p\u{0008}pu\u{0008}ul\u{0008}ll\u{0008}l from the submodule, which is equivalent\n           except for the remote branch name: u\u{0008}up\u{0008}pd\u{0008}da\u{0008}at\u{0008}te\u{0008}e -\u{0008}--\u{0008}-r\u{0008}re\u{0008}em\u{0008}mo\u{0008}ot\u{0008}te\u{0008}e uses the default upstream repository\n           and s\u{0008}su\u{0008}ub\u{0008}bm\u{0008}mo\u{0008}od\u{0008}du\u{0008}ul\u{0008}le\u{0008}e.\u{0008}.<\u{0008}<n\u{0008}na\u{0008}am\u{0008}me\u{0008}e>\u{0008}>.\u{0008}.b\u{0008}br\u{0008}ra\u{0008}an\u{0008}nc\u{0008}ch\u{0008}h, while g\u{0008}gi\u{0008}it\u{0008}t p\u{0008}pu\u{0008}ul\u{0008}ll\u{0008}l uses the submodule’s b\u{0008}br\u{0008}ra\u{0008}an\u{0008}nc\u{0008}ch\u{0008}h.\u{0008}.<\u{0008}<n\u{0008}na\u{0008}am\u{0008}me\u{0008}e>\u{0008}>.\u{0008}.m\u{0008}me\u{0008}er\u{0008}rg\u{0008}ge\u{0008}e.\n           Prefer s\u{0008}su\u{0008}ub\u{0008}bm\u{0008}mo\u{0008}od\u{0008}du\u{0008}ul\u{0008}le\u{0008}e.\u{0008}.<\u{0008}<n\u{0008}na\u{0008}am\u{0008}me\u{0008}e>\u{0008}>.\u{0008}.b\u{0008}br\u{0008}ra\u{0008}an\u{0008}nc\u{0008}ch\u{0008}h if you want to distribute the default upstream branch with\n           the superproject and b\u{0008}br\u{0008}ra\u{0008}an\u{0008}nc\u{0008}ch\u{0008}h.\u{0008}.<\u{0008}<n\u{0008}na\u{0008}am\u{0008}me\u{0008}e>\u{0008}>.\u{0008}.m\u{0008}me\u{0008}er\u{0008}rg\u{0008}ge\u{0008}e if you want a more native feel while working in\n           the submodule itself.\n\n       -N, --no-fetch\n           This option is only valid for the update command. Don’t fetch new objects from the remote\n           site.\n\n       --checkout\n           This option is only valid for the update command. Checkout the commit recorded in the\n           superproject on a detached HEAD in the submodule. This is the default behavior, the main\n           use of this option is to override s\u{0008}su\u{0008}ub\u{0008}bm\u{0008}mo\u{0008}od\u{0008}du\u{0008}ul\u{0008}le\u{0008}e.\u{0008}.$\u{0008}$n\u{0008}na\u{0008}am\u{0008}me\u{0008}e.\u{0008}.u\u{0008}up\u{0008}pd\u{0008}da\u{0008}at\u{0008}te\u{0008}e when set to a value other than\n           c\u{0008}ch\u{0008}he\u{0008}ec\u{0008}ck\u{0008}ko\u{0008}ou\u{0008}ut\u{0008}t. If the key s\u{0008}su\u{0008}ub\u{0008}bm\u{0008}mo\u{0008}od\u{0008}du\u{0008}ul\u{0008}le\u{0008}e.\u{0008}.$\u{0008}$n\u{0008}na\u{0008}am\u{0008}me\u{0008}e.\u{0008}.u\u{0008}up\u{0008}pd\u{0008}da\u{0008}at\u{0008}te\u{0008}e is either not explicitly set or set to\n           c\u{0008}ch\u{0008}he\u{0008}ec\u{0008}ck\u{0008}ko\u{0008}ou\u{0008}ut\u{0008}t, this option is implicit.\n\n       --merge\n           This option is only valid for the update command. Merge the commit recorded in the\n           superproject into the current branch of the submodule. If this option is given, the\n           submodule’s HEAD will not be detached. If a merge failure prevents this process, you will\n           have to resolve the resulting conflicts within the submodule with the usual conflict\n           resolution tools. If the key s\u{0008}su\u{0008}ub\u{0008}bm\u{0008}mo\u{0008}od\u{0008}du\u{0008}ul\u{0008}le\u{0008}e.\u{0008}.$\u{0008}$n\u{0008}na\u{0008}am\u{0008}me\u{0008}e.\u{0008}.u\u{0008}up\u{0008}pd\u{0008}da\u{0008}at\u{0008}te\u{0008}e is set to m\u{0008}me\u{0008}er\u{0008}rg\u{0008}ge\u{0008}e, this option is\n           implicit.\n\n       --rebase\n           This option is only valid for the update command. Rebase the current branch onto the\n           commit recorded in the superproject. If this option is given, the submodule’s HEAD will\n           not be detached. If a merge failure prevents this process, you will have to resolve these\n           failures with g\u{0008}gi\u{0008}it\u{0008}t-\u{0008}-r\u{0008}re\u{0008}eb\u{0008}ba\u{0008}as\u{0008}se\u{0008}e(1). If the key s\u{0008}su\u{0008}ub\u{0008}bm\u{0008}mo\u{0008}od\u{0008}du\u{0008}ul\u{0008}le\u{0008}e.\u{0008}.$\u{0008}$n\u{0008}na\u{0008}am\u{0008}me\u{0008}e.\u{0008}.u\u{0008}up\u{0008}pd\u{0008}da\u{0008}at\u{0008}te\u{0008}e is set to r\u{0008}re\u{0008}eb\u{0008}ba\u{0008}as\u{0008}se\u{0008}e, this\n           option is implicit.\n\n       --init\n           This option is only valid for the update command. Initialize all submodules for which \"git\n           submodule init\" has not been called so far before updating.\n\n       --name\n           This option is only valid for the add command. It sets the submodule’s name to the given\n           string instead of defaulting to its path. The name must be valid as a directory name and\n           may not end with a _\u{0008}/.\n\n       --reference <repository>\n           This option is only valid for add and update commands. These commands sometimes need to\n           clone a remote repository. In this case, this option will be passed to the g\u{0008}gi\u{0008}it\u{0008}t-\u{0008}-c\u{0008}cl\u{0008}lo\u{0008}on\u{0008}ne\u{0008}e(1)\n           command.\n\n           N\u{0008}NO\u{0008}OT\u{0008}TE\u{0008}E: Do n\u{0008}no\u{0008}ot\u{0008}t use this option unless you have read the note for g\u{0008}gi\u{0008}it\u{0008}t-\u{0008}-c\u{0008}cl\u{0008}lo\u{0008}on\u{0008}ne\u{0008}e(1)'s -\u{0008}--\u{0008}-r\u{0008}re\u{0008}ef\u{0008}fe\u{0008}er\u{0008}re\u{0008}en\u{0008}nc\u{0008}ce\u{0008}e,\n           -\u{0008}--\u{0008}-s\u{0008}sh\u{0008}ha\u{0008}ar\u{0008}re\u{0008}ed\u{0008}d, and -\u{0008}--\u{0008}-d\u{0008}di\u{0008}is\u{0008}ss\u{0008}so\u{0008}oc\u{0008}ci\u{0008}ia\u{0008}at\u{0008}te\u{0008}e options carefully.\n\n       --dissociate\n           This option is only valid for add and update commands. These commands sometimes need to\n           clone a remote repository. In this case, this option will be passed to the g\u{0008}gi\u{0008}it\u{0008}t-\u{0008}-c\u{0008}cl\u{0008}lo\u{0008}on\u{0008}ne\u{0008}e(1)\n           command.\n\n           N\u{0008}NO\u{0008}OT\u{0008}TE\u{0008}E: see the NOTE for the -\u{0008}--\u{0008}-r\u{0008}re\u{0008}ef\u{0008}fe\u{0008}er\u{0008}re\u{0008}en\u{0008}nc\u{0008}ce\u{0008}e option.\n\n       --recursive\n           This option is only valid for foreach, update, status and sync commands. Traverse\n           submodules recursively. The operation is performed not only in the submodules of the\n           current repo, but also in any nested submodules inside those submodules (and so on).\n\n       --depth\n           This option is valid for add and update commands. Create a _\u{0008}s_\u{0008}h_\u{0008}a_\u{0008}l_\u{0008}l_\u{0008}o_\u{0008}w clone with a history\n           truncated to the specified number of revisions. See g\u{0008}gi\u{0008}it\u{0008}t-\u{0008}-c\u{0008}cl\u{0008}lo\u{0008}on\u{0008}ne\u{0008}e(1)\n\n       --[no-]recommend-shallow\n           This option is only valid for the update command. The initial clone of a submodule will\n           use the recommended s\u{0008}su\u{0008}ub\u{0008}bm\u{0008}mo\u{0008}od\u{0008}du\u{0008}ul\u{0008}le\u{0008}e.\u{0008}.<\u{0008}<n\u{0008}na\u{0008}am\u{0008}me\u{0008}e>\u{0008}>.\u{0008}.s\u{0008}sh\u{0008}ha\u{0008}al\u{0008}ll\u{0008}lo\u{0008}ow\u{0008}w as provided by the .\u{0008}.g\u{0008}gi\u{0008}it\u{0008}tm\u{0008}mo\u{0008}od\u{0008}du\u{0008}ul\u{0008}le\u{0008}es\u{0008}s file by\n           default. To ignore the suggestions use -\u{0008}--\u{0008}-n\u{0008}no\u{0008}o-\u{0008}-r\u{0008}re\u{0008}ec\u{0008}co\u{0008}om\u{0008}mm\u{0008}me\u{0008}en\u{0008}nd\u{0008}d-\u{0008}-s\u{0008}sh\u{0008}ha\u{0008}al\u{0008}ll\u{0008}lo\u{0008}ow\u{0008}w.\n\n       -j <n>, --jobs <n>\n           This option is only valid for the update command. Clone new submodules in parallel with as\n           many jobs. Defaults to the s\u{0008}su\u{0008}ub\u{0008}bm\u{0008}mo\u{0008}od\u{0008}du\u{0008}ul\u{0008}le\u{0008}e.\u{0008}.f\u{0008}fe\u{0008}et\u{0008}tc\u{0008}ch\u{0008}hJ\u{0008}Jo\u{0008}ob\u{0008}bs\u{0008}s option.\n\n       --[no-]single-branch\n           This option is only valid for the update command. Clone only one branch during update:\n           HEAD or one specified by --branch.\n\n       <path>...\n           Paths to submodule(s). When specified this will restrict the command to only operate on\n           the submodules found at the specified paths. (This argument is required with add).\n\nF\u{0008}FI\u{0008}IL\u{0008}LE\u{0008}ES\u{0008}S\n       When initializing submodules, a .\u{0008}.g\u{0008}gi\u{0008}it\u{0008}tm\u{0008}mo\u{0008}od\u{0008}du\u{0008}ul\u{0008}le\u{0008}es\u{0008}s file in the top-level directory of the containing\n       repository is used to find the url of each submodule. This file should be formatted in the\n       same way as $\u{0008}$G\u{0008}GI\u{0008}IT\u{0008}T_\u{0008}_D\u{0008}DI\u{0008}IR\u{0008}R/\u{0008}/c\u{0008}co\u{0008}on\u{0008}nf\u{0008}fi\u{0008}ig\u{0008}g. The key to each submodule url is \"submodule.$name.url\". See\n       g\u{0008}gi\u{0008}it\u{0008}tm\u{0008}mo\u{0008}od\u{0008}du\u{0008}ul\u{0008}le\u{0008}es\u{0008}s(5) for details.\n\nS\u{0008}SE\u{0008}EE\u{0008}E A\u{0008}AL\u{0008}LS\u{0008}SO\u{0008}O\n       g\u{0008}gi\u{0008}it\u{0008}ts\u{0008}su\u{0008}ub\u{0008}bm\u{0008}mo\u{0008}od\u{0008}du\u{0008}ul\u{0008}le\u{0008}es\u{0008}s(7), g\u{0008}gi\u{0008}it\u{0008}tm\u{0008}mo\u{0008}od\u{0008}du\u{0008}ul\u{0008}le\u{0008}es\u{0008}s(5).\n\nG\u{0008}GI\u{0008}IT\u{0008}T\n       Part of the g\u{0008}gi\u{0008}it\u{0008}t(1) suite\n\nGit 2.37.2                                    08/11/2022                             GIT-SUBMODULE(1)";

#[test]
fn extract_git_submodule() {
    let conf = scraping_conf();
    let (flags, subs) = rendered(&conf, GIT_SUBMODULE_HELP);
    assert_eq!(flags, r#"al -> all
bh -> branch
ca -> cached
ch -> checkout
di -> dissociate
dp -> depth
fc -> force
fi -> files
ii -> init
j -> jobs
me -> merge
na -> name
no -> no-fetch
pr -> progress
q -> quiet
rb -> rebase
rf -> reference
rm -> remote
ru -> recursive
sum -> summary-limit
"#);
    assert_eq!(subs, r#"ab -> absolute
bh -> branch
cc -> cchheecckkoouutt
co -> command
cu -> current
df -> default
dt -> detached
fr -> for
g -> git-submodule
is -> instead
ma -> many
pe -> performed
ro -> recorded
rs -> resolution
sp -> specified
sub -> submodules
sup -> superproject
t -> the
w -> when
"#);
}

const DOCKER_HELP: &str = r#"
Usage:  docker [OPTIONS] COMMAND

A self-sufficient runtime for containers

Options:
      --config string      Location of client config files (default "/home/langston/.docker")
  -c, --context string     Name of the context to use to connect to the daemon (overrides
                           DOCKER_HOST env var and default context set with "docker context use")
  -D, --debug              Enable debug mode
  -H, --host list          Daemon socket(s) to connect to
  -l, --log-level string   Set the logging level ("debug"|"info"|"warn"|"error"|"fatal") (default
                           "info")
      --tls                Use TLS; implied by --tlsverify
      --tlscacert string   Trust certs signed only by this CA (default
                           "/home/langston/.docker/ca.pem")
      --tlscert string     Path to TLS certificate file (default "/home/langston/.docker/cert.pem")
      --tlskey string      Path to TLS key file (default "/home/langston/.docker/key.pem")
      --tlsverify          Use TLS and verify the remote
  -v, --version            Print version information and quit

Management Commands:
  builder     Manage builds
  buildx*     Docker Buildx (Docker Inc., 0.0.0+unknown)
  compose*    Docker Compose (Docker Inc., 2.5.1)
  config      Manage Docker configs
  container   Manage containers
  context     Manage contexts
  image       Manage images
  manifest    Manage Docker image manifests and manifest lists
  network     Manage networks
  node        Manage Swarm nodes
  plugin      Manage plugins
  secret      Manage Docker secrets
  service     Manage services
  stack       Manage Docker stacks
  swarm       Manage Swarm
  system      Manage Docker
  trust       Manage trust on Docker images
  volume      Manage volumes

Commands:
  attach      Attach local standard input, output, and error streams to a running container
  build       Build an image from a Dockerfile
  commit      Create a new image from a container's changes
  cp          Copy files/folders between a container and the local filesystem
  create      Create a new container
  diff        Inspect changes to files or directories on a container's filesystem
  events      Get real time events from the server
  exec        Run a command in a running container
  export      Export a container's filesystem as a tar archive
  history     Show the history of an image
  images      List images
  import      Import the contents from a tarball to create a filesystem image
  info        Display system-wide information
  inspect     Return low-level information on Docker objects
  kill        Kill one or more running containers
  load        Load an image from a tar archive or STDIN
  login       Log in to a Docker registry
  logout      Log out from a Docker registry
  logs        Fetch the logs of a container
  pause       Pause all processes within one or more containers
  port        List port mappings or a specific mapping for the container
  ps          List containers
  pull        Pull an image or a repository from a registry
  push        Push an image or a repository to a registry
  rename      Rename a container
  restart     Restart one or more containers
  rm          Remove one or more containers
  rmi         Remove one or more images
  run         Run a command in a new container
  save        Save one or more images to a tar archive (streamed to STDOUT by default)
  search      Search the Docker Hub for images
  start       Start one or more stopped containers
  stats       Display a live stream of container(s) resource usage statistics
  stop        Stop one or more running containers
  tag         Create a tag TARGET_IMAGE that refers to SOURCE_IMAGE
  top         Display the running processes of a container
  unpause     Unpause all processes within one or more containers
  update      Update configuration of one or more containers
  version     Show the Docker version information
  wait        Block until one or more containers stop, then print their exit codes

Run 'docker COMMAND --help' for more information on a command."#;

#[test]
fn extract_docker() {
    let conf = scraping_conf();
    let (flags, subs) = rendered(&conf, DOCKER_HELP);
    assert_eq!(flags, r#"cg -> config
ct -> context
de -> debug
he -> help
ho -> host
l- -> log-level
tk -> tlskey
tla -> tlscacert
tle -> tlscert
ts -> tls
tv -> tlsverify
vn -> version
"#);
    assert_eq!(subs, r#"a -> attach
bd -> build
be -> builder
bx -> buildx
ca -> container
cg -> config
com -> commit
cop -> compose
cp -> cp
cr -> create
ct -> context
di -> diff
ee -> exec
ep -> export
ev -> events
hi -> history
ie -> image
inf -> info
ins -> inspect
ip -> import
is -> images
k -> kill
la -> load
li -> login
lo -> logout
ls -> logs
m -> manifest
ne -> network
no -> node
pa -> pause
pl -> plugin
po -> port
ps -> ps
pul -> pull
pus -> push
ri -> rmi
rm -> rm
rn -> rename
rs -> restart
ru -> run
sa -> save
sc -> stack
sea -> search
sec -> secret
ser -> service
so -> stop
sr -> start
st -> stats
sw -> swarm
sy -> system
ta -> tag
to -> top
tr -> trust
un -> unpause
up -> update
vn -> version
vo -> volume
w -> wait
"#);
}

#[test]
fn test_deconflict() {
    let conf = ConfigFile::default();
    let deny: Vec<String> = Vec::new();
    let none: Vec<String> = Vec::new();
    let r = zbr::extract::deconflict(&conf, &none, &none, &deny);
    assert_eq!(r.len(), 0);

    let r = zbr::extract::deconflict(&conf, &vec![String::from("foo")], &none, &deny);
    assert_eq!(r.len(), 1);
    assert_eq!(*r.get("foo").unwrap(), "f");

    let r = zbr::extract::deconflict(
        &conf,
        &vec![String::from("bar"), String::from("baz")],
        &none,
        &deny,
    );
    assert_eq!(r.len(), 2);
    assert_eq!(*r.get("bar").unwrap(), "br");
    assert_eq!(*r.get("baz").unwrap(), "bz");
}

// The codes of a sibling set are pairwise distinct and avoid the denylist.
#[test]
fn test_deconflict_unique_codes() {
    let conf = ConfigFile::default();
    let deny = vec![String::from("s")];
    let names = vec![
        String::from("show"),
        String::from("status"),
        String::from("stash"),
        String::from("submodule"),
    ];
    let r = zbr::extract::deconflict(&conf, &Vec::new(), &names, &deny);
    let mut codes: Vec<String> = names.iter().map(|n| r.get(n).unwrap().clone()).collect();
    for c in &codes {
        assert_ne!(c, "s");
    }
    codes.sort();
    codes.dedup();
    assert_eq!(codes.len(), names.len());
}

#[test]
fn test_deconflict_explicit_override() {
    let mut conf = ConfigFile::default();
    conf.flags = vec![(String::from("message"), Flag { short: String::from("m"), squish: true })];
    let flags = vec![String::from("message"), String::from("merge")];
    let r = zbr::extract::deconflict(&conf, &flags, &Vec::new(), &Vec::new());
    assert_eq!(*r.get("message").unwrap(), "m");
    // the generated code avoids the consumed override
    assert_ne!(*r.get("merge").unwrap(), "m");
}

#[test]
fn test_deconflict_devowel() {
    let mut conf = ConfigFile::default();
    conf.devowel = true;
    let subs = vec![String::from("branch"), String::from("status")];
    let r = zbr::extract::deconflict(&conf, &Vec::new(), &subs, &Vec::new());
    assert_eq!(*r.get("branch").unwrap(), "b");
    assert_eq!(*r.get("status").unwrap(), "s");
}

#[test]
fn test_extract_sub_wants_capitalized_description() {
    let words = |v: &[&str]| v.iter().map(|s| String::from(*s)).collect::<Vec<String>>();
    assert_eq!(
        zbr::extract::extract_sub(&words(&["clone", "Clone", "a", "repository"])).as_deref(),
        Some("clone")
    );
    assert_eq!(zbr::extract::extract_sub(&words(&["clone", "a", "repository"])), None);
    assert_eq!(zbr::extract::extract_sub(&words(&["clone"])), None);
    assert_eq!(zbr::extract::extract_sub(&words(&["Usage:", "git", "clone"])), None);
}

#[test]
fn test_extract_opt_takes_long_form() {
    let words = |v: &[&str]| v.iter().map(|s| String::from(*s)).collect::<Vec<String>>();
    let o = zbr::extract::extract_opt(&words(&["--verbose", "Use", "verbose", "output"]));
    assert_eq!(o.unwrap().long, "verbose");
    let o = zbr::extract::extract_opt(&words(&["-v,", "--color=WHEN", "Coloring"]));
    assert_eq!(o.unwrap().long, "color");
    assert!(zbr::extract::extract_opt(&words(&["no", "options", "here"])).is_none());
}

#[test]
fn test_extract_stop_drops_subcommands() {
    let mut conf = scraping_conf();
    conf.stop = true;
    let (_flags, subs) = extract_text(&conf, GLAB_HELP);
    assert_eq!(subs.0.len(), 0);
}
