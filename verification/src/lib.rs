//! Abbreviation compiler for hierarchical command-line vocabularies.
//!
//! Given an immutable tree of commands, subcommands and flags, each with a
//! long name and a short code, the library compiles a flat mapping from
//! abbreviated buffer text to its full expansion, assigns collision-free
//! short codes to sibling names, and splits compound shell buffers so that
//! only the trailing statement is abbreviated.

use vstd::prelude::*;

pub mod strings;
pub mod strmap;
pub mod abbrev;
pub mod buildsys;
pub mod compile;
pub mod expand;
pub mod hint;
pub mod extract;

verus! {

/// What the command-line surface can be asked to do. The paths name
/// configuration files; reading them is the caller's work.
#[derive(Debug)]
pub enum Command {
    Aliases { conf: String },
    Expand { conf: String, lbuf: String, rbuf: String },
    Extract(crate::extract::Config),
    Hint { max: u8, conf: String, buf: String },
    Init { conf: String },
}

/// The log verbosity levels the command-line surface can ask for.
#[derive(Clone, Copy, PartialEq, Eq, Structural, Debug)]
pub enum Level {
    Warn,
    Info,
    Debug,
    Trace,
}

/// Maps a count of `-v` occurrences to a log level: quiet by default,
/// everything from three repetitions up.
pub fn verbosity_to_log_level(verbosity: u8) -> (r: Level)
    ensures
        r == (match verbosity {
            0u8 => Level::Warn,
            1u8 => Level::Info,
            2u8 => Level::Debug,
            _ => Level::Trace,
        }),
{
    match verbosity {
        0 => Level::Warn,
        1 => Level::Info,
        2 => Level::Debug,
        _ => Level::Trace,
    }
}

} // verus!
