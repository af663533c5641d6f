//! Command-line commands, as plain values.
use vstd::prelude::*;

verus! {

/// The parsed command line.
pub struct Cli {
    pub cmd: Commands,
}

/// The commands.
pub enum Commands {
    Version,
    Lint {
        repo_root: Option<String>,
        scope: Option<String>,
        output: Option<String>,
        index: Option<String>,
    },
    Format {
        repo_root: Option<String>,
        write: bool,
        diff: bool,
        check: bool,
        output: Option<String>,
        index: Option<String>,
    },
    Sync {
        repo_root: Option<String>,
        scope: Option<String>,
        output: Option<String>,
        index: Option<String>,
        write: bool,
        dry_run: bool,
        check: bool,
    },
    Conv {
        cmd: ConvCmd,
    },
}

/// The convention-management commands.
pub enum ConvCmd {
    Install {
        repo_root: Option<String>,
        source: Option<String>,
        name: Option<String>,
    },
    Ls {
        repo_root: Option<String>,
    },
    Prune {
        repo_root: Option<String>,
    },
    Path {
        repo_root: Option<String>,
        conv: String,
    },
}

/// The write flag a run uses: off when a diff or a check is asked for.
pub fn effective_write(write: bool, diff: bool, check: bool) -> (r: bool)
    ensures
        r == (write && !diff && !check),
{
    if diff || check {
        false
    } else {
        write
    }
}

} // verus!
