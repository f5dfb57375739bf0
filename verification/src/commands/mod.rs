//! termrec's subcommands: what each decides, given what the program has
//! read from the environment, the file system and the user.

use vstd::prelude::*;

use crate::cli::Cli;

pub mod render;
pub mod run;

pub use render::RenderArguments;
pub use run::RunArguments;

verus! {

/// termrec's subcommands.
#[derive(Debug)]
pub enum Commands {
    /// Record a new terminal session.
    ///
    /// Spawns the recording shell, then replays the raw session through a
    /// terminal emulator to build a command-aware transcript and store it.
    Run(RunArguments),
    /// Render a previously recorded session.
    ///
    /// Picks a recording from the store and writes it out as a formatted
    /// document (Markdown by default).
    Render(RenderArguments),
}

/// What to do once the command line has been parsed: which config file to
/// load (the one given with `--config`, or the default one when `None`),
/// then which subcommand to run with it, if any.
#[derive(Debug)]
pub struct Dispatch {
    pub config_path: Option<std::path::PathBuf>,
    pub command: Option<Commands>,
}

/// Entry point after the top-level flags have been parsed.
///
/// The config file is loaded (from `--config` or the default location)
/// whatever the subcommand; config settings act as fallbacks for anything
/// not given on the command line. Without a subcommand nothing else is done.
pub fn dispatch(cli: Cli) -> (d: Dispatch)
    ensures
        d.config_path == cli.config,
        d.command == cli.command,
{
    Dispatch { config_path: cli.config, command: cli.command }
}

} // verus!
