//! The command line of termrec.
//!
//! The program parses the arguments into these values; top-level flags
//! (`--config`, `--debug`) come before the subcommand.

use vstd::prelude::*;

use crate::commands::Commands;

verus! {

/// The paths the command line gives, as the operating system spells them.
#[verifier::external_type_specification]
#[verifier::external_body]
pub struct ExPathBuf(std::path::PathBuf);

/// Command-line interface for termrec.
#[derive(Debug)]
pub struct Cli {
    /// Load settings from this TOML config file. When omitted, termrec looks
    /// for its config file in the platform's standard configuration directory.
    pub config: Option<std::path::PathBuf>,
    /// Logging verbosity: how many times `--debug` was given.
    pub debug: u8,
    /// The action to perform: record a session or render a recording.
    pub command: Option<Commands>,
}

} // verus!
