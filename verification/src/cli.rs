//! The parsed command-line surface as plain data.
//!
//! Argument parsing itself happens at the binary's edge; this type holds
//! the plain values that the edge hands over.

use vstd::prelude::*;

verus! {

/// One invocation: the subcommand plus the global options.
#[derive(Debug)]
pub struct Cli {
    pub command: Commands,
    pub config: Option<String>,
    pub verbose: bool,
}

/// The subcommands of the tool.
#[derive(Debug)]
pub enum Commands {
    /// Send a file, optionally forcing the HTTP fallback.
    Send { file: String, force_fallback: bool, timeout: Option<u64> },
    /// Receive a file from a SHR or HTTP URL.
    Recv { url: String, output: Option<String> },
    /// Show or change the configuration.
    Config { action: Option<ConfigAction> },
    /// Clean up old fallback files.
    Cleanup,
    /// Show fallback statistics.
    Stats,
}

/// The configuration subcommands.
#[derive(Debug)]
pub enum ConfigAction {
    Show,
    Reset,
    SetValue { key: String, value: String },
}

impl Cli {
    /// An invocation from its plain parts.
    pub fn new(command: Commands, config: Option<String>, verbose: bool) -> (c: Cli)
        ensures
            c.command == command,
            c.config == config,
            c.verbose == verbose,
    {
        Cli { command, config, verbose }
    }
}

} // verus!
