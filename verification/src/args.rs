//! The command line of the daemon.

use vstd::prelude::*;

verus! {

/// The options given on the command line.
pub struct CliArgs {
    /// Path to the configuration file.
    pub config: Option<Vec<u8>>,
    /// Check the configuration, report on standard output and exit.
    pub check_config: bool,
    /// Make the output more verbose.
    pub verbose: bool,
    /// Write the log to this file instead of standard error and output.
    pub log_file: Option<Vec<u8>>,
}

} // verus!
