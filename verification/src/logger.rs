//! Where a log message goes and how a line of the log file reads.

use vstd::prelude::*;
use vstd::string::StringExecFns;

verus! {

/// How serious a message is.
#[derive(Clone, Copy, Debug, PartialEq, Eq, Structural)]
pub enum LogLevel {
    /// Errors, always written.
    Error,
    /// Progress, written only when verbose.
    Info,
}

/// Where a message is written.
#[derive(Clone, Copy, Debug, PartialEq, Eq, Structural)]
pub enum LogDestination {
    /// The log file, one line per message, with a timestamp.
    File,
    /// Standard error.
    Stderr,
    /// Standard output.
    Stdout,
}

/// Where a message of the given level goes: progress messages are dropped
/// unless the logger is verbose; with a log file everything goes there;
/// otherwise errors go to standard error and progress to standard output.
pub fn log_destination(verbose: bool, has_file: bool, level: LogLevel) -> (dest: Option<LogDestination>)
    ensures
        dest == (if level == LogLevel::Info && !verbose {
            None::<LogDestination>
        } else if has_file {
            Some(LogDestination::File)
        } else if level == LogLevel::Error {
            Some(LogDestination::Stderr)
        } else {
            Some(LogDestination::Stdout)
        }),
{
    if level == LogLevel::Info && !verbose {
        None
    } else if has_file {
        Some(LogDestination::File)
    } else if level == LogLevel::Error {
        Some(LogDestination::Stderr)
    } else {
        Some(LogDestination::Stdout)
    }
}

/// The line written to the log file for `message` at time `timestamp`:
/// `[timestamp] message`.
pub fn file_log_line(timestamp: &str, message: &str) -> (line: String)
    ensures
        line@ == seq!['['] + timestamp@ + seq![']', ' '] + message@,
{
    proof {
        reveal_strlit("[");
        reveal_strlit("] ");
    }
    let line = String::from_str("[").concat(timestamp).concat("] ").concat(message);
    assert(line@ =~= seq!['['] + timestamp@ + seq![']', ' '] + message@);
    line
}

} // verus!
