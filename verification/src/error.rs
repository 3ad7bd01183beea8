//! The error type shared by every fallible operation of the crate.

use vstd::prelude::*;
use vstd::string::StringExecFns;

verus! {

/// Why an operation could not be carried out. Payloads are plain strings so
/// that callers can report the failing path, command or pattern.
#[derive(Debug, Clone, PartialEq, Eq)]
pub enum JanitorError {
    /// An I/O operation failed; the payload describes it.
    Io(String),
    /// A rule line did not compile as a regular expression.
    Regex(String),
    /// A directory walk failed; the payload describes it.
    Walkdir(String),
    /// An external command failed to run or exited unsuccessfully.
    Command(String),
    /// No kernel subdirectory was found under the given module root.
    NoKernelDir(String),
    /// A path had no usable string representation.
    InvalidPath(String),
    /// A rule source could not be read: source name, then the cause.
    ConfigRead(String, String),
    /// A firmware name did not form a valid glob pattern.
    Pattern(String),
}

impl JanitorError {
    /// A human-readable description of the error.
    pub fn message(&self) -> String {
        match self {
            JanitorError::Io(s) => join_msg("I/O error: ", s),
            JanitorError::Regex(s) => join_msg("Regex error: ", s),
            JanitorError::Walkdir(s) => join_msg("Walkdir error: ", s),
            JanitorError::Command(s) => join_msg("Command failed: ", s),
            JanitorError::NoKernelDir(s) => join_msg(
                "No kernel modules directory found in ",
                s,
            ),
            JanitorError::InvalidPath(s) => join_msg(
                "Path does not have a string representation: ",
                s,
            ),
            JanitorError::ConfigRead(p, c) => {
                let head = join_msg("Could not read config file ", p);
                let head2 = head.concat(": ");
                head2.concat(c.as_str())
            },
            JanitorError::Pattern(s) => join_msg("Invalid glob pattern: ", s),
        }
    }
}

fn join_msg(prefix: &str, s: &String) -> (r: String)
    ensures
        r@ == prefix@ + s@,
{
    let mut r = prefix.to_owned();
    r.append(s.as_str());
    r
}

} // verus!
