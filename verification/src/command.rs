//! The handle under which callers run external commands.

use vstd::prelude::*;

verus! {

/// A unit handle naming the system's own command execution. The crate itself
/// never runs a process: callers hold this handle, perform the architecture
/// and module-metadata queries behind it, and pass the resulting text back
/// into the verified functions as plain values.
pub struct SystemCommandRunner;

impl SystemCommandRunner {
    /// Creates the handle.
    pub fn new() -> SystemCommandRunner {
        SystemCommandRunner
    }
}

} // verus!
