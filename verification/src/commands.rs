//! Argument carriers for the client-side subcommands.
//!
//! The command-line front end parses its arguments into these values and
//! forwards them over the RPC channel; the parsing and the channel live
//! outside the library. What little the front end decides — defaults — is
//! verified here.

use vstd::prelude::*;

verus! {

/// Runs a batch WebAssembly program.
pub struct RunCommand {
    /// Program file path or URL.
    pub path: String,
    /// Arguments to pass to the program.
    pub args: Vec<String>,
}

/// Serves an HTTP WebAssembly program.
pub struct ServeCommand {
    /// Program file path.
    pub path: String,
    /// Socket address, as `host:port` text, for the web server to bind
    /// to.
    pub addr: String,
}

/// Lists the registered programs.
pub struct ListCommand {
}

/// Stops programs by id prefix.
pub struct StopCommand {
    /// Program id prefixes.
    pub ids: Vec<String>,
}

/// Restarts programs by id prefix.
pub struct RestartCommand {
    /// Program id prefixes.
    pub ids: Vec<String>,
}

/// Deletes programs by id prefix.
pub struct DeleteCommand {
    /// Program id prefixes.
    pub ids: Vec<String>,
}

/// Fetches the log of one program.
pub struct LogsCommand {
    /// Program id prefix.
    pub id: String,
    /// Keep streaming freshly appended bytes.
    pub follow: bool,
    /// Number of lines to show from the end of the log, if given.
    pub tail: Option<u32>,
}

impl LogsCommand {
    /// The tail count sent over the wire: an absent count becomes `0`,
    /// which requests the whole file.
    pub fn effective_tail(&self) -> (r: u32)
        ensures
            r == match self.tail {
                Some(n) => n,
                None => 0u32,
            },
    {
        match self.tail {
            Some(n) => n,
            None => 0,
        }
    }
}

} // verus!
