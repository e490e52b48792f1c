//! Verified core of a local daemon that supervises WebAssembly programs.
//!
//! The library owns the decision logic of the supervisor: the durable
//! registry of program metadata, the in-memory table of live programs and
//! its lifecycle state machine, program-id formation and prefix resolution,
//! the binary encoding of program metadata, and the log-tail computation.
//! The surrounding process (socket handling, task spawning, the embedded
//! WebAssembly engines) drives these functions and performs the I/O they
//! decide on.

use vstd::prelude::*;

pub mod commands;
pub mod engine;
pub mod errors;
pub mod ids;
pub mod logtail;
pub mod meta;
pub mod numfmt;
pub mod paths;
pub mod registry;
pub mod server;

verus! {

/// Status code of a live program: its task is still executing.
pub const PROGRAM_STATUS_RUNNING: u32 = 0;

/// Status code of a live program: its task completed without a failure.
pub const PROGRAM_STATUS_FINISHED: u32 = 1;

/// Status code of a live program: its task completed with a failure.
pub const PROGRAM_STATUS_ERROR: u32 = 2;

/// Status code of a live program: it was cancelled by a stop request.
pub const PROGRAM_STATUS_STOPPED: u32 = 3;

/// Type code of a batch (command-line style) program.
pub const PROGRAM_TYPE_CLI: u32 = 0;

/// Type code of an HTTP proxy program.
pub const PROGRAM_TYPE_HTTP: u32 = 1;

/// A guest is forced to yield cooperatively after consuming this much fuel.
pub const FUEL_YIELD_INTERVAL: u64 = 10000;

/// Write budget reported to a guest for its log output stream, so that the
/// guest is never blocked on small writes.
pub const LOG_WRITE_BUDGET: usize = 1024 * 1024;

/// Polling interval, in milliseconds, for streaming freshly appended log
/// bytes to a following client.
pub const LOG_POLL_INTERVAL_MS: u64 = 200;

/// Capacity of the bounded queue between the log reader and the stream
/// writer of a log-following response.
pub const LOG_CHANNEL_CAPACITY: usize = 128;

/// Number of random alphanumeric characters appended to a file stem to form
/// a program id.
pub const ID_SUFFIX_LEN: usize = 7;

} // verus!
