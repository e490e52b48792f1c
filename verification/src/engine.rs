//! Decisions of the two execution engines: how an artifact is classified
//! and launched, and how a guest run's outcome maps to success or
//! failure. The embedded WebAssembly runtime performs the execution; the
//! functions here decide what it is asked to do and what its outcome
//! means.

use vstd::prelude::*;
use crate::ids::is_prefix_of;
use crate::ids::str_has_prefix;
use crate::meta::ProgramMeta;
use crate::meta::string_views;
use crate::numfmt::spec_decimal;
use crate::numfmt::u64_to_string;

verus! {

/// The two on-disk shapes of a wasm artifact.
pub enum ArtifactKind {
    /// A core wasm module, run through its start export.
    CoreModule,
    /// A component, run through the standard command interface.
    Component,
}

/// The component preamble: the wasm magic, then the component version
/// and layer words in little-endian form.
pub open spec fn is_component_preamble(b: Seq<u8>) -> bool {
    b.len() >= 8 && b[0] == 0x00 && b[1] == 0x61 && b[2] == 0x73 && b[3] == 0x6d && b[4] == 0x0d
        && b[5] == 0x00 && b[6] == 0x01 && b[7] == 0x00
}

/// Relies on wasmparser's `Parser::is_component`: it reports whether the
/// bytes start with the eight-byte component preamble.
#[verifier::external_body]
fn wasm_is_component(bytes: &Vec<u8>) -> (r: bool)
    ensures
        r == is_component_preamble(bytes@),
{
    wasmparser::Parser::is_component(bytes.as_slice())
}

/// Classifies raw artifact bytes, which chooses the host wiring the
/// engine installs around them.
pub fn classify_artifact(bytes: &Vec<u8>) -> (r: ArtifactKind)
    ensures
        r is Component <==> is_component_preamble(bytes@),
{
    if wasm_is_component(bytes) {
        ArtifactKind::Component
    } else {
        ArtifactKind::CoreModule
    }
}

/// Whether the artifact path names a remote artifact, to be fetched over
/// HTTP rather than read from disk.
pub fn is_remote_path(path: &str) -> (r: bool)
    ensures
        r == is_prefix_of("http"@, path@),
{
    str_has_prefix(path, "http")
}

/// The argument list handed to a guest: the artifact path, then the
/// program's own arguments.
pub fn build_argv(meta: &ProgramMeta) -> (r: Vec<String>)
    ensures
        r@.len() == meta.args@.len() + 1,
        r@[0]@ == meta.path@,
        forall|i: int| 1 <= i < r@.len() ==> (#[trigger] r@[i])@ == meta.args@[i - 1]@,
{
    let mut argv: Vec<String> = Vec::new();
    argv.push(meta.path.clone());
    let mut i: usize = 0;
    while i < meta.args.len()
        invariant
            i <= meta.args@.len(),
            argv@.len() == i + 1,
            argv@[0]@ == meta.path@,
            forall|j: int| 1 <= j < argv@.len() ==> (#[trigger] argv@[j])@ == meta.args@[j - 1]@,
        decreases meta.args@.len() - i,
    {
        argv.push(meta.args[i].clone());
        i = i + 1;
    }
    argv
}

/// The entry a core module is run through.
pub enum EntryPoint {
    /// The conventional start export.
    Start,
    /// The export with the empty name, the fallback.
    DefaultExport,
}

/// Chooses the entry of a core module: the start export when present,
/// else the empty-named export, else there is nothing to run.
pub fn select_entry(has_start: bool, has_default: bool) -> (r: Result<EntryPoint, String>)
    ensures
        has_start ==> r matches Ok(EntryPoint::Start),
        !has_start && has_default ==> r matches Ok(EntryPoint::DefaultExport),
        !has_start && !has_default ==> (r matches Err(m) && m@ == "no main function to run"@),
{
    if has_start {
        Ok(EntryPoint::Start)
    } else if has_default {
        Ok(EntryPoint::DefaultExport)
    } else {
        Err(String::from_str("no main function to run"))
    }
}

/// How a core module's entry call came back: it returned, the guest
/// exited with a code, or it failed with a message.
pub enum CoreOutcome {
    /// The entry returned normally.
    Completed,
    /// The guest ended itself with a process exit code; the message is
    /// the runtime's rendering of that exit.
    Exited { code: i64, message: String },
    /// The call failed; the message is the runtime's.
    Failed { message: String },
}

/// Maps a core module's outcome to the run result: a normal return and a
/// zero exit code are success — a guest that exits with code zero has
/// finished, not failed — and everything else keeps its failure message.
pub fn core_run_result(outcome: CoreOutcome) -> (r: Result<(), String>)
    ensures
        r is Ok <==> (outcome is Completed || (outcome matches CoreOutcome::Exited { code, .. }
            && code == 0)),
        r matches Err(m) ==> match outcome {
            CoreOutcome::Completed => false,
            CoreOutcome::Exited { code, message } => code != 0 && m@ == message@,
            CoreOutcome::Failed { message } => m@ == message@,
        },
{
    match outcome {
        CoreOutcome::Completed => Ok(()),
        CoreOutcome::Exited { code, message } => {
            if code == 0 {
                Ok(())
            } else {
                Err(message)
            }
        },
        CoreOutcome::Failed { message } => Err(message),
    }
}

/// Maps a component's command invocation to the run result: any failure
/// of the call surfaces under the call-run error message.
pub fn component_run_result(failure: Option<String>) -> (r: Result<(), String>)
    ensures
        r is Ok <==> failure is None,
        r matches Err(m) ==> (failure matches Some(e) && m@ == "call run function error: "@ + e@),
{
    match failure {
        None => Ok(()),
        Some(e) => Err(String::from_str("call run function error: ").concat(e.as_str())),
    }
}

/// The line appended to the log file when a program's task fails: the
/// failure message and a newline.
pub fn error_log_entry(message: &str) -> (r: String)
    ensures
        r@ == message@ + "\n"@,
{
    String::from_str(message).concat("\n")
}

/// The banner an HTTP program writes to its log once its listener is
/// bound.
pub fn serving_banner(addr: &str) -> (r: String)
    ensures
        r@ == "Serving HTTP on http://"@ + addr@ + "/\n"@,
{
    String::from_str("Serving HTTP on http://").concat(addr).concat("/\n")
}

/// The line logged for one incoming request of an HTTP program.
pub fn request_log_line(req_id: u64, method: &str, uri: &str) -> (r: String)
    ensures
        r@ == "Request "@ + spec_decimal(req_id as nat) + " handling "@ + method@ + " to "@ + uri@
            + "\n"@,
{
    String::from_str("Request ").concat(u64_to_string(req_id).as_str()).concat(
        " handling ",
    ).concat(method).concat(" to ").concat(uri).concat("\n")
}

/// The environment entry seeding a request's guest store with its
/// request id.
pub fn request_env(req_id: u64) -> (r: (String, String))
    ensures
        r.0@ == "REQUEST_ID"@,
        r.1@ == spec_decimal(req_id as nat),
{
    (String::from_str("REQUEST_ID"), u64_to_string(req_id))
}

/// The next request id of an HTTP program: a wrapping 64-bit successor,
/// as an atomic fetch-add produces.
pub fn next_req_id(current: u64) -> (r: u64)
    ensures
        current < u64::MAX ==> r == current + 1,
        current == u64::MAX ==> r == 0,
{
    if current == u64::MAX {
        0
    } else {
        current + 1
    }
}

} // verus!
