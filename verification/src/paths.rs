//! Derivation of the daemon's filesystem layout from the user's home
//! directory: the working directory, the socket path, the logs directory,
//! the database path, and per-program log files.
//!
//! The caller supplies the home directory (an environment lookup this
//! library does not perform) and receives plain path strings.

use vstd::prelude::*;

verus! {

/// The daemon's working directory under the user's home directory.
pub fn get_main_dir(home_dir: &str) -> (r: String)
    ensures
        r@ == home_dir@ + "/.wacker"@,
{
    String::from_str(home_dir).concat("/.wacker")
}

/// The path of the daemon's listening socket under the working directory.
pub fn get_sock_path(main_dir: &str) -> (r: String)
    ensures
        r@ == main_dir@ + "/wacker.sock"@,
{
    String::from_str(main_dir).concat("/wacker.sock")
}

/// The directory holding one append-only log file per program.
pub fn get_logs_dir(main_dir: &str) -> (r: String)
    ensures
        r@ == main_dir@ + "/logs"@,
{
    String::from_str(main_dir).concat("/logs")
}

/// The directory of the durable program registry.
pub fn get_db_path(main_dir: &str) -> (r: String)
    ensures
        r@ == main_dir@ + "/db"@,
{
    String::from_str(main_dir).concat("/db")
}

/// The log file of one program: a file named exactly after the program id,
/// inside the logs directory.
pub fn log_file_path(logs_dir: &str, id: &str) -> (r: String)
    ensures
        r@ == logs_dir@ + "/"@ + id@,
{
    String::from_str(logs_dir).concat("/").concat(id)
}

} // verus!
