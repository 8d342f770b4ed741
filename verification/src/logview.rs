//! The log viewer's message.
//!
//! The tool persists an append-only log file under a fixed name inside the
//! per-user configuration directory. The subcommand that shows it prints the
//! log's location followed by its contents, or a note naming the expected
//! path when no log file exists yet. The message is composed here; finding
//! the directory and reading the file stay outside the library.

use vstd::prelude::*;

verus! {

/// The fixed file name of the persisted log inside the configuration
/// directory.
pub fn log_file_name() -> (r: String)
    ensures
        r@ == "ms.log"@,
{
    String::from_str("ms.log")
}

/// The message the log subcommand prints: the log's location and its full
/// contents when the file exists, or a note naming the expected path when
/// it does not.
pub fn log_message(path: &String, contents: Option<&String>) -> (r: String)
    ensures
        contents matches Some(c) ==> r@ == "Log location: "@ + path@ + "\n"@ + c@,
        contents is None ==> r@ == "No log file found: "@ + path@,
{
    match contents {
        Some(c) => {
            let mut out = String::from_str("Log location: ");
            out.append(path.as_str());
            out.append("\n");
            out.append(c.as_str());
            out
        },
        None => {
            let mut out = String::from_str("No log file found: ");
            out.append(path.as_str());
            out
        },
    }
}

} // verus!
