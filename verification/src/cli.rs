//! The run modes of the program, as plain data. The code around the
//! library reads the command line and builds one of these.

use vstd::prelude::*;

verus! {

/// What one invocation of the program does.
#[derive(Clone, Debug)]
pub enum RunType {
    /// Serve DNS and watch the configuration file.
    Start,
    /// Append one host record to the configuration file.
    AddRecord { ip: String, host: String },
    /// Print the configured host records.
    PrintRecord,
    /// Open the configuration file in an editor and reload it.
    EditConfig,
    /// Print the binary and configuration paths.
    PrintPath,
}

/// The parsed command line: the configuration file path and the run mode.
#[derive(Clone, Debug)]
pub struct Args {
    pub path: String,
    pub run: RunType,
}

/// Whether the new text must be preceded by a newline when a record is
/// appended: exactly when the file does not already end with one.
pub fn needs_newline(content: &str) -> (r: bool)
    ensures
        r == (content@.len() == 0 || content@.last() != '\n'),
{
    let v = crate::text::string_to_chars(content);
    if v.len() == 0 {
        true
    } else {
        v[v.len() - 1] != '\n'
    }
}

} // verus!
