//! The run parameters: which file to read, where to write the result, and
//! how to reach the secret store. Argument parsing itself is external glue;
//! this type only carries the values it produces.
use vstd::prelude::*;

verus! {

#[derive(Debug)]
pub struct Command {
    /// Path to the source file with placeholders.
    pub file: String,
    /// Result file path; the source path is overwritten when absent.
    pub destination: Option<String>,
    /// URL of the remote secret-store node.
    pub host: String,
    /// API token for requests to the secret store.
    pub token: String,
}

} // verus!
