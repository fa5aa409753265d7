//! The failures a directive can suffer while it is parsed. Each carries
//! enough text to report the failure; reporting itself happens outside the
//! library, and a failed directive never aborts the scan.
use vstd::prelude::*;
use vstd::string::*;

verus! {

#[derive(Debug)]
pub enum Error {
    /// A directive occurrence could not be parsed; carries the full report.
    Parse(String),
    /// A known command was given the wrong number of arguments.
    Arguments(String),
    /// The command name is not one of the supported commands.
    UnknownCommand(String),
}

/// The message an `Arguments` failure of command `name` carries.
pub open spec fn spec_arguments_message(name: Seq<char>) -> Seq<char> {
    "The `"@ + name + "` command requires two arguments for an execution."@
}

/// The message an `UnknownCommand` failure renders for command `name`.
pub open spec fn spec_unknown_message(name: Seq<char>) -> Seq<char> {
    "The `"@ + name + "` command is not supported."@
}

impl Error {
    /// The text this failure renders as.
    pub open spec fn spec_message(&self) -> Seq<char> {
        match self {
            Error::Parse(m) => "Parse error: "@ + m@,
            Error::Arguments(m) => m@,
            Error::UnknownCommand(n) => spec_unknown_message(n@),
        }
    }

    /// Renders the failure as one line of text.
    pub fn message(&self) -> (r: String)
        ensures
            r@ == self.spec_message(),
    {
        match self {
            Error::Parse(m) => String::from_str("Parse error: ").concat(m.as_str()),
            Error::Arguments(m) => m.clone(),
            Error::UnknownCommand(n) => String::from_str("The `").concat(n.as_str()).concat(
                "` command is not supported.",
            ),
        }
    }
}

pub fn arguments_message(name: &str) -> (r: String)
    ensures
        r@ == spec_arguments_message(name@),
{
    String::from_str("The `").concat(name).concat(
        "` command requires two arguments for an execution.",
    )
}

} // verus!
