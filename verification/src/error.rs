//! The error type of the command-line front end and of date parsing.
use vstd::prelude::*;

verus! {

/// Why the command line could not be turned into a search.
#[derive(Debug, Clone, PartialEq, Eq)]
pub enum CliError {
    /// `-h` or `--help` was given.
    HelpRequested,
    /// A message for the user.
    Message(String),
}

/// The text shown for an error.
pub open spec fn cli_error_text(e: CliError) -> Seq<char> {
    match e {
        CliError::HelpRequested => "help requested"@,
        CliError::Message(m) => m@,
    }
}

/// `e` is a `Message` whose text is `text`.
pub open spec fn is_message(e: CliError, text: Seq<char>) -> bool {
    e matches CliError::Message(m) && m@ == text
}

impl CliError {
    /// The text shown for the error.
    pub fn to_string(&self) -> (r: String)
        ensures
            r@ == cli_error_text(*self),
    {
        match self {
            CliError::HelpRequested => String::from_str("help requested"),
            CliError::Message(m) => m.clone(),
        }
    }
}

/// A `Message` error holding `text`.
pub fn message(text: &str) -> (r: CliError)
    ensures
        is_message(r, text@),
{
    CliError::Message(String::from_str(text))
}

} // verus!
