//! Errors reported by the command-line front end.
use vstd::prelude::*;

verus! {

/// An error message for the user, printed as it is.
pub struct CliError(String);

impl CliError {
    /// The text of the message.
    pub closed spec fn text(&self) -> Seq<char> {
        self.0@
    }

    /// The message.
    pub fn message(&self) -> (m: &str)
        ensures
            m@ == self.text(),
    {
        self.0.as_str()
    }
}

/// An error carrying the message `msg`.
pub fn fail(msg: String) -> (e: CliError)
    ensures
        e.text() == msg@,
{
    CliError(msg)
}

} // verus!
