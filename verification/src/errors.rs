//! The failures that the library reports: a dispatch against a name with
//! no registered command, and a tokenizer given an empty line.
use vstd::prelude::*;

verus! {

/// Failure of the dispatcher: no command is registered under `name`.
#[derive(Debug, PartialEq, Eq)]
pub struct UnknownCommandError {
    pub name: String,
}

impl UnknownCommandError {
    /// Renders the failure as text, naming the offending command.
    pub fn message(&self) -> (r: String)
        ensures
            r@ == "No such function \""@ + self.name@ + "\""@,
    {
        let mut m = String::new();
        m.append("No such function \"");
        m.append(self.name.as_str());
        m.append("\"");
        proof {
            assert(m@ =~= "No such function \""@ + self.name@ + "\""@);
        }
        m
    }
}

/// Failure of the tokenizer: the input line held no characters at all.
#[derive(Debug, PartialEq, Eq)]
pub struct EmptyInputError;

} // verus!
