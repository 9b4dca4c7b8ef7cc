use vstd::prelude::*;

verus! {

/// Error for malformed text: a bad header, a missing metadata line, an
/// unparseable date, datetime or version token.  Carries a message that
/// names the offending field or line.
#[derive(Debug)]
pub struct ParseError {
    pub message: String,
}

impl ParseError {
    pub fn new(message: String) -> (e: ParseError)
        ensures
            e.message == message,
    {
        ParseError { message }
    }

    /// The human-readable description of what failed to parse.
    pub fn message(&self) -> (m: String)
        ensures
            m@ == self.message@,
    {
        self.message.clone()
    }
}

/// Error for a task index that is out of bounds.
#[derive(Debug)]
pub struct NotFoundError {
    pub message: String,
}

impl NotFoundError {
    pub fn new(message: String) -> (e: NotFoundError)
        ensures
            e.message == message,
    {
        NotFoundError { message }
    }

    /// The human-readable description of what was not found.
    pub fn message(&self) -> (m: String)
        ensures
            m@ == self.message@,
    {
        self.message.clone()
    }
}

} // verus!
