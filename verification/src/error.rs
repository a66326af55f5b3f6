//! The error type handed back to clients.
use vstd::prelude::*;

verus! {

/// A tool failure: the text shown to the client.
#[derive(Debug, Clone)]
pub struct ToolError(pub String);

/// What a tool hands back.
pub type ToolResult<T> = Result<T, ToolError>;

impl ToolError {
    /// An error with the given text.
    pub fn msg(message: &str) -> (error: ToolError)
        ensures
            error.0@ == message@,
    {
        ToolError(String::from_str(message))
    }

    /// The error for a failure of the disk, given its reason.
    pub fn io(reason: &str) -> (error: ToolError)
        ensures
            error.0@ == "I/O error: "@ + reason@,
    {
        ToolError(String::from_str("I/O error: ").concat(reason))
    }

    /// The text shown to the client.
    pub fn message(&self) -> (text: String)
        ensures
            text@ == self.0@,
    {
        self.0.clone()
    }
}

} // verus!
