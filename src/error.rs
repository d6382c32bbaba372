use crate::text::{owned, push_str};
use vstd::prelude::*;

verus! {

/// What can go wrong while the shell runs a command.
#[derive(Debug, PartialEq, Eq)]
pub enum ShellError {
    /// An input or output operation failed; its description.
    IoError(String),
    /// The command is neither builtin nor found on the search path.
    CommandNotFound(String),
    /// An external command could not be run to completion.
    ExecutionError(String),
    /// The line editor failed.
    EditorError(String),
    /// A needed environment variable is not set.
    EnvVarNotFound(String),
    /// A directory does not exist.
    DirectoryNotFound(String),
    /// Changing directory failed: the path and the reason.
    CdError(String, String),
}

/// The text shown for an error.
pub open spec fn error_message(e: ShellError) -> Seq<char> {
    match e {
        ShellError::IoError(m) => "IO error: "@ + m@,
        ShellError::CommandNotFound(c) => "Command not found: "@ + c@,
        ShellError::ExecutionError(m) => "Execution error: "@ + m@,
        ShellError::EditorError(m) => "Editor error: "@ + m@,
        ShellError::EnvVarNotFound(v) => "Environment variable not found: "@ + v@,
        ShellError::DirectoryNotFound(d) => "Directory not found: "@ + d@,
        ShellError::CdError(p, m) => "cd: "@ + p@ + ": "@ + m@,
    }
}

impl ShellError {
    /// The text shown for this error.
    pub fn message(&self) -> (r: String)
        ensures
            r@ == error_message(*self),
    {
        match self {
            ShellError::IoError(m) => prefixed("IO error: ", m),
            ShellError::CommandNotFound(c) => prefixed("Command not found: ", c),
            ShellError::ExecutionError(m) => prefixed("Execution error: ", m),
            ShellError::EditorError(m) => prefixed("Editor error: ", m),
            ShellError::EnvVarNotFound(v) => prefixed("Environment variable not found: ", v),
            ShellError::DirectoryNotFound(d) => prefixed("Directory not found: ", d),
            ShellError::CdError(p, m) => {
                let mut r = prefixed("cd: ", p);
                push_str(&mut r, ": ");
                push_str(&mut r, m.as_str());
                r
            },
        }
    }
}

/// `head` followed by `tail`.
fn prefixed(head: &str, tail: &String) -> (r: String)
    ensures
        r@ == head@ + tail@,
{
    let mut r = owned(head);
    push_str(&mut r, tail.as_str());
    r
}

} // verus!
