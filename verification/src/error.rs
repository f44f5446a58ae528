//! The error kinds a run can end with. Every payload is a plain value so
//! that callers can render a diagnostic without re-deriving context.

use vstd::prelude::*;

use crate::grammar::SyntaxErr;

verus! {

/// Everything that can go wrong, from parsing to task execution.
#[derive(Debug, PartialEq)]
pub enum FriggenError {
    /// No task file could be located.
    FriggenfileNotFound,
    /// The task file was rejected by the parser.
    FriggenfileSyntaxError(SyntaxErr),
    /// A second task definition uses an already-defined name.
    DuplicateTaskDefinition(Vec<u8>),
    /// A requested task name is not defined in the task file.
    TaskNotFound(Vec<u8>),
    /// A task's dependency list names a task that does not exist.
    InvalidTaskReference { referrer: Vec<u8>, referee: Vec<u8> },
    /// Following dependency edges returned to a task that is still being
    /// resolved; the payload is the path from the repeated task back to
    /// itself, in visitation order.
    CyclicTaskReference(Vec<Vec<u8>>),
    /// The subshell of a command substitution exited with a failure; the
    /// payload is the command text and the captured diagnostic output.
    ShellInvocationError { command: Vec<u8>, diagnostic: Vec<u8> },
    /// An input/output failure outside the language itself.
    IoError(Vec<u8>),
    /// A task's script ran to completion and exited with a non-zero code.
    /// This is the one error kind that reports an expected outcome rather
    /// than a defect: the caller propagates the exit code as its own.
    TaskExecutionFailure { task: Vec<u8>, exit_code: i32 },
}

} // verus!
