//! Errors surfaced by the executor and its builders.

use vstd::prelude::*;
use vstd::string::StringExecFns;

use crate::task_id::TaskId;

verus! {

/// Failure modes of building or running an executor.
#[derive(Debug)]
pub enum ExecutorError {
    /// Invalid builder configuration.
    Builder(String),
    /// A graph failed validation; the text names the first problem found.
    InvalidGraph(String),
    /// `run` was called while the executor was already running.
    AlreadyRunning,
    /// An item's `execute` returned an error; the text is the item's message.
    Item { task_id: TaskId, message: String },
}

/// The text that `ExecutorError::to_string` renders for each variant.
pub open spec fn executor_error_text(e: &ExecutorError) -> Seq<char> {
    match e {
        ExecutorError::Builder(m) => "builder error: "@ + m@,
        ExecutorError::InvalidGraph(m) => "invalid graph: "@ + m@,
        ExecutorError::AlreadyRunning => "executor is already running"@,
        ExecutorError::Item { task_id, message } => "task "@ + task_id@ + " failed: "@ + message@,
    }
}

impl ExecutorError {
    /// Human-readable rendering of the error.
    pub fn to_string(&self) -> (r: String)
        ensures
            r@ == executor_error_text(self),
    {
        match self {
            ExecutorError::Builder(m) => {
                let mut s = String::from_str("builder error: ");
                s.append(m.as_str());
                s
            },
            ExecutorError::InvalidGraph(m) => {
                let mut s = String::from_str("invalid graph: ");
                s.append(m.as_str());
                s
            },
            ExecutorError::AlreadyRunning => String::from_str("executor is already running"),
            ExecutorError::Item { task_id, message } => {
                let mut s = String::from_str("task ");
                s.append(task_id.as_str());
                s.append(" failed: ");
                s.append(message.as_str());
                s
            },
        }
    }
}

} // verus!
