//! Per-invocation context handed to an item's `execute`, and the shared
//! stop flag through which an item or another thread ends the run loop.

use std::sync::atomic::AtomicBool;
use std::sync::atomic::Ordering;
use std::sync::Arc;

use vstd::prelude::*;

use crate::task_id::TaskId;

verus! {

/// Shared stop flag. Cloneable and thread-safe: every clone observes the
/// same flag. Setting it asks the executor to end the run loop after the
/// current iteration completes.
#[derive(Debug)]
pub struct Stoppable(Arc<AtomicBool>);

impl Stoppable {
    /// Create a fresh handle whose flag is not set.
    pub fn new() -> (r: Stoppable) {
        Stoppable(Arc::new(AtomicBool::new(false)))
    }

    /// Request stop.
    pub fn stop(&self) {
        self.0.store(true, Ordering::Release);
    }

    /// Whether stop has been requested, through this handle or any clone.
    pub fn is_stopped(&self) -> (r: bool) {
        self.0.load(Ordering::Acquire)
    }
}

impl Clone for Stoppable {
    /// Another handle on the same flag.
    fn clone(&self) -> (r: Self)
        ensures
            r == *self,
    {
        Stoppable(self.0.clone())
    }
}

impl Default for Stoppable {
    fn default() -> (r: Self) {
        Stoppable::new()
    }
}

/// Per-invocation context. A borrowed view, not stored across calls.
pub struct Context<'a> {
    task_id: &'a TaskId,
    stop: &'a Stoppable,
}

impl<'a> Context<'a> {
    /// Build a context for the task `task_id` with the executor's stop flag.
    pub fn new(task_id: &'a TaskId, stop: &'a Stoppable) -> (r: Context<'a>)
        ensures
            r.task_id() == task_id,
            r.stop_handle() == stop,
    {
        Context { task_id, stop }
    }

    /// The task that the context was built for.
    pub closed spec fn spec_task_id(&self) -> &'a TaskId {
        self.task_id
    }

    /// The stop flag that the context was built with.
    pub closed spec fn stop_handle(&self) -> &'a Stoppable {
        self.stop
    }

    /// Identifier of the task currently executing.
    #[verifier::when_used_as_spec(spec_task_id)]
    pub fn task_id(&self) -> (r: &'a TaskId)
        ensures
            r == self.spec_task_id(),
    {
        self.task_id
    }

    /// Request the enclosing executor to stop.
    pub fn stop_executor(&self) {
        self.stop.stop();
    }

    /// A clonable handle on the executor's stop flag that other threads may
    /// hold.
    pub fn stoppable(&self) -> (r: Stoppable)
        ensures
            r == *self.stop_handle(),
    {
        self.stop.clone()
    }
}

/// Owns a task identifier and a stop flag so that a context can be built
/// outside an executor, as tests do.
pub struct ContextHarness {
    task_id: TaskId,
    stop: Stoppable,
}

impl ContextHarness {
    /// A harness for the task `id` with a fresh stop flag.
    pub fn new(id: TaskId) -> (r: ContextHarness)
        ensures
            r.harness_task_id() == id,
    {
        ContextHarness { task_id: id, stop: Stoppable::new() }
    }

    /// The task the harness was built for.
    pub closed spec fn harness_task_id(&self) -> TaskId {
        self.task_id
    }

    /// A context borrowing the harness's task identifier and stop flag.
    pub fn context(&self) -> (r: Context<'_>)
        ensures
            *r.task_id() == self.harness_task_id(),
    {
        Context::new(&self.task_id, &self.stop)
    }
}

} // verus!
