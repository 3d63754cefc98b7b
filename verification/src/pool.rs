//! Bookkeeping of the executor's worker pool: inline or threaded mode, the
//! names of worker threads, and the submitted/completed counts that the
//! per-iteration barrier waits on. Threads, the job queue and the waiting
//! live with the caller.

use vstd::prelude::*;
use vstd::string::StringExecFns;

use crate::task_id::{decimal, push_decimal};

verus! {

/// How the pool runs jobs.
#[derive(PartialEq, Eq, Structural, Clone, Copy, Debug)]
pub enum PoolMode {
    /// Every job runs on the submitting thread.
    Inline,
    /// Jobs go through a bounded queue to `workers` threads.
    Threaded { workers: usize, queue_capacity: usize },
}

/// Zero workers selects inline mode; otherwise that many threads share a
/// queue of four slots per worker.
pub fn pool_mode(n_workers: usize) -> (r: PoolMode)
    requires
        n_workers <= usize::MAX / 4,
    ensures
        n_workers == 0 ==> r == PoolMode::Inline,
        n_workers > 0 ==> r == (PoolMode::Threaded { workers: n_workers, queue_capacity: (n_workers * 4) as usize }),
{
    if n_workers == 0 {
        PoolMode::Inline
    } else {
        PoolMode::Threaded { workers: n_workers, queue_capacity: n_workers * 4 }
    }
}

/// Name of worker `i`: `<prefix>-<i>`, or `sonic-pool-<i>` without a prefix.
pub fn worker_name(prefix: Option<&str>, i: usize) -> (r: String)
    ensures
        r@ == match prefix {
            Some(p) => p@ + "-"@ + decimal(i as nat),
            None => "sonic-pool-"@ + decimal(i as nat),
        },
{
    let mut s = match prefix {
        Some(p) => {
            let mut s = String::from_str(p);
            s.append("-");
            s
        },
        None => String::from_str("sonic-pool-"),
    };
    push_decimal(&mut s, i as u64);
    s
}

/// Counts jobs submitted and completed; the pool is quiescent when every
/// submitted job has completed.
pub struct Tracker {
    submitted: usize,
    completed: usize,
}

impl Tracker {
    /// Jobs submitted so far.
    pub closed spec fn submitted_count(&self) -> nat {
        self.submitted as nat
    }

    /// Jobs completed so far.
    pub closed spec fn completed_count(&self) -> nat {
        self.completed as nat
    }

    /// No job has completed that was not submitted.
    pub closed spec fn wf(&self) -> bool {
        self.completed <= self.submitted
    }

    /// A tracker with nothing submitted.
    pub fn new() -> (r: Tracker)
        ensures
            r.wf(),
            r.submitted_count() == 0,
            r.completed_count() == 0,
    {
        Tracker { submitted: 0, completed: 0 }
    }

    /// Count a submitted job.
    pub fn submit(&mut self)
        requires
            old(self).wf(),
            old(self).submitted_count() < usize::MAX,
        ensures
            final(self).wf(),
            final(self).submitted_count() == old(self).submitted_count() + 1,
            final(self).completed_count() == old(self).completed_count(),
    {
        self.submitted = self.submitted + 1;
    }

    /// Count a completed job, one that was submitted and had not completed.
    pub fn complete(&mut self)
        requires
            old(self).wf(),
            old(self).completed_count() < old(self).submitted_count(),
        ensures
            final(self).wf(),
            final(self).completed_count() == old(self).completed_count() + 1,
            final(self).submitted_count() == old(self).submitted_count(),
    {
        self.completed = self.completed + 1;
    }

    /// Jobs submitted so far.
    pub fn submitted(&self) -> (r: usize)
        ensures
            r == self.submitted_count(),
    {
        self.submitted
    }

    /// Whether every submitted job has completed.
    pub fn is_quiescent(&self) -> (r: bool)
        ensures
            r == (self.submitted_count() == self.completed_count()),
    {
        self.submitted == self.completed
    }

    /// Jobs submitted and not yet completed.
    pub fn in_flight(&self) -> (r: usize)
        requires
            self.wf(),
        ensures
            r == self.submitted_count() - self.completed_count(),
    {
        self.submitted - self.completed
    }
}

/// Submitting then completing a job leaves the pool as quiescent as it was.
pub proof fn lemma_submit_complete_balanced(a: Tracker, b: Tracker, c: Tracker)
    requires
        b.submitted_count() == a.submitted_count() + 1,
        b.completed_count() == a.completed_count(),
        c.completed_count() == b.completed_count() + 1,
        c.submitted_count() == b.submitted_count(),
    ensures
        (c.submitted_count() == c.completed_count()) == (a.submitted_count() == a.completed_count()),
{
}

} // verus!
