//! Decisions of the executor's run loop: when a run may start, whether the
//! loop goes on after each wake-up, which task each wait-set attachment
//! belongs to, how far a chain walks, which item error is reported, and
//! which observer and monitor callbacks a run and an item execution make.

use vstd::prelude::*;

use crate::error::ExecutorError;
use crate::executor::Executor;
use crate::graph_run::VertexOutcome;

verus! {

/// How long a run lasts. The deadline of `Until` and the predicate of
/// `Predicate` stay with the caller, which is asked to check them.
#[derive(PartialEq, Eq, Structural, Clone, Copy, Debug)]
pub enum RunMode {
    /// Until stopped.
    Forever,
    /// Until a wall-clock deadline.
    Until,
    /// Until this many wake-ups have been handled.
    Iterations(usize),
    /// Until a caller-supplied predicate holds.
    Predicate,
}

/// What the run loop does after a wake-up.
#[derive(PartialEq, Eq, Structural, Clone, Copy, Debug)]
pub enum IterationEnd {
    /// An item failed: return its error.
    ReturnError,
    /// Return successfully.
    ReturnOk,
    /// Wait for the next wake-up.
    Continue,
    /// Return if the deadline has passed, else wait again.
    CheckDeadline,
    /// Return if the predicate holds, else wait again.
    CheckPredicate,
}

/// Counts the wake-ups handled in one run.
pub struct RunLoop {
    iterations_done: usize,
}

impl RunLoop {
    /// Number of wake-ups handled so far.
    pub closed spec fn iterations(&self) -> usize {
        self.iterations_done
    }

    /// A run that has handled no wake-up yet.
    pub fn new() -> (r: RunLoop)
        ensures
            r.iterations() == 0,
    {
        RunLoop { iterations_done: 0 }
    }

    /// Decide after a wake-up: an item error ends the run with that error; a
    /// stop request ends it successfully; otherwise the wake-up is counted
    /// and the run mode decides.
    pub fn after_wakeup(&mut self, mode: RunMode, had_error: bool, stopped: bool) -> (r: IterationEnd)
        ensures
            had_error ==> r == IterationEnd::ReturnError && final(self).iterations() == old(self).iterations(),
            !had_error && stopped ==> r == IterationEnd::ReturnOk && final(self).iterations() == old(self).iterations(),
            !had_error && !stopped ==> {
                &&& final(self).iterations() == if old(self).iterations() == usize::MAX {
                    0
                } else {
                    (old(self).iterations() + 1) as usize
                }
                &&& r == match mode {
                    RunMode::Forever => IterationEnd::Continue,
                    RunMode::Iterations(n) => if final(self).iterations() >= n {
                        IterationEnd::ReturnOk
                    } else {
                        IterationEnd::Continue
                    },
                    RunMode::Until => IterationEnd::CheckDeadline,
                    RunMode::Predicate => IterationEnd::CheckPredicate,
                }
            },
    {
        if had_error {
            return IterationEnd::ReturnError;
        }
        if stopped {
            return IterationEnd::ReturnOk;
        }
        self.iterations_done = if self.iterations_done == usize::MAX {
            0
        } else {
            self.iterations_done + 1
        };
        match mode {
            RunMode::Forever => IterationEnd::Continue,
            RunMode::Iterations(n) => {
                if self.iterations_done >= n {
                    IterationEnd::ReturnOk
                } else {
                    IterationEnd::Continue
                }
            },
            RunMode::Until => IterationEnd::CheckDeadline,
            RunMode::Predicate => IterationEnd::CheckPredicate,
        }
    }
}

/// An observer callback about the executor as a whole.
#[derive(PartialEq, Eq, Structural, Clone, Copy, Debug)]
pub enum LifecycleEvent {
    /// A run started.
    ExecutorUp,
    /// A run ended successfully.
    ExecutorDown,
    /// A run ended with an error.
    ExecutorError,
}

/// The callback that reports how a run ended.
pub open spec fn run_end_event(ok: bool) -> LifecycleEvent {
    if ok {
        LifecycleEvent::ExecutorDown
    } else {
        LifecycleEvent::ExecutorError
    }
}

impl<I, D> Executor<I, D> {
    /// Claim the executor for a run. Refused while a run is in progress,
    /// with no callback; otherwise the run starts and is reported up.
    pub fn begin_run(&mut self) -> (r: Result<LifecycleEvent, ExecutorError>)
        ensures
            old(self).is_running() <==> r is Err,
            r matches Err(e) ==> e matches ExecutorError::AlreadyRunning,
            r is Ok ==> r == Ok::<LifecycleEvent, ExecutorError>(LifecycleEvent::ExecutorUp),
            final(self).is_running(),
            final(self).tasks() == old(self).tasks(),
            final(self).counter() == old(self).counter(),
            final(self).stop_flag() == old(self).stop_flag(),
    {
        if self.is_running_now() {
            return Err(ExecutorError::AlreadyRunning);
        }
        self.set_running(true);
        Ok(LifecycleEvent::ExecutorUp)
    }

    /// Release the executor at the end of a run that produced `result`;
    /// returns the callback that reports it: down on success, error
    /// otherwise.
    pub fn end_run(&mut self, result: &Result<(), ExecutorError>) -> (ev: LifecycleEvent)
        ensures
            ev == run_end_event(result is Ok),
            !final(self).is_running(),
            final(self).tasks() == old(self).tasks(),
            final(self).counter() == old(self).counter(),
            final(self).stop_flag() == old(self).stop_flag(),
    {
        self.set_running(false);
        match result {
            Ok(()) => LifecycleEvent::ExecutorDown,
            Err(_) => LifecycleEvent::ExecutorError,
        }
    }
}

/// An observer or monitor callback around one execution of an item.
#[derive(PartialEq, Eq, Structural, Clone, Copy, Debug)]
pub enum ItemEvent {
    /// The item carries an application id: report its start.
    AppStart { app: u32, instance: Option<u32> },
    /// The monitor hears that the item is about to run.
    PreExecute,
    /// The monitor hears that the item ran, and whether it succeeded.
    PostExecute { ok: bool },
    /// The item failed: report its error.
    AppError,
    /// The item carries an application id: report its stop.
    AppStop,
}

/// The callbacks before an item runs: its start when it carries an
/// application id, then the monitor's pre-execution callback.
pub open spec fn events_before(app: Option<u32>, instance: Option<u32>) -> Seq<ItemEvent> {
    match app {
        Some(a) => seq![ItemEvent::AppStart { app: a, instance }, ItemEvent::PreExecute],
        None => seq![ItemEvent::PreExecute],
    }
}

/// The callbacks after an item ran: the monitor's post-execution callback,
/// the error when it failed, and its stop when it carries an application id.
pub open spec fn events_after(app: Option<u32>, ok: bool) -> Seq<ItemEvent> {
    seq![ItemEvent::PostExecute { ok }] + (if ok {
        Seq::<ItemEvent>::empty()
    } else {
        seq![ItemEvent::AppError]
    }) + (if app is Some {
        seq![ItemEvent::AppStop]
    } else {
        Seq::<ItemEvent>::empty()
    })
}

/// Around every execution of an item: before it, the start is reported
/// exactly when the item carries an application id, and the monitor hears
/// of the execution last; after it, the monitor hears first how it ended,
/// the error is reported exactly when it failed, and the stop is reported
/// exactly when the item carries an application id, whether it succeeded
/// or failed, as the last callback.
pub proof fn lemma_item_callbacks(app: Option<u32>, instance: Option<u32>, ok: bool)
    ensures
        events_before(app, instance).len() > 0,
        events_before(app, instance).last() == ItemEvent::PreExecute,
        app matches Some(a) ==> events_before(app, instance)[0] == (ItemEvent::AppStart { app: a, instance }),
        app is None ==> events_before(app, instance).len() == 1,
        events_after(app, ok).len() > 0,
        events_after(app, ok)[0] == (ItemEvent::PostExecute { ok }),
        events_after(app, ok).contains(ItemEvent::AppError) <==> !ok,
        events_after(app, ok).contains(ItemEvent::AppStop) <==> app is Some,
        app is Some ==> events_after(app, ok).last() == ItemEvent::AppStop,
{
    let after = events_after(app, ok);
    if !ok {
        assert(after[1] == ItemEvent::AppError);
    }
    if after.contains(ItemEvent::AppError) {
        let j = choose|j: int| 0 <= j < after.len() && after[j] == ItemEvent::AppError;
    }
    if app is Some {
        assert(after[after.len() - 1] == ItemEvent::AppStop);
    }
    if after.contains(ItemEvent::AppStop) {
        let j = choose|j: int| 0 <= j < after.len() && after[j] == ItemEvent::AppStop;
    }
}

/// The callbacks to make before an item with application id `app` runs.
pub fn item_events_before(app: Option<u32>, instance: Option<u32>) -> (r: Vec<ItemEvent>)
    ensures
        r@ == events_before(app, instance),
        r@.len() > 0 && r@.last() == ItemEvent::PreExecute,
        app matches Some(a) ==> r@[0] == (ItemEvent::AppStart { app: a, instance }),
        app is None ==> r@.len() == 1,
{
    proof {
        lemma_item_callbacks(app, instance, true);
    }
    let mut r: Vec<ItemEvent> = Vec::new();
    if let Some(a) = app {
        r.push(ItemEvent::AppStart { app: a, instance });
    }
    r.push(ItemEvent::PreExecute);
    proof {
        assert(r@ =~= events_before(app, instance));
    }
    r
}

/// The callbacks to make after an item with application id `app` ran,
/// successfully or not.
pub fn item_events_after(app: Option<u32>, ok: bool) -> (r: Vec<ItemEvent>)
    ensures
        r@ == events_after(app, ok),
        r@.len() > 0 && r@[0] == (ItemEvent::PostExecute { ok }),
        r@.contains(ItemEvent::AppError) <==> !ok,
        app is Some ==> r@.last() == ItemEvent::AppStop,
        r@.contains(ItemEvent::AppStop) <==> app is Some,
{
    proof {
        lemma_item_callbacks(app, None, ok);
    }
    let mut r: Vec<ItemEvent> = Vec::new();
    r.push(ItemEvent::PostExecute { ok });
    if !ok {
        r.push(ItemEvent::AppError);
    }
    if app.is_some() {
        r.push(ItemEvent::AppStop);
    }
    proof {
        assert(r@ =~= events_after(app, ok));
    }
    r
}

/// Task index of each wait-set attachment, in attachment order: each task
/// contributes one attachment per trigger declaration, tasks in order.
pub open spec fn attachments(decl_counts: Seq<usize>) -> Seq<usize>
    decreases decl_counts.len(),
{
    if decl_counts.len() == 0 {
        Seq::empty()
    } else {
        attachments(decl_counts.drop_last()) + Seq::new(
            decl_counts.last() as nat,
            |j: int| (decl_counts.len() - 1) as usize,
        )
    }
}

/// The number of trigger declarations of all the tasks of `c` together.
pub open spec fn total(c: Seq<usize>) -> nat
    decreases c.len(),
{
    if c.len() == 0 {
        0
    } else {
        total(c.drop_last()) + c.last() as nat
    }
}

proof fn lemma_total_prefix(c: Seq<usize>, k: int)
    requires
        0 <= k <= c.len(),
    ensures
        total(c.take(k)) <= total(c),
    decreases c.len(),
{
    if k < c.len() {
        assert(c.take(k) =~= c.drop_last().take(k));
        lemma_total_prefix(c.drop_last(), k);
    } else {
        assert(c.take(k) =~= c);
    }
}

/// Each task owns a run of consecutive attachments, tasks in order: there
/// are as many attachments as declarations in all, attachment `j` belongs
/// to task `t` exactly when `j` lies between the declarations of the tasks
/// before `t` and those up to and including `t`, and every attachment
/// belongs to one of the tasks.
pub proof fn lemma_attachments_by_task(c: Seq<usize>)
    requires
        c.len() <= usize::MAX,
    ensures
        attachments(c).len() == total(c),
        forall|j: int| 0 <= j < attachments(c).len() ==> #[trigger] attachments(c)[j] < c.len(),
        forall|t: int, j: int|
            #![trigger attachments(c)[j], total(c.take(t))]
            0 <= t < c.len() && total(c.take(t)) <= j < total(c.take(t + 1)) ==> attachments(c)[j] == t,
    decreases c.len(),
{
    if c.len() > 0 {
        let p = c.drop_last();
        let n = c.len();
        lemma_attachments_by_task(p);
        let a = attachments(p);
        let all = attachments(c);
        assert(all == a + Seq::new(c.last() as nat, |j: int| (n - 1) as usize));
        assert forall|j: int| 0 <= j < all.len() implies #[trigger] all[j] < c.len() by {
            if j < a.len() {
                assert(all[j] == a[j]);
            }
        }
        assert forall|t: int, j: int|
            #![trigger all[j], total(c.take(t))]
            0 <= t < c.len() && total(c.take(t)) <= j < total(c.take(t + 1)) implies all[j] == t by {
            if t < n - 1 {
                assert(c.take(t) =~= p.take(t));
                assert(c.take(t + 1) =~= p.take(t + 1));
                assert(total(c.take(t)) == total(p.take(t)));
                assert(total(c.take(t + 1)) == total(p.take(t + 1)));
                lemma_total_prefix(p, t + 1);
                assert(j < a.len());
                assert(all[j] == a[j]);
                assert(a[j] == t);
            } else {
                assert(c.take(t) =~= p);
                assert(c.take(t + 1) =~= c);
                assert(total(c) == total(p) + c.last());
                assert(a.len() <= j < all.len());
                assert(all[j] == Seq::new(c.last() as nat, |k: int| (n - 1) as usize)[j - a.len()]);
            }
        }
    }
}

/// Map each wait-set attachment to its task, given each task's number of
/// trigger declarations.
pub fn attachment_tasks(decl_counts: &Vec<usize>) -> (r: Vec<usize>)
    ensures
        r@ == attachments(decl_counts@),
        r@.len() == total(decl_counts@),
        forall|j: int| 0 <= j < r@.len() ==> #[trigger] r@[j] < decl_counts@.len(),
        forall|t: int, j: int|
            #![trigger r@[j], total(decl_counts@.take(t))]
            0 <= t < decl_counts@.len() && total(decl_counts@.take(t)) <= j < total(decl_counts@.take(t + 1))
                ==> r@[j] == t,
{
    proof {
        assert(decl_counts@.len() == decl_counts.len());
        lemma_attachments_by_task(decl_counts@);
    }
    let mut r: Vec<usize> = Vec::new();
    let mut t: usize = 0;
    while t < decl_counts.len()
        invariant
            t <= decl_counts.len(),
            r@ == attachments(decl_counts@.take(t as int)),
        decreases decl_counts.len() - t,
    {
        let c = decl_counts[t];
        let ghost before = r@;
        let mut k: usize = 0;
        while k < c
            invariant
                k <= c,
                r@ == before + Seq::new(k as nat, |j: int| t),
            decreases c - k,
        {
            r.push(t);
            k = k + 1;
            assert(r@ =~= before + Seq::new(k as nat, |j: int| t));
        }
        proof {
            let pre = decl_counts@.take(t + 1);
            assert(pre.drop_last() =~= decl_counts@.take(t as int));
            assert(pre.last() == c);
            assert(Seq::new(k as nat, |j: int| t) =~= Seq::new(pre.last() as nat, |j: int| (pre.len() - 1) as usize));
        }
        t = t + 1;
    }
    assert(decl_counts@.take(t as int) =~= decl_counts@);
    r
}

/// Position of the next item of a chain of `len` items after the item at
/// `pos` finished with `outcome`: a chain walks on only after `Continue`.
pub fn chain_next(len: usize, pos: usize, outcome: VertexOutcome) -> (r: Option<usize>)
    requires
        pos < len,
    ensures
        r == if outcome == VertexOutcome::Continue && pos + 1 < len {
            Some((pos + 1) as usize)
        } else {
            None::<usize>
        },
{
    match outcome {
        VertexOutcome::Continue => {
            if pos + 1 < len {
                Some(pos + 1)
            } else {
                None
            }
        },
        _ => None,
    }
}

/// Holds the first error recorded in one wake-up; later ones are dropped.
pub struct FirstError<E> {
    slot: Option<E>,
}

impl<E> FirstError<E> {
    /// What the slot holds.
    pub closed spec fn held(&self) -> Option<E> {
        self.slot
    }

    /// An empty slot.
    pub fn new() -> (r: Self)
        ensures
            r.held() is None,
    {
        FirstError { slot: None }
    }

    /// Record `e` unless an error is already held.
    pub fn record(&mut self, e: E)
        ensures
            final(self).held() == match old(self).held() {
                Some(f) => Some(f),
                None => Some(e),
            },
    {
        if self.slot.is_none() {
            self.slot = Some(e);
        }
    }

    /// Take the held error out, leaving the slot empty.
    pub fn take(&mut self) -> (r: Option<E>)
        ensures
            r == old(self).held(),
            final(self).held() is None,
    {
        self.slot.take()
    }
}

} // verus!
