use sonic::context::{Context, ContextHarness, Stoppable};
use sonic::error::ExecutorError;
use sonic::executor::Executor;
use sonic::graph::GraphBuilder;
use sonic::graph_run::{GraphRun, VertexOutcome};
use sonic::pool::{pool_mode, worker_name, PoolMode, Tracker};
use sonic::run_loop::{
    attachment_tasks, chain_next, item_events_after, item_events_before, FirstError, ItemEvent, IterationEnd,
    LifecycleEvent, RunLoop, RunMode,
};
use sonic::trigger::{ExecutableItem, TriggerDeclarer};
use sonic::task_id::TaskId;

#[derive(Debug)]
struct Work;

impl<D> ExecutableItem<D> for Work {
    fn declare_triggers(&mut self, _d: &mut TriggerDeclarer<D>) -> Result<(), ExecutorError> {
        Ok(())
    }
}

/// a -> {b, c} -> d
fn diamond() -> sonic::graph::Graph<Work> {
    let mut g = GraphBuilder::new();
    let a = g.vertex(Work);
    let b = g.vertex(Work);
    let c = g.vertex(Work);
    let d = g.vertex(Work);
    g.edge(a, b).edge(a, c).edge(b, d).edge(c, d).root(a);
    g.finish::<()>().unwrap().0
}

#[test]
fn diamond_runs_in_dependency_order() {
    let g = diamond();
    let (mut run, ready) = GraphRun::new(&g);
    assert_eq!(ready, vec![0]);
    let (mut next, done) = run.complete(0, VertexOutcome::Continue);
    next.sort();
    assert_eq!(next, vec![1, 2]);
    assert!(!done);
    let (next, done) = run.complete(1, VertexOutcome::Continue);
    assert!(next.is_empty());
    assert!(!done);
    let (next, done) = run.complete(2, VertexOutcome::Continue);
    assert_eq!(next, vec![3]);
    assert!(!done);
    let (next, done) = run.complete(3, VertexOutcome::Continue);
    assert!(next.is_empty());
    assert!(done);
    assert!(run.is_complete());
    assert!(!run.is_stopped());
}

#[test]
fn stop_chain_cancels_what_is_below() {
    let g = diamond();
    let (mut run, _) = GraphRun::new(&g);
    let (next, done) = run.complete(0, VertexOutcome::StopChain);
    assert!(next.is_empty());
    assert!(done, "nothing can run after the root stopped the chain");
    assert!(run.is_stopped());
    assert!(run.stopped_chain());
}

#[test]
fn failure_after_fan_out_skips_the_rest() {
    let g = diamond();
    let (mut run, _) = GraphRun::new(&g);
    let (next, _) = run.complete(0, VertexOutcome::Continue);
    assert_eq!(next.len(), 2);
    let (after_fail, done) = run.complete(1, VertexOutcome::Failed);
    assert!(after_fail.is_empty());
    assert!(!done);
    assert!(run.is_stopped());
    assert!(!run.stopped_chain());
    // The sibling was already handed out; it is skipped, and that ends the run.
    assert!(run.skip(2));
    assert!(run.is_complete());
}

#[test]
fn run_modes_decide_the_end() {
    let mut l = RunLoop::new();
    assert_eq!(l.after_wakeup(RunMode::Iterations(2), false, false), IterationEnd::Continue);
    assert_eq!(l.after_wakeup(RunMode::Iterations(2), false, false), IterationEnd::ReturnOk);
    let mut l = RunLoop::new();
    assert_eq!(l.after_wakeup(RunMode::Forever, false, false), IterationEnd::Continue);
    assert_eq!(l.after_wakeup(RunMode::Forever, true, false), IterationEnd::ReturnError);
    assert_eq!(l.after_wakeup(RunMode::Forever, false, true), IterationEnd::ReturnOk);
    assert_eq!(l.after_wakeup(RunMode::Until, false, false), IterationEnd::CheckDeadline);
    assert_eq!(l.after_wakeup(RunMode::Predicate, false, false), IterationEnd::CheckPredicate);
}

#[test]
fn second_run_is_refused_while_running() {
    let mut exec: Executor<Work, ()> = Executor::<Work, ()>::builder().worker_threads(0).build();
    assert_eq!(exec.begin_run().unwrap(), LifecycleEvent::ExecutorUp);
    assert!(exec.is_running_now());
    let err = exec.begin_run().expect_err("already running");
    assert!(matches!(err, ExecutorError::AlreadyRunning));
    assert_eq!(err.to_string(), "executor is already running");
    assert_eq!(exec.end_run(&Ok(())), LifecycleEvent::ExecutorDown);
    assert!(!exec.is_running_now());
    assert!(exec.begin_run().is_ok());
}

#[test]
fn attachments_follow_declarations() {
    assert_eq!(attachment_tasks(&vec![2, 0, 1]), vec![0, 0, 2]);
    assert!(attachment_tasks(&vec![]).is_empty());
}

#[test]
fn chains_walk_on_only_after_continue() {
    assert_eq!(chain_next(3, 0, VertexOutcome::Continue), Some(1));
    assert_eq!(chain_next(3, 2, VertexOutcome::Continue), None);
    assert_eq!(chain_next(3, 0, VertexOutcome::StopChain), None);
    assert_eq!(chain_next(3, 1, VertexOutcome::Failed), None);
}

#[test]
fn first_error_wins() {
    let mut slot = FirstError::new();
    slot.record("first");
    slot.record("second");
    assert_eq!(slot.take(), Some("first"));
    assert_eq!(slot.take(), None);
}

#[test]
fn pool_shape_and_names() {
    assert_eq!(pool_mode(0), PoolMode::Inline);
    assert_eq!(pool_mode(2), PoolMode::Threaded { workers: 2, queue_capacity: 8 });
    assert_eq!(worker_name(None, 3), "sonic-pool-3");
    assert_eq!(worker_name(Some("io"), 12), "io-12");
}

#[test]
fn tracker_balances_submissions() {
    let mut t = Tracker::new();
    assert!(t.is_quiescent());
    t.submit();
    t.submit();
    assert_eq!(t.in_flight(), 2);
    t.complete();
    assert!(!t.is_quiescent());
    t.complete();
    assert!(t.is_quiescent());
}

#[test]
fn context_reports_its_task_and_stops_the_executor() {
    let harness = ContextHarness::new(TaskId::new("t"));
    let ctx = harness.context();
    assert_eq!(ctx.task_id().as_str(), "t");
    assert!(!ctx.stoppable().is_stopped());
    ctx.stop_executor();
    assert!(ctx.stoppable().is_stopped());

    let stop = Stoppable::new();
    let id = TaskId::new("u");
    let ctx = Context::new(&id, &stop);
    ctx.stop_executor();
    assert!(stop.is_stopped());
}

#[test]
fn a_failed_run_is_reported_as_an_error() {
    let mut exec: Executor<Work, ()> = Executor::<Work, ()>::builder().worker_threads(0).build();
    exec.begin_run().unwrap();
    let failed: Result<(), ExecutorError> = Err(ExecutorError::AlreadyRunning);
    assert_eq!(exec.end_run(&failed), LifecycleEvent::ExecutorError);
    assert!(!exec.is_running_now());
}

#[test]
fn item_callbacks_in_order() {
    assert_eq!(item_events_before(None, None), vec![ItemEvent::PreExecute]);
    assert_eq!(
        item_events_before(Some(7), Some(2)),
        vec![ItemEvent::AppStart { app: 7, instance: Some(2) }, ItemEvent::PreExecute]
    );
    assert_eq!(item_events_after(None, true), vec![ItemEvent::PostExecute { ok: true }]);
    assert_eq!(
        item_events_after(Some(7), false),
        vec![ItemEvent::PostExecute { ok: false }, ItemEvent::AppError, ItemEvent::AppStop]
    );
}

#[test]
fn a_run_that_never_stops_runs_every_vertex() {
    let g = diamond();
    let (mut run, mut ready) = GraphRun::new(&g);
    let mut ran = Vec::new();
    while let Some(i) = ready.pop() {
        ran.push(i);
        let (next, _) = run.complete(i, VertexOutcome::Continue);
        ready.extend(next);
    }
    ran.sort();
    assert_eq!(ran, vec![0, 1, 2, 3]);
    assert!(run.is_complete());
}
