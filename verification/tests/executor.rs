use std::sync::atomic::{AtomicUsize, Ordering};
use std::sync::Arc;

use sonic::error::ExecutorError;
use sonic::executor::{Executor, ExecutorBuilder, TaskKind};
use sonic::graph::GraphBuilder;
use sonic::task_id::TaskId;
use sonic::trigger::{ExecutableItem, TriggerDeclarer};

/// Stand-in for an executable item that declares no trigger.
#[derive(Debug, PartialEq)]
struct Work(u32);

impl ExecutableItem<&'static str> for Work {
    fn declare_triggers(&mut self, _d: &mut TriggerDeclarer<&'static str>) -> Result<(), ExecutorError> {
        Ok(())
    }
}

/// An item that declares what it is given, counts how often it was asked,
/// and can refuse.
struct Declaring {
    decls: Vec<&'static str>,
    refuse: bool,
    asked: Arc<AtomicUsize>,
}

impl ExecutableItem<&'static str> for Declaring {
    fn declare_triggers(&mut self, d: &mut TriggerDeclarer<&'static str>) -> Result<(), ExecutorError> {
        self.asked.fetch_add(1, Ordering::SeqCst);
        for x in &self.decls {
            d.declare(*x);
        }
        if self.refuse {
            Err(ExecutorError::Builder("refused".to_string()))
        } else {
            Ok(())
        }
    }
}

fn declaring(decls: Vec<&'static str>, refuse: bool, asked: &Arc<AtomicUsize>) -> Declaring {
    Declaring { decls, refuse, asked: Arc::clone(asked) }
}

fn inline_executor<I>() -> Executor<I, &'static str> {
    Executor::<I, &'static str>::builder().worker_threads(0).build()
}

#[test]
fn add_returns_unique_ids() {
    let mut exec = inline_executor();
    let a = exec.add(Work(1)).unwrap();
    let b = exec.add(Work(2)).unwrap();
    assert_ne!(a, b);
}

#[test]
fn custom_id_is_preserved() {
    let mut exec = inline_executor();
    let id = exec.add_with_id("my-task".into(), Work(1)).unwrap();
    assert_eq!(id.as_str(), "my-task");
}

#[test]
fn declare_triggers_called_at_add_time() {
    let asked = Arc::new(AtomicUsize::new(0));
    let mut exec = inline_executor();
    exec.add(declaring(vec!["interval", "subscriber"], false, &asked)).unwrap();
    assert_eq!(asked.load(Ordering::SeqCst), 1);
    assert_eq!(exec.task(0).decls, vec!["interval", "subscriber"]);
    assert!(matches!(exec.task(0).kind, TaskKind::Single(_)));
}

#[test]
fn refused_declaration_refuses_the_item() {
    let asked = Arc::new(AtomicUsize::new(0));
    let mut exec = inline_executor();
    let err = exec.add(declaring(vec!["x"], true, &asked)).expect_err("refused");
    assert_eq!(err.to_string(), "builder error: refused");
    assert_eq!(exec.len(), 0);
    // The number was used all the same.
    let next = exec.add(declaring(vec![], false, &asked)).unwrap();
    assert_eq!(next.as_str(), "task-1");
}

#[test]
fn generated_ids_count_up_across_kinds() {
    let mut exec = inline_executor();
    let a = exec.add(Work(1)).unwrap();
    let c = exec.add_chain(vec![Work(2), Work(3)]).unwrap();
    let mut b = GraphBuilder::new();
    let v = b.vertex(Work(4));
    b.root(v);
    let g = exec.add_graph(b, None).unwrap();
    assert_eq!(a.as_str(), "task-0");
    assert_eq!(c.as_str(), "chain-1");
    assert_eq!(g.as_str(), "graph-2");
    assert_eq!(exec.len(), 3);
}

#[test]
fn empty_chain_is_refused_but_consumes_a_number() {
    let mut exec = inline_executor();
    let err = exec.add_chain(Vec::<Work>::new()).expect_err("empty chain");
    assert!(matches!(err, ExecutorError::Builder(_)));
    assert_eq!(err.to_string(), "builder error: chain must contain at least one item");
    assert_eq!(exec.len(), 0);
    let next = exec.add(Work(1)).unwrap();
    assert_eq!(next.as_str(), "task-1");
}

#[test]
fn chain_head_gates_and_other_declarations_are_ignored() {
    let asked = Arc::new(AtomicUsize::new(0));
    let mut exec = inline_executor();
    let chain = vec![
        declaring(vec!["head"], false, &asked),
        declaring(vec!["ignored"], false, &asked),
        declaring(vec![], false, &asked),
    ];
    exec.add_chain_with_id(TaskId::new("c"), chain).unwrap();
    assert_eq!(asked.load(Ordering::SeqCst), 3);
    assert_eq!(exec.task(0).decls, vec!["head"]);
    match &exec.task(0).kind {
        TaskKind::Chain(items) => assert_eq!(items.len(), 3),
        _ => panic!("expected a chain"),
    }
}

#[test]
fn chain_with_refusing_head_is_refused_and_rest_not_asked() {
    let asked = Arc::new(AtomicUsize::new(0));
    let mut exec = inline_executor();
    let chain = vec![declaring(vec![], true, &asked), declaring(vec![], false, &asked)];
    let err = exec.add_chain_with_id(TaskId::new("c"), chain).expect_err("head refused");
    assert_eq!(err.to_string(), "builder error: refused");
    assert_eq!(asked.load(Ordering::SeqCst), 1);
    assert_eq!(exec.len(), 0);
}

#[test]
fn refusing_non_head_does_not_refuse_the_chain() {
    let asked = Arc::new(AtomicUsize::new(0));
    let mut exec = inline_executor();
    let chain = vec![declaring(vec![], false, &asked), declaring(vec![], true, &asked)];
    assert!(exec.add_chain_with_id(TaskId::new("c"), chain).is_ok());
    assert_eq!(exec.len(), 1);
}

#[test]
fn refused_graph_leaves_the_table_alone() {
    let mut exec = inline_executor();
    let b: GraphBuilder<Work> = GraphBuilder::new();
    let err = exec.add_graph(b, None).expect_err("empty graph");
    assert!(matches!(err, ExecutorError::InvalidGraph(_)));
    assert_eq!(exec.len(), 0);
    assert_eq!(exec.add(Work(1)).unwrap().as_str(), "task-0");
}

#[test]
fn invalid_graph_asks_no_vertex() {
    let asked = Arc::new(AtomicUsize::new(0));
    let mut exec = inline_executor();
    let mut b = GraphBuilder::new();
    b.vertex(declaring(vec![], false, &asked));
    assert!(exec.add_graph(b, None).is_err());
    assert_eq!(asked.load(Ordering::SeqCst), 0);
}

#[test]
fn graph_root_gates_and_refusal_refuses_the_graph() {
    let asked = Arc::new(AtomicUsize::new(0));
    let mut exec = inline_executor();
    let mut b = GraphBuilder::new();
    let r = b.vertex(declaring(vec!["root"], false, &asked));
    let l = b.vertex(declaring(vec!["ignored"], true, &asked));
    b.edge(r, l).root(r);
    let id = exec.add_graph(b, Some(TaskId::new("g"))).unwrap();
    assert_eq!(id.as_str(), "g");
    assert_eq!(asked.load(Ordering::SeqCst), 2);
    assert_eq!(exec.task(0).decls, vec!["root"]);

    let asked = Arc::new(AtomicUsize::new(0));
    let mut b = GraphBuilder::new();
    let r = b.vertex(declaring(vec![], true, &asked));
    let l = b.vertex(declaring(vec![], false, &asked));
    b.edge(r, l).root(r);
    let err = exec.add_graph(b, None).expect_err("root refused");
    assert_eq!(err.to_string(), "builder error: refused");
    assert_eq!(asked.load(Ordering::SeqCst), 1);
    assert_eq!(exec.len(), 1);
    assert_eq!(exec.add(declaring(vec![], false, &asked)).unwrap().as_str(), "task-0");
}

#[test]
fn graph_with_custom_id_keeps_it() {
    let mut exec = inline_executor();
    let mut b = GraphBuilder::new();
    let v = b.vertex(Work(4));
    b.root(v);
    let id = exec.add_graph(b, Some(TaskId::new("diamond"))).unwrap();
    assert_eq!(id.as_str(), "diamond");
    assert!(matches!(exec.task(0).kind, TaskKind::Graph(_)));
}

#[test]
fn builder_settings() {
    let b = ExecutorBuilder::new();
    assert!(!b.wants_ctrlc());
    assert!(b.resolved_workers() >= 1);
    let b = ExecutorBuilder::default().worker_threads(3).install_ctrlc(true);
    assert!(b.wants_ctrlc());
    assert_eq!(b.resolved_workers(), 3);
    let exec: Executor<Work, ()> = b.build();
    assert_eq!(exec.workers(), 3);
    assert!(!exec.is_running_now());
}

#[test]
fn stop_flag_is_shared() {
    let exec = inline_executor::<Work>();
    let s = exec.stoppable();
    assert!(!exec.stoppable().is_stopped());
    s.stop();
    assert!(exec.stoppable().is_stopped());
}

#[test]
fn registered_graph_keeps_its_edges() {
    let mut exec = inline_executor();
    let mut b = GraphBuilder::new();
    let a = b.vertex(Work(1));
    let l = b.vertex(Work(2));
    let r = b.vertex(Work(3));
    let m = b.vertex(Work(4));
    b.edge(a, l).edge(a, r).edge(l, m).edge(r, m).root(a);
    exec.add_graph(b, None).unwrap();
    match &exec.task(0).kind {
        TaskKind::Graph(g) => {
            assert_eq!(g.successors()[a.0], vec![l.0, r.0]);
            assert_eq!(g.successors()[m.0], Vec::<usize>::new());
            assert_eq!(g.in_degree(), &[0, 1, 1, 2]);
            assert_eq!(g.root(), a.0);
            assert_eq!(g.items()[m.0], Work(4));
        }
        _ => panic!("expected a graph task"),
    }
}
