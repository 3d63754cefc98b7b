use sonic::error::ExecutorError;
use sonic::graph::GraphBuilder;
use sonic::trigger::{ExecutableItem, TriggerDeclarer};

/// Stand-in for an executable item that declares no trigger.
#[derive(Debug)]
struct Work(&'static str);

impl<D> ExecutableItem<D> for Work {
    fn declare_triggers(&mut self, _d: &mut TriggerDeclarer<D>) -> Result<(), ExecutorError> {
        Ok(())
    }
}

fn item() -> Work {
    Work("continue")
}

#[test]
fn empty_graph_rejected() {
    let b: GraphBuilder<Work> = GraphBuilder::new();
    let err = b.finish::<()>().expect_err("empty graph");
    assert!(err.to_string().contains("no vertices"));
}

#[test]
fn missing_root_rejected() {
    let mut b = GraphBuilder::new();
    b.vertex(item());
    let err = b.finish::<()>().expect_err("missing root");
    assert!(err.to_string().contains("no root"));
}

#[test]
fn cycle_rejected() {
    let mut b = GraphBuilder::new();
    let a = b.vertex(item());
    let v = b.vertex(item());
    b.edge(a, v).edge(v, a).root(a);
    let err = b.finish::<()>().expect_err("cycle");
    assert!(err.to_string().contains("cycle"));
}

#[test]
fn unreachable_vertex_rejected() {
    let mut b = GraphBuilder::new();
    let a = b.vertex(item());
    let _orphan = b.vertex(item());
    b.root(a);
    let err = b.finish::<()>().expect_err("unreachable");
    assert!(err.to_string().contains("reachable"));
}

#[test]
#[allow(clippy::many_single_char_names)]
fn diamond_graph_builds() {
    let mut b = GraphBuilder::new();
    let r = b.vertex(item());
    let l = b.vertex(item());
    let rt = b.vertex(item());
    let m = b.vertex(item());
    b.edge(r, l).edge(r, rt).edge(l, m).edge(rt, m).root(r);
    let (g, _) = b.finish::<()>().expect("diamond");
    assert_eq!(g.successors()[r.0], vec![l.0, rt.0]);
    assert_eq!(g.in_degree()[m.0], 2);
}
