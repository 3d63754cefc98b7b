//! The executor's task table and run-loop decisions.
//!
//! Items are registered here with the trigger declarations that their
//! `declare_triggers` produced; the executor names each task, keeps
//! registration order, and decides, after every wake-up of its wait set,
//! whether the run loop goes on. Waiting, the worker pool and the
//! inter-process services live with the caller.

use vstd::prelude::*;
use vstd::string::StringExecFns;

use crate::context::Stoppable;
use crate::error::ExecutorError;
use crate::graph::{adjacency_matches, graph_declared_from, graph_problem, problem_text, Graph, GraphBuilder};
use crate::task_id::{decimal, lemma_decimal_injective, push_decimal, TaskId};
use crate::trigger::{ask, asked_at, declares, ExecutableItem};

verus! {

/// The identifier generated for the `n`-th auto-named task with `prefix`.
pub open spec fn auto_id(prefix: Seq<char>, n: u64) -> Seq<char> {
    prefix + decimal(n as nat)
}

/// The prefixes of generated identifiers: single items, chains, graphs.
pub open spec fn is_id_prefix(p: Seq<char>) -> bool {
    p == "task-"@ || p == "chain-"@ || p == "graph-"@
}

/// The counter value after `n`: one more, wrapping at the top.
pub open spec fn next_counter(n: u64) -> u64 {
    if n == u64::MAX {
        0
    } else {
        (n + 1) as u64
    }
}

/// Generated identifiers never collide: two generated identifiers are equal
/// only when they have the same prefix and the same counter value.
pub proof fn lemma_auto_ids_distinct(p: Seq<char>, a: u64, q: Seq<char>, b: u64)
    requires
        is_id_prefix(p),
        is_id_prefix(q),
        auto_id(p, a) == auto_id(q, b),
    ensures
        p == q,
        a == b,
{
    reveal_strlit("task-");
    reveal_strlit("chain-");
    reveal_strlit("graph-");
    let x = auto_id(p, a);
    let y = auto_id(q, b);
    assert(x[0] == p[0]);
    assert(y[0] == q[0]);
    if p != q {
        assert(p[0] != q[0]);
    }
    assert(x.subrange(p.len() as int, x.len() as int) =~= decimal(a as nat));
    assert(y.subrange(q.len() as int, y.len() as int) =~= decimal(b as nat));
    lemma_decimal_injective(a as nat, b as nat);
}

/// The identifier `prefix` followed by the decimal rendering of `n`.
fn make_id(prefix: &str, n: u64) -> (r: TaskId)
    ensures
        r@ == auto_id(prefix@, n),
{
    let mut s = String::from_str(prefix);
    push_decimal(&mut s, n);
    TaskId::from_string(s)
}

/// What a task entry holds.
pub enum TaskKind<I> {
    /// A single item dispatched as one pool job.
    Single(I),
    /// A sequential chain of items walked by one pool job.
    Chain(Vec<I>),
    /// A graph of items dispatched in dependency order.
    Graph(Graph<I>),
}

/// One registered task: its identifier, its work, and the trigger
/// declarations recorded when it was added.
pub struct TaskEntry<I, D> {
    pub id: TaskId,
    pub kind: TaskKind<I>,
    pub decls: Vec<D>,
}

/// A chain registered from `items` holds, position by position, what
/// asking each item for its trigger declarations left of it: the head,
/// whose answer `decls` gates the chain, and each later item, whose answer
/// is ignored.
pub open spec fn chain_declared<D, I: ExecutableItem<D>>(items: Seq<I>, stored: Seq<I>, decls: Vec<D>) -> bool {
    &&& stored.len() == items.len()
    &&& items.len() > 0
    &&& declares(items[0], stored[0], Ok::<Vec<D>, ExecutorError>(decls))
    &&& forall|k: int| 1 <= k < items.len() ==> #[trigger] asked_at(items, stored, k)
}


/// The executor's task table, generic over the item type `I` and the
/// trigger-declaration type `D`.
pub struct Executor<I, D> {
    tasks: Vec<TaskEntry<I, D>>,
    next_id: u64,
    running: bool,
    stoppable: Stoppable,
    workers: usize,
}

/// Text of the error for an empty chain.
pub open spec fn empty_chain_text() -> Seq<char> {
    "chain must contain at least one item"@
}

impl<I, D> Executor<I, D> {
    /// Registered tasks in registration order.
    pub closed spec fn tasks(&self) -> Seq<TaskEntry<I, D>> {
        self.tasks@
    }

    /// The counter that numbers the next generated identifier.
    pub closed spec fn counter(&self) -> u64 {
        self.next_id
    }

    /// Whether a run is in progress.
    pub closed spec fn is_running(&self) -> bool {
        self.running
    }

    /// The executor's stop flag.
    pub closed spec fn stop_flag(&self) -> Stoppable {
        self.stoppable
    }

    /// Number of pool worker threads; zero runs every job inline.
    pub closed spec fn worker_count(&self) -> usize {
        self.workers
    }

    /// Number of pool worker threads; zero runs every job inline.
    pub fn workers(&self) -> (r: usize)
        ensures
            r == self.worker_count(),
    {
        self.workers
    }

    /// Number of registered tasks.
    pub fn len(&self) -> (r: usize)
        ensures
            r == self.tasks().len(),
    {
        self.tasks.len()
    }

    /// The task at position `i` in registration order.
    pub fn task(&self, i: usize) -> (r: &TaskEntry<I, D>)
        requires
            i < self.tasks().len(),
        ensures
            *r == self.tasks()[i as int],
    {
        &self.tasks[i]
    }

    fn take_counter(&mut self) -> (n: u64)
        ensures
            n == old(self).counter(),
            final(self).counter() == next_counter(n),
            final(self).tasks() == old(self).tasks(),
            final(self).is_running() == old(self).is_running(),
            final(self).stop_flag() == old(self).stop_flag(),
    {
        let n = self.next_id;
        self.next_id = if n == u64::MAX {
            0
        } else {
            n + 1
        };
        n
    }

    /// Register `item` under `id`, given what its trigger declaration
    /// produced: its error refuses the item and leaves the table as it was;
    /// its declarations are kept with the new entry.
    pub fn add_declared(&mut self, id: TaskId, item: I, declared: Result<Vec<D>, ExecutorError>) -> (r: Result<
        TaskId,
        ExecutorError,
    >)
        ensures
            final(self).counter() == old(self).counter(),
            final(self).is_running() == old(self).is_running(),
            final(self).stop_flag() == old(self).stop_flag(),
            declared matches Err(e) ==> r == Err::<TaskId, ExecutorError>(e) && final(self).tasks() == old(
                self,
            ).tasks(),
            declared matches Ok(v) ==> {
                &&& r matches Ok(rid) && rid@ == id@
                &&& final(self).tasks().len() == old(self).tasks().len() + 1
                &&& final(self).tasks().drop_last() == old(self).tasks()
                &&& final(self).tasks().last().id@ == id@
                &&& final(self).tasks().last().kind == TaskKind::Single(item)
                &&& final(self).tasks().last().decls == v
            },
    {
        match declared {
            Err(e) => Err(e),
            Ok(decls) => {
                let r = id.clone();
                self.tasks.push(TaskEntry { id, kind: TaskKind::Single(item), decls });
                proof {
                    assert(self.tasks@.drop_last() =~= old(self).tasks@);
                }
                Ok(r)
            },
        }
    }

    /// Add a single item under a caller-supplied identifier. The item is
    /// first asked for its trigger declarations; if it refuses, nothing is
    /// registered.
    pub fn add_with_id(&mut self, id: TaskId, item: I) -> (r: Result<TaskId, ExecutorError>)
        where
            I: ExecutableItem<D>,
        ensures
            final(self).counter() == old(self).counter(),
            final(self).is_running() == old(self).is_running(),
            final(self).stop_flag() == old(self).stop_flag(),
            r is Err ==> final(self).tasks() == old(self).tasks(),
            r matches Err(e) ==> exists|after: I| declares(item, after, Err::<Vec<D>, ExecutorError>(e)),
            r matches Ok(rid) ==> {
                &&& rid@ == id@
                &&& final(self).tasks().len() == old(self).tasks().len() + 1
                &&& final(self).tasks().drop_last() == old(self).tasks()
                &&& final(self).tasks().last().id@ == id@
                &&& final(self).tasks().last().kind matches TaskKind::Single(after) && declares(
                    item,
                    after,
                    Ok::<Vec<D>, ExecutorError>(final(self).tasks().last().decls),
                )
            },
    {
        let (item_after, declared) = ask(item);
        self.add_declared(id, item_after, declared)
    }

    /// Add a single item under a generated identifier `task-<n>`. The
    /// counter advances even when the item refuses its declaration.
    pub fn add(&mut self, item: I) -> (r: Result<TaskId, ExecutorError>)
        where
            I: ExecutableItem<D>,
        ensures
            final(self).counter() == next_counter(old(self).counter()),
            final(self).is_running() == old(self).is_running(),
            final(self).stop_flag() == old(self).stop_flag(),
            r is Err ==> final(self).tasks() == old(self).tasks(),
            r matches Err(e) ==> exists|after: I| declares(item, after, Err::<Vec<D>, ExecutorError>(e)),
            r matches Ok(id) ==> {
                &&& id@ == auto_id("task-"@, old(self).counter())
                &&& final(self).tasks().len() == old(self).tasks().len() + 1
                &&& final(self).tasks().drop_last() == old(self).tasks()
                &&& final(self).tasks().last().id@ == id@
                &&& final(self).tasks().last().kind matches TaskKind::Single(after) && declares(
                    item,
                    after,
                    Ok::<Vec<D>, ExecutorError>(final(self).tasks().last().decls),
                )
            },
    {
        let n = self.take_counter();
        let id = make_id("task-", n);
        self.add_with_id(id, item)
    }

    /// Register a non-empty chain under `id`, given what its head's trigger
    /// declaration produced: its error refuses the chain and leaves the
    /// table as it was; its declarations gate the chain.
    pub fn add_chain_declared(
        &mut self,
        id: TaskId,
        items: Vec<I>,
        head_declared: Result<Vec<D>, ExecutorError>,
    ) -> (r: Result<TaskId, ExecutorError>)
        requires
            items.len() > 0,
        ensures
            final(self).counter() == old(self).counter(),
            final(self).is_running() == old(self).is_running(),
            final(self).stop_flag() == old(self).stop_flag(),
            head_declared matches Err(e) ==> r == Err::<TaskId, ExecutorError>(e) && final(self).tasks()
                == old(self).tasks(),
            head_declared matches Ok(v) ==> {
                &&& r matches Ok(rid) && rid@ == id@
                &&& final(self).tasks().len() == old(self).tasks().len() + 1
                &&& final(self).tasks().drop_last() == old(self).tasks()
                &&& final(self).tasks().last().id@ == id@
                &&& final(self).tasks().last().kind == TaskKind::Chain(items)
                &&& final(self).tasks().last().decls == v
            },
    {
        match head_declared {
            Err(e) => Err(e),
            Ok(decls) => {
                let r = id.clone();
                self.tasks.push(TaskEntry { id, kind: TaskKind::Chain(items), decls });
                proof {
                    assert(self.tasks@.drop_last() =~= old(self).tasks@);
                }
                Ok(r)
            },
        }
    }

    /// Add a sequential chain under a caller-supplied identifier. An empty
    /// chain is refused before any item is asked anything. Otherwise the
    /// head is asked for its trigger declarations, which gate the chain; if
    /// it refuses, nothing is registered. When it accepts, every other item
    /// is asked too, and what they declare is ignored.
    pub fn add_chain_with_id(&mut self, id: TaskId, items: Vec<I>) -> (r: Result<TaskId, ExecutorError>)
        where
            I: ExecutableItem<D>,
        ensures
            final(self).counter() == old(self).counter(),
            final(self).is_running() == old(self).is_running(),
            final(self).stop_flag() == old(self).stop_flag(),
            items.len() == 0 ==> (r matches Err(ExecutorError::Builder(m)) && m@ == empty_chain_text()),
            r is Err ==> final(self).tasks() == old(self).tasks(),
            items.len() > 0 ==> (r matches Err(e) ==> exists|after: I|
                declares(items@[0], after, Err::<Vec<D>, ExecutorError>(e))),
            r matches Ok(rid) ==> {
                &&& rid@ == id@
                &&& final(self).tasks().len() == old(self).tasks().len() + 1
                &&& final(self).tasks().drop_last() == old(self).tasks()
                &&& final(self).tasks().last().id@ == id@
                &&& final(self).tasks().last().kind matches TaskKind::Chain(v) && chain_declared(
                    items@,
                    v@,
                    final(self).tasks().last().decls,
                )
            },
    {
        if items.len() == 0 {
            return Err(ExecutorError::Builder(String::from_str("chain must contain at least one item")));
        }
        let ghost orig = items@;
        let mut items = items;
        let n = items.len();
        let head = items.remove(0);
        let (head, head_declared) = ask(head);
        items.insert(0, head);
        proof {
            assert(items@ =~= orig.update(0, head));
        }
        if head_declared.is_ok() {
            let mut i: usize = 1;
            while i < items.len()
                invariant
                    items.len() == n,
                    orig.len() == n,
                    1 <= i <= n,
                    declares(orig[0], items@[0], head_declared),
                    forall|k: int| 1 <= k < i ==> #[trigger] asked_at::<D, I>(orig, items@, k),
                    forall|k: int| i <= k < n ==> #[trigger] items@[k] == orig[k],
                decreases items.len() - i,
            {
                let ghost before = items@;
                let y = items.remove(i);
                assert(y == orig[i as int]);
                let (x, ignored) = ask(y);
                items.insert(i, x);
                proof {
                    assert(items@ =~= before.update(i as int, x));
                    assert forall|k: int| 1 <= k < i + 1 implies #[trigger] asked_at::<D, I>(orig, items@, k) by {
                        if k == i {
                            assert(declares(orig[k], items@[k], ignored));
                        } else {
                            assert(asked_at::<D, I>(orig, before, k));
                            let o = choose|o: Result<Vec<D>, ExecutorError>| declares(orig[k], before[k], o);
                            assert(items@[k] == before[k]);
                            assert(declares(orig[k], items@[k], o));
                        }
                    }
                }
                i = i + 1;
            }
        }
        let ghost stored = items@;
        let r = self.add_chain_declared(id, items, head_declared);
        proof {
            if r is Ok {
                assert(forall|k: int| 1 <= k < orig.len() ==> #[trigger] asked_at::<D, I>(orig, stored, k));
            }
        }
        r
    }

    /// Add a sequential chain under a generated identifier `chain-<n>`. The
    /// counter advances even when the chain is refused.
    pub fn add_chain(&mut self, items: Vec<I>) -> (r: Result<TaskId, ExecutorError>)
        where
            I: ExecutableItem<D>,
        ensures
            final(self).counter() == next_counter(old(self).counter()),
            final(self).is_running() == old(self).is_running(),
            final(self).stop_flag() == old(self).stop_flag(),
            items.len() == 0 ==> (r matches Err(ExecutorError::Builder(m)) && m@ == empty_chain_text()),
            r is Err ==> final(self).tasks() == old(self).tasks(),
            items.len() > 0 ==> (r matches Err(e) ==> exists|after: I|
                declares(items@[0], after, Err::<Vec<D>, ExecutorError>(e))),
            r matches Ok(id) ==> {
                &&& id@ == auto_id("chain-"@, old(self).counter())
                &&& final(self).tasks().len() == old(self).tasks().len() + 1
                &&& final(self).tasks().drop_last() == old(self).tasks()
                &&& final(self).tasks().last().id@ == id@
                &&& final(self).tasks().last().kind matches TaskKind::Chain(v) && chain_declared(
                    items@,
                    v@,
                    final(self).tasks().last().decls,
                )
            },
    {
        let n = self.take_counter();
        let id = make_id("chain-", n);
        self.add_chain_with_id(id, items)
    }

    /// Register a graph, given what its validation and its root's trigger
    /// declaration produced: an error leaves the table and the counter as
    /// they were; otherwise the graph is registered under `custom_id`, or
    /// under a generated identifier `graph-<n>` when none is given, gated by
    /// the root's declarations.
    pub fn add_graph_declared(
        &mut self,
        finished: Result<(Graph<I>, Vec<D>), ExecutorError>,
        custom_id: Option<TaskId>,
    ) -> (r: Result<TaskId, ExecutorError>)
        ensures
            final(self).is_running() == old(self).is_running(),
            final(self).stop_flag() == old(self).stop_flag(),
            finished matches Err(e) ==> {
                &&& r == Err::<TaskId, ExecutorError>(e)
                &&& final(self).tasks() == old(self).tasks()
                &&& final(self).counter() == old(self).counter()
            },
            finished matches Ok((g, v)) ==> {
                &&& r matches Ok(id) && match custom_id {
                    Some(c) => id@ == c@ && final(self).counter() == old(self).counter(),
                    None => id@ == auto_id("graph-"@, old(self).counter()) && final(self).counter()
                        == next_counter(old(self).counter()),
                }
                &&& final(self).tasks().len() == old(self).tasks().len() + 1
                &&& final(self).tasks().drop_last() == old(self).tasks()
                &&& r matches Ok(id) && final(self).tasks().last().id@ == id@
                &&& final(self).tasks().last().kind == TaskKind::Graph(g)
                &&& final(self).tasks().last().decls == v
            },
    {
        let (g, decls) = match finished {
            Ok(f) => f,
            Err(e) => {
                return Err(e);
            },
        };
        let id = match custom_id {
            Some(c) => c,
            None => {
                let n = self.take_counter();
                make_id("graph-", n)
            },
        };
        let r = id.clone();
        self.tasks.push(TaskEntry { id, kind: TaskKind::Graph(g), decls });
        proof {
            assert(self.tasks@.drop_last() =~= old(self).tasks@);
        }
        Ok(r)
    }

    /// Validate a graph, ask its vertices for their trigger declarations
    /// (see `GraphBuilder::finish`) and register it under `custom_id`, or
    /// under a generated identifier `graph-<n>` when none is given. A
    /// refused graph leaves the table and the counter as they were.
    pub fn add_graph(&mut self, builder: GraphBuilder<I>, custom_id: Option<TaskId>) -> (r: Result<
        TaskId,
        ExecutorError,
    >)
        where
            I: ExecutableItem<D>,
        ensures
            final(self).is_running() == old(self).is_running(),
            final(self).stop_flag() == old(self).stop_flag(),
            graph_problem(builder@.items.len(), builder@.edges, builder@.root) matches Some(p) ==> (r matches Err(
                ExecutorError::InvalidGraph(m),
            ) && m@ == problem_text(p)),
            r is Err ==> final(self).tasks() == old(self).tasks() && final(self).counter() == old(
                self,
            ).counter(),
            graph_problem(builder@.items.len(), builder@.edges, builder@.root) is None ==> (r matches Err(e) ==> (
            builder@.root matches Some(rt) && exists|after: I|
                declares(builder@.items[rt as int], after, Err::<Vec<D>, ExecutorError>(e)))),
            r matches Ok(id) ==> {
                &&& graph_problem(builder@.items.len(), builder@.edges, builder@.root) is None
                &&& match custom_id {
                    Some(c) => id@ == c@ && final(self).counter() == old(self).counter(),
                    None => id@ == auto_id("graph-"@, old(self).counter()) && final(self).counter()
                        == next_counter(old(self).counter()),
                }
                &&& final(self).tasks().len() == old(self).tasks().len() + 1
                &&& final(self).tasks().drop_last() == old(self).tasks()
                &&& final(self).tasks().last().id@ == id@
                &&& final(self).tasks().last().kind matches TaskKind::Graph(g) && g.items_seq().len()
                    == builder@.items.len() && builder@.root == Some(g.root_index()) && adjacency_matches(
                    builder@.items.len() as nat,
                    g.succ_seq(),
                    g.in_degree_seq(),
                    builder@.edges,
                ) && graph_declared_from(
                    builder@.items,
                    g.items_seq(),
                    g.root_index() as int,
                    final(self).tasks().last().decls,
                )
            },
    {
        let finished = builder.finish::<D>();
        self.add_graph_declared(finished, custom_id)
    }

    /// Whether a run is in progress.
    pub fn is_running_now(&self) -> (r: bool)
        ensures
            r == self.is_running(),
    {
        self.running
    }

    pub(crate) fn set_running(&mut self, running: bool)
        ensures
            final(self).is_running() == running,
            final(self).tasks() == old(self).tasks(),
            final(self).counter() == old(self).counter(),
            final(self).stop_flag() == old(self).stop_flag(),
    {
        self.running = running;
    }

    /// A handle on the executor's stop flag; any clone, taken at any time,
    /// stops the run loop.
    pub fn stoppable(&self) -> (r: Stoppable)
        ensures
            r == self.stop_flag(),
    {
        self.stoppable.clone()
    }
}

/// Calls `num_cpus::get_physical`, the number of physical cores of the
/// machine. The crate documents that the result is always at least one;
/// nothing else about it is stated here, as it depends on the machine.
#[verifier::external_body]
fn physical_cores() -> (r: usize)
    ensures
        r >= 1,
{
    num_cpus::get_physical()
}

/// `n` is a physical-core count that `num_cpus::get_physical` reported:
/// the result of a call of `physical_cores`.
pub closed spec fn reported_physical_cores(n: usize) -> bool {
    call_ensures(physical_cores, (), n)
}

/// Configuration of an executor before it is built.
pub struct ExecutorBuilder {
    worker_threads: Option<usize>,
    install_ctrlc: bool,
}

impl ExecutorBuilder {
    /// The configured worker-thread count, if any.
    pub closed spec fn configured_workers(&self) -> Option<usize> {
        self.worker_threads
    }

    /// Whether a Ctrl-C handler is to be installed.
    pub closed spec fn ctrlc_requested(&self) -> bool {
        self.install_ctrlc
    }

    /// Defaults: one worker per physical core, no Ctrl-C handler.
    pub fn new() -> (r: ExecutorBuilder)
        ensures
            r.configured_workers() is None,
            !r.ctrlc_requested(),
    {
        ExecutorBuilder { worker_threads: None, install_ctrlc: false }
    }

    /// Number of worker threads; `0` runs every job inline.
    pub fn worker_threads(self, n: usize) -> (r: ExecutorBuilder)
        ensures
            r.configured_workers() == Some(n),
            r.ctrlc_requested() == self.ctrlc_requested(),
    {
        ExecutorBuilder { worker_threads: Some(n), ..self }
    }

    /// Whether to install a process-wide Ctrl-C handler that stops the run.
    pub fn install_ctrlc(self, yes: bool) -> (r: ExecutorBuilder)
        ensures
            r.configured_workers() == self.configured_workers(),
            r.ctrlc_requested() == yes,
    {
        ExecutorBuilder { install_ctrlc: yes, ..self }
    }

    /// Whether a Ctrl-C handler is to be installed.
    pub fn wants_ctrlc(&self) -> (r: bool)
        ensures
            r == self.ctrlc_requested(),
    {
        self.install_ctrlc
    }

    /// Build an executor: no tasks, the identifier counter at zero, not
    /// running, with the resolved worker count.
    pub fn build<I, D>(self) -> (r: Executor<I, D>)
        ensures
            r.tasks() == Seq::<TaskEntry<I, D>>::empty(),
            r.counter() == 0,
            !r.is_running(),
            self.configured_workers() matches Some(n) ==> r.worker_count() == n,
            self.configured_workers() is None ==> r.worker_count() >= 1 && reported_physical_cores(
                r.worker_count(),
            ),
    {
        let workers = self.resolved_workers();
        Executor { tasks: Vec::new(), next_id: 0, running: false, stoppable: Stoppable::new(), workers }
    }

    /// The worker count the pool is built with: the configured count, or
    /// the number of physical cores when none was configured.
    pub fn resolved_workers(&self) -> (r: usize)
        ensures
            self.configured_workers() matches Some(n) ==> r == n,
            self.configured_workers() is None ==> r >= 1 && reported_physical_cores(r),
    {
        match self.worker_threads {
            Some(n) => n,
            None => {
                let cores = physical_cores;
                cores()
            },
        }
    }
}

impl Default for ExecutorBuilder {
    fn default() -> (r: ExecutorBuilder)
        ensures
            r.configured_workers() is None,
            !r.ctrlc_requested(),
    {
        ExecutorBuilder::new()
    }
}

impl<I, D> Executor<I, D> {
    /// Start a builder.
    pub fn builder() -> (r: ExecutorBuilder)
        ensures
            r.configured_workers() is None,
            !r.ctrlc_requested(),
    {
        ExecutorBuilder::new()
    }
}

} // verus!
