//! Dispatch bookkeeping for one run of a validated graph.
//!
//! The executor drives a graph run on a worker pool: it dispatches the
//! vertices that are ready, and each vertex, when it finishes, reports its
//! outcome here. This module decides which successors become ready, when a
//! stop cancels the rest of the graph, and when the run is complete. The
//! pool and the waiting live with the caller; every decision lives here.

use vstd::prelude::*;
use vstd::set_lib::*;

use crate::graph::{
    adjacency_matches, count_in, in_degree_of, is_edge, lemma_count_in_mark, lemma_count_in_zero,
    lemma_edge_problem_none, lemma_occ_pos, lemma_succ_list, occ, succ_list, Graph,
};

verus! {

/// What a vertex's `execute` returned.
#[derive(PartialEq, Eq, Structural, Clone, Copy, Debug)]
pub enum VertexOutcome {
    /// Continue with the successors.
    Continue,
    /// Stop the graph: no further vertex runs.
    StopChain,
    /// The item failed: no further vertex runs.
    Failed,
}

/// Marker stored in a cancelled vertex's counter.
pub const CANCELLED: usize = usize::MAX;

/// Counter and pending-count state of one graph run, with the ghost sets
/// that account for every vertex.
struct RunState {
    succ: Vec<Vec<usize>>,
    counters: Vec<usize>,
    pending: usize,
    stop: bool,
    stop_chain_seen: bool,
    edges: Ghost<Seq<(usize, usize)>>,
    released: Ghost<Set<int>>,
    finalized: Ghost<Set<int>>,
    cancelled: Ghost<Set<int>>,
    dispatched: Ghost<Set<int>>,
}

/// Copies a vector of vertex indices.
fn copy_indices(v: &Vec<usize>) -> (r: Vec<usize>)
    ensures
        r@ == v@,
{
    let mut r: Vec<usize> = Vec::new();
    let mut i: usize = 0;
    while i < v.len()
        invariant
            i <= v.len(),
            r@ == v@.take(i as int),
        decreases v.len() - i,
    {
        r.push(v[i]);
        i = i + 1;
        assert(r@ =~= v@.take(i as int));
    }
    assert(v@.take(i as int) =~= v@);
    r
}

proof fn lemma_count_in_antitone(edges: Seq<(usize, usize)>, v: int, d1: Set<int>, d2: Set<int>)
    requires
        d1.subset_of(d2),
    ensures
        count_in(edges, v, d2) <= count_in(edges, v, d1),
    decreases edges.len(),
{
    if edges.len() > 0 {
        lemma_count_in_antitone(edges.drop_last(), v, d1, d2);
    }
}

/// `v` is dispatched only after every edge into it comes from `released`.
proof fn lemma_pred_released(edges: Seq<(usize, usize)>, released: Set<int>, p: int, v: int)
    requires
        count_in(edges, v, released) == 0,
        is_edge(edges, p, v),
    ensures
        released.contains(p),
{
    lemma_count_in_zero(edges, v, released);
    let k = choose|k: int| 0 <= k < edges.len() && (#[trigger] edges[k]).0 == p && edges[k].1 == v;
}

/// `v` has a predecessor that is accounted for without having released
/// its successors.
pub open spec fn below_stopped(edges: Seq<(usize, usize)>, finalized: Set<int>, released: Set<int>, v: int) -> bool {
    exists|p: int| finalized.contains(p) && !released.contains(p) && #[trigger] is_edge(edges, p, v)
}

impl RunState {
    /// Number of vertices.
    spec fn n(&self) -> nat {
        self.succ@.len()
    }

    /// The edge list the run was built from.
    spec fn edges(&self) -> Seq<(usize, usize)> {
        self.edges@
    }

    /// Vertices that finished normally and released their successors.
    spec fn released(&self) -> Set<int> {
        self.released@
    }

    /// Vertices that are accounted for: ran, were skipped, or were cancelled.
    spec fn finalized(&self) -> Set<int> {
        self.finalized@
    }

    /// Vertices that were cancelled without running.
    spec fn cancelled(&self) -> Set<int> {
        self.cancelled@
    }

    /// Vertices handed out as ready.
    spec fn dispatched(&self) -> Set<int> {
        self.dispatched@
    }

    /// Vertices not yet accounted for.
    spec fn pending(&self) -> nat {
        self.pending as nat
    }

    /// A vertex stopped the run or failed.
    spec fn stopped(&self) -> bool {
        self.stop
    }

    /// A vertex returned `StopChain`.
    spec fn chain_stopped(&self) -> bool {
        self.stop_chain_seen
    }

    /// Bookkeeping invariant, without the downstream-cancellation clause.
    spec fn wf_core(&self) -> bool {
        let n = self.succ@.len();
        let e = self.edges@;
        &&& self.counters@.len() == n
        &&& forall|k: int| 0 <= k < e.len() ==> (#[trigger] e[k]).0 < n && e[k].1 < n && e[k].0 != e[k].1
        &&& forall|u: int| 0 <= u < n ==> (#[trigger] self.succ@[u])@ == succ_list(e, u)
        &&& forall|v: int| 0 <= v < n ==> #[trigger] in_degree_of(e, v) < CANCELLED
        &&& self.finalized@.finite()
        &&& forall|x: int| #[trigger] self.finalized@.contains(x) ==> 0 <= x < n
        &&& forall|x: int| #[trigger] self.dispatched@.contains(x) ==> 0 <= x < n
        &&& self.pending + self.finalized@.len() == n
        &&& self.released@.subset_of(self.finalized@)
        &&& self.cancelled@.subset_of(self.finalized@)
        &&& forall|x: int| #[trigger] self.finalized@.contains(x) ==> self.dispatched@.contains(x) || self.cancelled@.contains(x)
        &&& forall|x: int| #[trigger] self.dispatched@.contains(x) ==> !self.cancelled@.contains(x)
        &&& forall|v: int| 0 <= v < n ==> (#[trigger] self.counters@[v] == CANCELLED <==> self.cancelled@.contains(v))
        &&& forall|v: int| #[trigger] self.dispatched@.contains(v) ==> self.counters@[v] == 0 && count_in(e, v, self.released@) == 0
        &&& forall|v: int|
            0 <= v < n && !self.dispatched@.contains(v) && !self.cancelled@.contains(v) ==> #[trigger] self.counters@[v]
                == count_in(e, v, self.released@) && self.counters@[v] > 0
        &&& !self.stop ==> self.cancelled@ =~= Set::<int>::empty() && self.finalized@ =~= self.released@
        &&& self.stop_chain_seen ==> self.stop
    }

    /// Bookkeeping invariant: counters count unreleased predecessors, the
    /// pending count counts vertices not yet accounted for, and below every
    /// vertex that was stopped, skipped or cancelled nothing is left open.
    spec fn wf(&self) -> bool {
        &&& self.wf_core()
        &&& forall|k: int|
            0 <= k < self.edges@.len() && self.finalized@.contains((#[trigger] self.edges@[k]).0 as int)
                && !self.released@.contains(self.edges@[k].0 as int) ==> self.finalized@.contains(
                self.edges@[k].1 as int,
            )
    }

    /// Start a run of `graph`. Returns the run and the vertices that are
    /// ready at once: those without predecessors.
    fn new<I>(graph: &Graph<I>) -> (r: (RunState, Vec<usize>))
        requires
            graph.wf(),
            forall|v: int| 0 <= v < graph.in_degree_seq().len() ==> #[trigger] graph.in_degree_seq()[v] < CANCELLED,
        ensures
            r.0.wf(),
            r.0.n() == graph.items_seq().len(),
            adjacency_matches(r.0.n(), graph.succ_seq(), graph.in_degree_seq(), r.0.edges()),
            r.0.pending() == r.0.n(),
            !r.0.stopped(),
            !r.0.chain_stopped(),
            r.0.finalized() =~= Set::<int>::empty(),
            r.0.released() =~= Set::<int>::empty(),
            r.1@.no_duplicates(),
            forall|v: int| 0 <= v < r.0.n() ==> (r.1@.contains(v as usize) <==> #[trigger] in_degree_of(r.0.edges(), v) == 0),
            forall|j: int| 0 <= j < r.1.len() ==> #[trigger] r.1@[j] < r.0.n(),
            forall|v: int| #[trigger] r.0.dispatched().contains(v) <==> (0 <= v < r.0.n() && r.1@.contains(v as usize)),
    {
        let ghost e = choose|e: Seq<(usize, usize)>|
            #[trigger] adjacency_matches(graph.items_seq().len() as nat, graph.succ_seq(), graph.in_degree_seq(), e);
        let successors = graph.successors();
        let in_degree = graph.in_degree();
        let n = successors.len();
        proof {
            lemma_edge_problem_none(n as nat, e);
        }
        let mut succ: Vec<Vec<usize>> = Vec::new();
        let mut counters: Vec<usize> = Vec::new();
        let mut ready: Vec<usize> = Vec::new();
        let mut i: usize = 0;
        while i < n
            invariant
                i <= n,
                n == successors@.len(),
                n == in_degree@.len(),
                successors@ == graph.succ_seq(),
                in_degree@ == graph.in_degree_seq(),
                adjacency_matches(graph.items_seq().len() as nat, graph.succ_seq(), graph.in_degree_seq(), e),
                succ.len() == i,
                counters.len() == i,
                forall|u: int| 0 <= u < i ==> (#[trigger] succ@[u])@ == succ_list(e, u),
                forall|v: int| 0 <= v < i ==> #[trigger] counters@[v] == graph.in_degree_seq()[v],
                ready@.no_duplicates(),
                forall|j: int| 0 <= j < ready.len() ==> #[trigger] ready@[j] < i,
                forall|v: int| 0 <= v < i ==> (ready@.contains(v as usize) <==> #[trigger] counters@[v] == 0),
            decreases n - i,
        {
            succ.push(copy_indices(&successors[i]));
            let d = in_degree[i];
            counters.push(d);
            let ghost q1 = ready@;
            if d == 0 {
                ready.push(i);
                assert(!q1.contains(i)) by {
                    if q1.contains(i) {
                        let j = choose|j: int| 0 <= j < q1.len() && q1[j] == i;
                    }
                }
            }
            i = i + 1;
            assert forall|v: int| 0 <= v < i implies (ready@.contains(v as usize) <==> #[trigger] counters@[v] == 0) by {
                if v < i - 1 {
                    if ready@.contains(v as usize) {
                        let j = choose|j: int| 0 <= j < ready.len() && ready@[j] == v as usize;
                        if !(d == 0 && j == ready.len() - 1) {
                            assert(q1[j] == ready@[j]);
                        }
                    }
                    if q1.contains(v as usize) {
                        let j = choose|j: int| 0 <= j < q1.len() && q1[j] == v as usize;
                        assert(ready@[j] == q1[j]);
                    }
                } else {
                    if d == 0 {
                        assert(ready@[ready.len() - 1] == v as usize);
                    } else if ready@.contains(v as usize) {
                        let j = choose|j: int| 0 <= j < ready.len() && ready@[j] == v as usize;
                        assert(q1[j] == ready@[j]);
                    }
                }
            }
        }
        let ghost disp = Set::new(|v: int| 0 <= v < n && ready@.contains(v as usize));
        let run = RunState {
            succ,
            counters,
            pending: n,
            stop: false,
            stop_chain_seen: false,
            edges: Ghost(e),
            released: Ghost(Set::empty()),
            finalized: Ghost(Set::empty()),
            cancelled: Ghost(Set::empty()),
            dispatched: Ghost(disp),
        };
        proof {
            assert(run.finalized@.len() == 0);
            assert forall|v: int| #[trigger] run.dispatched@.contains(v) implies run.counters@[v] == 0 && count_in(e, v, run.released@) == 0 by {
                assert(run.counters@[v] == graph.in_degree_seq()[v]);
            }
            assert forall|v: int|
                0 <= v < n && !run.dispatched@.contains(v) && !run.cancelled@.contains(v) implies #[trigger] run.counters@[v]
                    == count_in(e, v, run.released@) && run.counters@[v] > 0 by {
                assert(run.counters@[v] == graph.in_degree_seq()[v]);
            }
            assert forall|v: int| 0 <= v < n implies #[trigger] in_degree_of(e, v) < CANCELLED by {
                assert(graph.in_degree_seq()[v] == in_degree_of(e, v));
            }
            assert forall|v: int| 0 <= v < n implies (#[trigger] run.counters@[v] == CANCELLED <==> run.cancelled@.contains(v)) by {
                assert(graph.in_degree_seq()[v] < CANCELLED);
            }
            assert(run.wf_core());
            assert forall|v: int| 0 <= v < n implies (ready@.contains(v as usize) <==> #[trigger] in_degree_of(e, v) == 0) by {
                assert(run.counters@[v] == graph.in_degree_seq()[v]);
            }
        }
        (run, ready)
    }

    /// A vertex stopped the run or failed; further vertices are skipped.
    fn is_stopped(&self) -> (r: bool)
        ensures
            r == self.stopped(),
    {
        self.stop
    }

    /// Whether a vertex returned `StopChain`.
    fn stopped_chain(&self) -> (r: bool)
        ensures
            r == self.chain_stopped(),
    {
        self.stop_chain_seen
    }

    /// Whether every vertex is accounted for.
    fn is_complete(&self) -> (r: bool)
        requires
            self.wf(),
        ensures
            r == (self.pending() == 0),
            r <==> (forall|v: int| 0 <= v < self.n() ==> #[trigger] self.finalized().contains(v)),
    {
        proof {
            self.lemma_all_finalized();
        }
        self.pending == 0
    }

    proof fn lemma_all_finalized(&self)
        requires
            self.finalized@.finite(),
            forall|x: int| #[trigger] self.finalized@.contains(x) ==> 0 <= x < self.succ@.len(),
            self.pending + self.finalized@.len() == self.succ@.len(),
        ensures
            (self.pending == 0) <==> (forall|v: int| 0 <= v < self.n() ==> #[trigger] self.finalized().contains(v)),
    {
        let n = self.succ@.len();
        lemma_int_range(0, n as int);
        assert(self.finalized@.subset_of(set_int_range(0, n as int)));
        lemma_len_subset(self.finalized@, set_int_range(0, n as int));
        if self.pending == 0 {
            lemma_subset_equality(self.finalized@, set_int_range(0, n as int));
            assert forall|v: int| 0 <= v < n implies #[trigger] self.finalized().contains(v) by {
                assert(set_int_range(0, n as int).contains(v));
            }
        }
        if forall|v: int| 0 <= v < n ==> #[trigger] self.finalized().contains(v) {
            assert forall|x: int| set_int_range(0, n as int).contains(x) implies #[trigger] self.finalized@.contains(x) by {
                assert(self.finalized().contains(x));
            }
            lemma_len_subset(set_int_range(0, n as int), self.finalized@);
        }
    }

    /// A vertex outside `finalized` leaves room in the pending count.
    proof fn lemma_pending_pos(&self, u: int)
        requires
            self.wf_core(),
            0 <= u < self.n(),
            !self.finalized@.contains(u),
        ensures
            self.pending > 0,
    {
        let n = self.succ@.len();
        lemma_int_range(0, n as int);
        assert(self.finalized@.insert(u).subset_of(set_int_range(0, n as int)));
        lemma_len_subset(self.finalized@.insert(u), set_int_range(0, n as int));
    }

    /// Cancel `start` and everything below it that is not yet accounted
    /// for. Returns whether this call accounted for the last vertex.
    fn cancel_subtree(&mut self, start: usize) -> (done: bool)
        requires
            old(self).wf_core(),
            old(self).stop,
            start < old(self).succ@.len(),
            below_stopped(old(self).edges@, old(self).finalized@, old(self).released@, start as int),
        ensures
            final(self).wf_core(),
            final(self).stop,
            final(self).stop_chain_seen == old(self).stop_chain_seen,
            final(self).succ@ == old(self).succ@,
            final(self).edges@ == old(self).edges@,
            final(self).released@ == old(self).released@,
            final(self).dispatched@ == old(self).dispatched@,
            old(self).finalized@.subset_of(final(self).finalized@),
            final(self).finalized@.contains(start as int),
            forall|k: int|
                0 <= k < final(self).edges@.len() && final(self).finalized@.contains(
                    (#[trigger] final(self).edges@[k]).0 as int,
                ) && !old(self).finalized@.contains(final(self).edges@[k].0 as int)
                    ==> final(self).finalized@.contains(final(self).edges@[k].1 as int),
            done == (old(self).pending > 0 && final(self).pending == 0),
    {
        let ghost f0 = self.finalized@;
        let ghost p0 = self.pending;
        let ghost e = self.edges@;
        let ghost r0 = self.released@;
        let ghost d0 = self.dispatched@;
        let ghost s0 = self.succ@;
        let ghost c0 = self.stop_chain_seen;
        let n = self.succ.len();
        let mut stack: Vec<usize> = Vec::new();
        stack.push(start);
        assert(stack@[0] == start);
        proof {
            lemma_int_range(0, n as int);
        }
        loop
            invariant
                self.wf_core(),
                self.stop,
                c0 == old(self).stop_chain_seen,
                s0 == old(self).succ@,
                e == old(self).edges@,
                r0 == old(self).released@,
                d0 == old(self).dispatched@,
                f0 == old(self).finalized@,
                p0 == old(self).pending,
                self.stop_chain_seen == c0,
                self.succ@ == s0,
                n == s0.len(),
                self.edges@ == e,
                self.released@ == r0,
                self.dispatched@ == d0,
                r0.subset_of(f0),
                f0.subset_of(self.finalized@),
                p0 > 0 ==> self.pending > 0,
                p0 == 0 ==> self.pending == 0,
                self.pending <= p0,
                forall|j: int| 0 <= j < stack.len() ==> #[trigger] stack@[j] < n,
                forall|j: int| 0 <= j < stack.len() ==> below_stopped(e, self.finalized@, r0, #[trigger] stack@[j] as int),
                forall|k: int|
                    0 <= k < e.len() && self.finalized@.contains((#[trigger] e[k]).0 as int) && !f0.contains(
                        e[k].0 as int,
                    ) ==> self.finalized@.contains(e[k].1 as int) || stack@.contains(e[k].1),
                self.finalized@.contains(start as int) || stack@.contains(start),
                set_int_range(0, n as int).finite(),
                set_int_range(0, n as int).len() == n,
            ensures
                self.wf_core(),
                self.stop,
                self.stop_chain_seen == c0,
                self.succ@ == s0,
                self.edges@ == e,
                self.released@ == r0,
                self.dispatched@ == d0,
                f0.subset_of(self.finalized@),
                self.finalized@.contains(start as int),
                forall|k: int|
                    0 <= k < e.len() && self.finalized@.contains((#[trigger] e[k]).0 as int) && !f0.contains(
                        e[k].0 as int,
                    ) ==> self.finalized@.contains(e[k].1 as int),
                p0 == 0 ==> self.pending == 0,
                p0 > 0 ==> self.pending > 0,
            decreases n - self.finalized@.len(), stack.len(),
        {
            proof {
                assert(self.finalized@.subset_of(set_int_range(0, n as int)));
                lemma_len_subset(self.finalized@, set_int_range(0, n as int));
            }
            let ghost st0 = stack@;
            let top = stack.pop();
            match top {
                None => {
                    break;
                },
                Some(u) => {
                    assert(st0 =~= stack@.push(u));
                    assert(st0[st0.len() - 1] == u);
                    assert forall|x: usize| #[trigger] st0.contains(x) implies stack@.contains(x) || x == u by {
                        let j = choose|j: int| 0 <= j < st0.len() && st0[j] == x;
                        if j < st0.len() - 1 {
                            assert(stack@[j] == st0[j]);
                        }
                    }
                    assert forall|j: int| 0 <= j < stack.len() implies below_stopped(e, self.finalized@, r0, #[trigger] stack@[j] as int) by {
                        assert(stack@[j] == st0[j]);
                    }
                    if self.counters[u] != CANCELLED {
                        assert(below_stopped(e, self.finalized@, r0, u as int));
                        let ghost pu = choose|p: int|
                            self.finalized@.contains(p) && !r0.contains(p) && #[trigger] is_edge(e, p, u as int);
                        proof {
                            if self.dispatched@.contains(u as int) {
                                lemma_pred_released(e, r0, pu, u as int);
                            }
                            assert(!self.finalized@.contains(u as int));
                            assert(!r0.contains(u as int));
                            self.lemma_pending_pos(u as int);
                        }
                        let ghost old_fin = self.finalized@;
                        self.counters.set(u, CANCELLED);
                        proof {
                            self.cancelled@ = self.cancelled@.insert(u as int);
                            self.finalized@ = self.finalized@.insert(u as int);
                        }
                        self.pending = self.pending - 1;
                        if self.pending == 0 {
                            proof {
                                self.lemma_all_finalized();
                                assert forall|k: int|
                                    0 <= k < e.len() && self.finalized@.contains((#[trigger] e[k]).0 as int)
                                        implies self.finalized@.contains(e[k].1 as int) by {
                                    assert(self.finalized().contains(e[k].1 as int));
                                }
                                assert(self.finalized().contains(start as int));
                                assert(self.stop_chain_seen == c0);
                            }
                            return true;
                        }
                        let ghost st1 = stack@;
                        assert forall|jj: int| 0 <= jj < st1.len() implies below_stopped(e, self.finalized@, r0, #[trigger] st1[jj] as int) by {
                            assert(st1[jj] == stack@[jj]);
                            let p = choose|p: int| old_fin.contains(p) && !r0.contains(p) && #[trigger] is_edge(e, p, st1[jj] as int);
                            assert(self.finalized@.contains(p));
                        }
                        let len = self.succ[u].len();
                        proof {
                            lemma_succ_list(e, u as int);
                        }
                        let mut j: usize = 0;
                        while j < len
                            invariant
                                u < n,
                                self.succ@ == s0,
                                n == s0.len(),
                                len == s0[u as int]@.len(),
                                s0[u as int]@ == succ_list(e, u as int),
                                forall|jj: int| #![trigger succ_list(e, u as int)[jj]] 0 <= jj < succ_list(e, u as int).len() ==> is_edge(e, u as int, succ_list(e, u as int)[jj] as int),
                                forall|k: int| 0 <= k < e.len() ==> (#[trigger] e[k]).0 < n && e[k].1 < n && e[k].0 != e[k].1,
                                j <= len,
                                stack@ =~= st1 + s0[u as int]@.take(j as int),
                            decreases len - j,
                        {
                            let v = self.succ[u][j];
                            stack.push(v);
                            j = j + 1;
                            assert(stack@ =~= st1 + s0[u as int]@.take(j as int));
                        }
                        assert(s0[u as int]@.take(len as int) =~= s0[u as int]@);
                        assert forall|jj: int| 0 <= jj < stack.len() implies #[trigger] stack@[jj] < n && below_stopped(e, self.finalized@, r0, stack@[jj] as int) by {
                            if jj >= st1.len() {
                                let t = jj - st1.len();
                                assert(stack@[jj] == succ_list(e, u as int)[t]);
                                assert(is_edge(e, u as int, stack@[jj] as int));
                                assert(self.finalized@.contains(u as int));
                                assert(!r0.contains(u as int));
                            } else {
                                assert(stack@[jj] == st1[jj]);
                            }
                        }
                        assert forall|x: usize| #[trigger] st1.contains(x) implies stack@.contains(x) by {
                            let jj = choose|jj: int| 0 <= jj < st1.len() && st1[jj] == x;
                            assert(stack@[jj] == st1[jj]);
                        }
                        assert forall|k: int|
                            0 <= k < e.len() && self.finalized@.contains((#[trigger] e[k]).0 as int) && !f0.contains(
                                e[k].0 as int,
                            ) implies self.finalized@.contains(e[k].1 as int) || stack@.contains(e[k].1) by {
                            if e[k].0 == u {
                                assert(succ_list(e, u as int).contains(e[k].1));
                                let jj = choose|jj: int| 0 <= jj < succ_list(e, u as int).len() && succ_list(e, u as int)[jj] == e[k].1;
                                assert(stack@[st1.len() + jj] == e[k].1);
                            }
                        }
                    }
                },
            }
        }
        false
    }

    /// Cancel everything below the stopped vertex `i`.
    fn cancel_successors(&mut self, i: usize)
        requires
            old(self).wf_core(),
            old(self).stop,
            i < old(self).succ@.len(),
            old(self).finalized@.contains(i as int),
            !old(self).released@.contains(i as int),
            forall|k: int|
                0 <= k < old(self).edges@.len() && old(self).finalized@.contains((#[trigger] old(self).edges@[k]).0 as int)
                    && !old(self).released@.contains(old(self).edges@[k].0 as int) && old(self).edges@[k].0 != i
                    ==> old(self).finalized@.contains(old(self).edges@[k].1 as int),
        ensures
            final(self).wf(),
            final(self).stop,
            final(self).stop_chain_seen == old(self).stop_chain_seen,
            final(self).succ@ == old(self).succ@,
            final(self).edges@ == old(self).edges@,
            final(self).released@ == old(self).released@,
            final(self).dispatched@ == old(self).dispatched@,
            old(self).finalized@.subset_of(final(self).finalized@),
            old(self).pending > 0 ==> (final(self).pending == 0 <==> old(self).pending > 0 && final(self).pending == 0),
    {
        let ghost e = self.edges@;
        let ghost f0 = self.finalized@;
        let ghost r0 = self.released@;
        let ghost s0 = self.succ@;
        let len = self.succ[i].len();
        proof {
            lemma_succ_list(e, i as int);
        }
        let mut j: usize = 0;
        while j < len
            invariant
                self.wf_core(),
                self.stop,
                self.stop_chain_seen == old(self).stop_chain_seen,
                self.succ@ == s0,
                i < s0.len(),
                self.edges@ == e,
                self.released@ == r0,
                self.dispatched@ == old(self).dispatched@,
                f0.subset_of(self.finalized@),
                self.finalized@.contains(i as int),
                !r0.contains(i as int),
                old(self).pending > 0 ==> self.pending >= 0,
                len == s0[i as int]@.len(),
                s0[i as int]@ == succ_list(e, i as int),
                forall|jj: int| #![trigger succ_list(e, i as int)[jj]] 0 <= jj < succ_list(e, i as int).len() ==> is_edge(e, i as int, succ_list(e, i as int)[jj] as int),
                j <= len,
                forall|jj: int| 0 <= jj < j ==> self.finalized@.contains(#[trigger] succ_list(e, i as int)[jj] as int),
                forall|k: int|
                    0 <= k < e.len() && self.finalized@.contains((#[trigger] e[k]).0 as int)
                        && !r0.contains(e[k].0 as int) && e[k].0 != i ==> self.finalized@.contains(e[k].1 as int),
            decreases len - j,
        {
            let v = self.succ[i][j];
            assert(is_edge(e, i as int, v as int));
            assert(below_stopped(e, self.finalized@, r0, v as int));
            let ghost fb = self.finalized@;
            proof {
                let k = choose|k: int| 0 <= k < e.len() && (#[trigger] e[k]).0 == i as int && e[k].1 == v as int;
            }
            self.cancel_subtree(v);
            j = j + 1;
            assert forall|k: int|
                0 <= k < e.len() && self.finalized@.contains((#[trigger] e[k]).0 as int)
                    && !r0.contains(e[k].0 as int) && e[k].0 != i implies self.finalized@.contains(e[k].1 as int) by {
                if fb.contains(e[k].0 as int) {
                    assert(fb.contains(e[k].1 as int));
                }
            }
            assert forall|jj: int| 0 <= jj < j implies self.finalized@.contains(#[trigger] succ_list(e, i as int)[jj] as int) by {
                if jj < j - 1 {
                    assert(fb.contains(succ_list(e, i as int)[jj] as int));
                }
            }
        }
        assert forall|k: int|
            0 <= k < e.len() && self.finalized@.contains((#[trigger] e[k]).0 as int) && !self.released@.contains(e[k].0 as int)
                implies self.finalized@.contains(e[k].1 as int) by {
            if e[k].0 == i {
                assert(succ_list(e, i as int).contains(e[k].1));
                let jj = choose|jj: int| 0 <= jj < succ_list(e, i as int).len() && succ_list(e, i as int)[jj] == e[k].1;
            }
        }
    }

    /// A dispatched vertex was skipped because the run had already
    /// stopped: account for it and cancel everything below it. Returns
    /// whether the run is now complete.
    fn skip(&mut self, i: usize) -> (done: bool)
        requires
            old(self).wf(),
            old(self).stopped(),
            i < old(self).n(),
            old(self).dispatched().contains(i as int),
            !old(self).finalized().contains(i as int),
        ensures
            final(self).wf(),
            final(self).stopped(),
            final(self).chain_stopped() == old(self).chain_stopped(),
            final(self).n() == old(self).n(),
            final(self).edges() == old(self).edges(),
            final(self).released() == old(self).released(),
            final(self).dispatched() == old(self).dispatched(),
            old(self).finalized().insert(i as int).subset_of(final(self).finalized()),
            done == (final(self).pending() == 0),
    {
        proof {
            self.lemma_pending_pos(i as int);
        }
        proof {
            self.finalized@ = self.finalized@.insert(i as int);
        }
        self.pending = self.pending - 1;
        if self.pending == 0 {
            proof {
                self.lemma_all_finalized();
                let e = self.edges@;
                assert forall|k: int|
                    0 <= k < e.len() && self.finalized@.contains((#[trigger] e[k]).0 as int)
                        && !self.released@.contains(e[k].0 as int) implies self.finalized@.contains(e[k].1 as int) by {
                    assert(self.finalized().contains(e[k].1 as int));
                }
            }
            return true;
        }
        self.cancel_successors(i);
        self.pending == 0
    }

    /// Vertex `i` finished with `outcome`. Accounts for it; after a stop or
    /// a failure cancels everything below it; otherwise releases its
    /// successors and returns those that became ready. Also returns whether
    /// the run is now complete.
    fn complete(&mut self, i: usize, outcome: VertexOutcome) -> (r: (Vec<usize>, bool))
        requires
            old(self).wf(),
            i < old(self).n(),
            old(self).dispatched().contains(i as int),
            !old(self).finalized().contains(i as int),
        ensures
            final(self).wf(),
            final(self).stopped() == (old(self).stopped() || outcome != VertexOutcome::Continue),
            final(self).chain_stopped() == (old(self).chain_stopped() || outcome == VertexOutcome::StopChain),
            final(self).n() == old(self).n(),
            final(self).edges() == old(self).edges(),
            old(self).finalized().insert(i as int).subset_of(final(self).finalized()),
            final(self).released() == if final(self).stopped() {
                old(self).released()
            } else {
                old(self).released().insert(i as int)
            },
            !final(self).stopped() ==> final(self).finalized() == old(self).finalized().insert(i as int),
            final(self).stopped() ==> r.0.len() == 0,
            r.0@.no_duplicates(),
            forall|v: int|
                #![trigger r.0@.contains(v as usize)]
                0 <= v < final(self).n() ==> (r.0@.contains(v as usize) <==> (!old(self).dispatched().contains(v)
                    && is_edge(final(self).edges(), i as int, v) && count_in(final(self).edges(), v, final(self).released()) == 0
                    && !final(self).stopped() && final(self).pending() > 0)),
            forall|j: int| 0 <= j < r.0.len() ==> #[trigger] r.0@[j] < final(self).n(),
            forall|v: int|
                #[trigger] final(self).dispatched().contains(v) <==> (old(self).dispatched().contains(v) || (0 <= v
                    < final(self).n() && r.0@.contains(v as usize))),
            r.1 == (final(self).pending() == 0),
    {
        let ghost e = self.edges@;
        let ghost d0 = self.dispatched@;
        let ghost r0 = self.released@;
        match outcome {
            VertexOutcome::Continue => {},
            VertexOutcome::StopChain => {
                self.stop_chain_seen = true;
                self.stop = true;
            },
            VertexOutcome::Failed => {
                self.stop = true;
            },
        }
        proof {
            self.lemma_pending_pos(i as int);
            self.finalized@ = self.finalized@.insert(i as int);
            if !self.stop {
                self.released@ = self.released@.insert(i as int);
                assert forall|v: int| #[trigger] self.dispatched@.contains(v) implies count_in(e, v, self.released@) == 0 by {
                    lemma_count_in_antitone(e, v, r0, self.released@);
                }
            }
        }
        self.pending = self.pending - 1;
        if self.pending == 0 {
            proof {
                self.lemma_all_finalized();
                assert forall|k: int|
                    0 <= k < e.len() && self.finalized@.contains((#[trigger] e[k]).0 as int)
                        && !self.released@.contains(e[k].0 as int) implies self.finalized@.contains(e[k].1 as int) by {
                    assert(self.finalized().contains(e[k].1 as int));
                }
                assert forall|v: int| 0 <= v < self.n() implies self.dispatched@.contains(v) || #[trigger] self.cancelled@.contains(v) by {
                    assert(self.finalized().contains(v));
                }
            }
            return (Vec::new(), true);
        }
        if self.stop {
            self.cancel_successors(i);
            let done = self.pending == 0;
            return (Vec::new(), done);
        }
        let n = self.succ.len();
        let ghost s = self.succ@[i as int]@;
        proof {
            lemma_succ_list(e, i as int);
            assert forall|v: int| 0 <= v < n implies #[trigger] count_in(e, v, r0) == count_in(e, v, self.released@) + occ(s, v) by {
                lemma_count_in_mark(e, v, r0, i as int);
            }
            assert forall|v: int| #[trigger] d0.contains(v) implies occ(s, v) == 0 by {
                if occ(s, v) > 0 {
                    lemma_occ_pos(s, v);
                    let j = choose|j: int| 0 <= j < s.len() && s[j] == v as usize;
                    assert(is_edge(e, i as int, s[j] as int));
                    lemma_pred_released(e, r0, i as int, v);
                }
            }
            assert(s.skip(0) =~= s);
        }
        let mut ready: Vec<usize> = Vec::new();
        let len = self.succ[i].len();
        let mut j: usize = 0;
        while j < len
            invariant
                !self.stop,
                self.stop_chain_seen == old(self).stop_chain_seen,
                n == self.succ@.len(),
                i < n,
                e == self.edges@,
                self.edges@ == old(self).edges@,
                self.succ@ == old(self).succ@,
                forall|k: int| 0 <= k < e.len() ==> (#[trigger] e[k]).0 < n && e[k].1 < n && e[k].0 != e[k].1,
                forall|u: int| 0 <= u < n ==> (#[trigger] self.succ@[u])@ == succ_list(e, u),
                forall|v: int| 0 <= v < n ==> #[trigger] in_degree_of(e, v) < CANCELLED,
                s == self.succ@[i as int]@,
                s == succ_list(e, i as int),
                forall|jj: int| #![trigger s[jj]] 0 <= jj < s.len() ==> is_edge(e, i as int, s[jj] as int),
                len == s.len(),
                j <= len,
                self.counters@.len() == n,
                self.finalized@.finite(),
                forall|x: int| #[trigger] self.finalized@.contains(x) ==> 0 <= x < n,
                self.pending + self.finalized@.len() == n,
                self.pending > 0,
                self.finalized@ =~= self.released@,
                self.finalized@ == old(self).finalized@.insert(i as int),
                self.released@ == r0.insert(i as int),
                self.cancelled@ =~= Set::<int>::empty(),
                old(self).dispatched@.subset_of(self.dispatched@),
                d0 == old(self).dispatched@,
                forall|x: int| #[trigger] self.dispatched@.contains(x) ==> 0 <= x < n,
                forall|x: int| #[trigger] self.finalized@.contains(x) ==> self.dispatched@.contains(x),
                forall|v: int| 0 <= v < n ==> #[trigger] self.counters@[v] != CANCELLED,
                forall|v: int| #[trigger] self.dispatched@.contains(v) ==> self.counters@[v] == 0 && count_in(e, v, self.released@) == 0 && occ(s.skip(j as int), v) == 0,
                forall|v: int|
                    0 <= v < n && !self.dispatched@.contains(v) ==> #[trigger] self.counters@[v]
                        == count_in(e, v, self.released@) + occ(s.skip(j as int), v) && self.counters@[v] > 0,
                ready@.no_duplicates(),
                forall|jj: int| 0 <= jj < ready.len() ==> #[trigger] ready@[jj] < n,
                forall|v: int| #[trigger] self.dispatched@.contains(v) <==> (d0.contains(v) || (0 <= v < n && ready@.contains(v as usize))),
                forall|v: int| 0 <= v < n && #[trigger] ready@.contains(v as usize) ==> !d0.contains(v) && is_edge(e, i as int, v),
            decreases len - j,
        {
            let v0 = self.succ[i][j];
            proof {
                assert(is_edge(e, i as int, s[j as int] as int));
                assert(s.skip(j as int).drop_first() =~= s.skip(j + 1));
                assert(s.skip(j as int)[0] == v0);
                let k = choose|k: int| 0 <= k < e.len() && (#[trigger] e[k]).0 == i as int && e[k].1 == v0 as int;
            }
            assert(occ(s.skip(j as int), v0 as int) >= 1);
            assert(!self.dispatched@.contains(v0 as int));
            let c = self.counters[v0];
            self.counters.set(v0, c - 1);
            let ghost q1 = ready@;
            if c - 1 == 0 {
                ready.push(v0);
                assert(!q1.contains(v0)) by {
                    if q1.contains(v0) {
                        let jj = choose|jj: int| 0 <= jj < q1.len() && q1[jj] == v0;
                        assert(self.dispatched@.contains(v0 as int));
                    }
                }
                proof {
                    self.dispatched@ = self.dispatched@.insert(v0 as int);
                }
            }
            j = j + 1;
            assert forall|v: int| #[trigger] self.dispatched@.contains(v) <==> (d0.contains(v) || (0 <= v < n && ready@.contains(v as usize))) by {
                if ready@.contains(v as usize) && 0 <= v < n && v != v0 as int {
                    let jj = choose|jj: int| 0 <= jj < ready.len() && ready@[jj] == v as usize;
                    if c - 1 == 0 {
                        assert(q1[jj] == ready@[jj]);
                    }
                }
                if c - 1 == 0 && 0 <= v < n && q1.contains(v as usize) {
                    let jj = choose|jj: int| 0 <= jj < q1.len() && q1[jj] == v as usize;
                    assert(ready@[jj] == q1[jj]);
                }
                if c - 1 == 0 {
                    assert(ready@[ready.len() - 1] == v0);
                }
            }
            assert forall|v: int| 0 <= v < n && #[trigger] ready@.contains(v as usize) implies !d0.contains(v) && is_edge(e, i as int, v) by {
                if v != v0 as int {
                    let jj = choose|jj: int| 0 <= jj < ready.len() && ready@[jj] == v as usize;
                    if c - 1 == 0 {
                        assert(q1[jj] == ready@[jj]);
                    }
                    assert(q1.contains(v as usize));
                }
            }
        }
        proof {
            assert(s.skip(j as int) =~= Seq::<usize>::empty());
            assert forall|v: int|
                #![trigger ready@.contains(v as usize)]
                0 <= v < n implies (ready@.contains(v as usize) <==> (!d0.contains(v) && is_edge(e, i as int, v)
                    && count_in(e, v, self.released@) == 0)) by {
                if ready@.contains(v as usize) {
                    assert(self.dispatched@.contains(v));
                }
                if !d0.contains(v) && is_edge(e, i as int, v) && count_in(e, v, self.released@) == 0 {
                    if !self.dispatched@.contains(v) {
                        assert(self.counters@[v] == count_in(e, v, self.released@));
                    }
                }
            }
            assert forall|v: int| 0 <= v < n implies (#[trigger] self.counters@[v] == CANCELLED <==> self.cancelled@.contains(v)) by {
                if !self.dispatched@.contains(v) {
                    lemma_count_in_antitone(e, v, Set::empty(), self.released@);
                }
            }
            assert(self.wf_core());
        }
        (ready, false)
    }
}

/// Whether every vertex that was handed out had all its predecessors
/// finish normally and release it.
pub open spec fn dispatched_after_predecessors(
    edges: Seq<(usize, usize)>,
    dispatched: Set<int>,
    released: Set<int>,
) -> bool {
    forall|p: int, v: int| #[trigger] dispatched.contains(v) && #[trigger] is_edge(edges, p, v) ==> released.contains(p)
}

impl RunState {
    /// The state of a run of a graph without vertices: consistent, and a
    /// placeholder while a run's state is being updated.
    fn empty() -> (r: RunState)
        ensures
            r.wf(),
    {
        let r = RunState {
            succ: Vec::new(),
            counters: Vec::new(),
            pending: 0,
            stop: false,
            stop_chain_seen: false,
            edges: Ghost(Seq::empty()),
            released: Ghost(Set::empty()),
            finalized: Ghost(Set::empty()),
            cancelled: Ghost(Set::empty()),
            dispatched: Ghost(Set::empty()),
        };
        proof {
            assert(r.finalized@.len() == 0);
        }
        r
    }

    proof fn lemma_dispatched_after_predecessors(&self)
        requires
            self.wf(),
        ensures
            dispatched_after_predecessors(self.edges(), self.dispatched(), self.released()),
    {
        assert forall|p: int, v: int| #[trigger] self.dispatched@.contains(v) && #[trigger] is_edge(self.edges@, p, v)
            implies self.released@.contains(p) by {
            lemma_pred_released(self.edges@, self.released@, p, v);
        }
    }
}

/// One step of a run hands out `ready`: the handed-out set grows from `a`
/// to `b` by exactly the vertices of `ready`, none of which was handed out
/// before, each once.
pub open spec fn hands_out(a: Set<int>, b: Set<int>, ready: Seq<usize>) -> bool {
    &&& ready.no_duplicates()
    &&& forall|j: int| 0 <= j < ready.len() ==> !a.contains(#[trigger] ready[j] as int) && b.contains(ready[j] as int)
    &&& forall|v: int| #[trigger] b.contains(v) ==> a.contains(v) || exists|j: int| 0 <= j < ready.len() && ready[j] == v
    &&& a.subset_of(b)
}

proof fn lemma_handed_out_grows(ds: Seq<Set<int>>, rs: Seq<Seq<usize>>, k1: int, k2: int)
    requires
        ds.len() == rs.len() + 1,
        forall|k: int| 0 <= k < rs.len() ==> #[trigger] hands_out(ds[k], ds[k + 1], rs[k]),
        0 <= k1 <= k2 < ds.len(),
    ensures
        ds[k1].subset_of(ds[k2]),
    decreases k2 - k1,
{
    if k1 < k2 {
        lemma_handed_out_grows(ds, rs, k1, k2 - 1);
        let k = k2 - 1;
        assert(hands_out(ds[k], ds[k + 1], rs[k]));
    }
}

/// Over a whole run, no vertex is handed out twice: given the handed-out
/// sets `ds` of successive states, starting from none, and the lists `rs`
/// handed out by each step, any two entries of the lists, in one step or
/// in two, name different vertices.
pub proof fn lemma_each_vertex_handed_out_once(ds: Seq<Set<int>>, rs: Seq<Seq<usize>>)
    requires
        ds.len() == rs.len() + 1,
        forall|k: int| 0 <= k < rs.len() ==> #[trigger] hands_out(ds[k], ds[k + 1], rs[k]),
    ensures
        forall|k1: int, j1: int, k2: int, j2: int|
            0 <= k1 < rs.len() && 0 <= k2 < rs.len() && 0 <= j1 < rs[k1].len() && 0 <= j2 < rs[k2].len()
                && (k1 != k2 || j1 != j2) ==> #[trigger] rs[k1][j1] != #[trigger] rs[k2][j2],
{
    assert forall|k1: int, j1: int, k2: int, j2: int|
        0 <= k1 < rs.len() && 0 <= k2 < rs.len() && 0 <= j1 < rs[k1].len() && 0 <= j2 < rs[k2].len()
            && (k1 != k2 || j1 != j2) implies #[trigger] rs[k1][j1] != #[trigger] rs[k2][j2] by {
        assert(hands_out(ds[k1], ds[k1 + 1], rs[k1]));
        assert(hands_out(ds[k2], ds[k2 + 1], rs[k2]));
        if k1 == k2 {
        } else if k1 < k2 {
            lemma_handed_out_grows(ds, rs, k1 + 1, k2);
            assert(ds[k1 + 1].contains(rs[k1][j1] as int));
        } else {
            lemma_handed_out_grows(ds, rs, k2 + 1, k1);
            assert(ds[k2 + 1].contains(rs[k2][j2] as int));
        }
    }
}

/// One run of a graph: the vertices are handed out as they become ready
/// and accounted for as they finish, are skipped or are cancelled.
pub struct GraphRun {
    state: RunState,
}

impl GraphRun {
    /// The bookkeeping is consistent at every step of the run.
    #[verifier::type_invariant]
    spec fn inv(&self) -> bool {
        self.state.wf()
    }

    /// Number of vertices.
    pub closed spec fn n(&self) -> nat {
        self.state.n()
    }

    /// The edge list the run was built from.
    pub closed spec fn edges(&self) -> Seq<(usize, usize)> {
        self.state.edges()
    }

    /// Vertices that finished normally and released their successors.
    pub closed spec fn released(&self) -> Set<int> {
        self.state.released()
    }

    /// Vertices that are accounted for: ran, were skipped, or were cancelled.
    pub closed spec fn finalized(&self) -> Set<int> {
        self.state.finalized()
    }

    /// Vertices that were cancelled without running.
    pub closed spec fn cancelled(&self) -> Set<int> {
        self.state.cancelled()
    }

    /// Vertices handed out as ready.
    pub closed spec fn dispatched(&self) -> Set<int> {
        self.state.dispatched()
    }

    /// Vertices not yet accounted for.
    pub closed spec fn pending(&self) -> nat {
        self.state.pending()
    }

    /// A vertex stopped the run or failed.
    pub closed spec fn stopped(&self) -> bool {
        self.state.stopped()
    }

    /// A vertex returned `StopChain`.
    pub closed spec fn chain_stopped(&self) -> bool {
        self.state.chain_stopped()
    }

    /// Start a run of `graph`. Returns the run and the vertices that are
    /// ready at once: those without predecessors.
    pub fn new<I>(graph: &Graph<I>) -> (r: (GraphRun, Vec<usize>))
        requires
            forall|v: int| 0 <= v < graph.in_degree_seq().len() ==> #[trigger] graph.in_degree_seq()[v] < CANCELLED,
        ensures
            r.0.n() == graph.items_seq().len(),
            adjacency_matches(r.0.n(), graph.succ_seq(), graph.in_degree_seq(), r.0.edges()),
            r.0.pending() == r.0.n(),
            !r.0.stopped(),
            !r.0.chain_stopped(),
            r.0.finalized() =~= Set::<int>::empty(),
            r.0.released() =~= Set::<int>::empty(),
            r.1@.no_duplicates(),
            forall|v: int| 0 <= v < r.0.n() ==> (r.1@.contains(v as usize) <==> #[trigger] in_degree_of(r.0.edges(), v) == 0),
            forall|j: int| 0 <= j < r.1.len() ==> #[trigger] r.1@[j] < r.0.n(),
            forall|v: int| #[trigger] r.0.dispatched().contains(v) <==> (0 <= v < r.0.n() && r.1@.contains(v as usize)),
            dispatched_after_predecessors(r.0.edges(), r.0.dispatched(), r.0.released()),
            hands_out(Set::<int>::empty(), r.0.dispatched(), r.1@),
    {
        proof {
            use_type_invariant(graph);
        }
        let (state, ready) = RunState::new(graph);
        proof {
            state.lemma_dispatched_after_predecessors();
        }
        let run = GraphRun { state };
        proof {
            assert forall|v: int| #[trigger] run.dispatched().contains(v) implies Set::<int>::empty().contains(v)
                || exists|j: int| 0 <= j < ready@.len() && ready@[j] == v by {
                let j = choose|j: int| 0 <= j < ready@.len() && ready@[j] == v as usize;
            }
            assert forall|j: int| 0 <= j < ready@.len() implies !Set::<int>::empty().contains(
                #[trigger] ready@[j] as int,
            ) && run.dispatched().contains(ready@[j] as int) by {
                assert(ready@.contains(ready@[j]));
            }
        }
        (run, ready)
    }

    /// A vertex stopped the run or failed; further vertices are skipped.
    pub fn is_stopped(&self) -> (r: bool)
        ensures
            r == self.stopped(),
    {
        self.state.is_stopped()
    }

    /// Whether a vertex returned `StopChain`.
    pub fn stopped_chain(&self) -> (r: bool)
        ensures
            r == self.chain_stopped(),
    {
        self.state.stopped_chain()
    }

    /// Whether every vertex is accounted for.
    pub fn is_complete(&self) -> (r: bool)
        ensures
            r == (self.pending() == 0),
            r <==> (forall|v: int| 0 <= v < self.n() ==> #[trigger] self.finalized().contains(v)),
    {
        proof {
            use_type_invariant(self);
        }
        let r = self.state.is_complete();
        proof {
            if r {
                assert forall|v: int| 0 <= v < self.n() implies #[trigger] self.finalized().contains(v) by {
                    assert(self.state.finalized().contains(v));
                }
            } else {
                let v = choose|v: int| 0 <= v < self.state.n() && !#[trigger] self.state.finalized().contains(v);
                assert(!self.finalized().contains(v));
            }
        }
        r
    }

    /// A dispatched vertex was skipped because the run had already
    /// stopped: account for it and cancel everything below it. Returns
    /// whether the run is now complete.
    pub fn skip(&mut self, i: usize) -> (done: bool)
        requires
            old(self).stopped(),
            i < old(self).n(),
            old(self).dispatched().contains(i as int),
            !old(self).finalized().contains(i as int),
        ensures
            final(self).stopped(),
            final(self).chain_stopped() == old(self).chain_stopped(),
            final(self).n() == old(self).n(),
            final(self).edges() == old(self).edges(),
            final(self).released() == old(self).released(),
            final(self).dispatched() == old(self).dispatched(),
            old(self).finalized().insert(i as int).subset_of(final(self).finalized()),
            done == (final(self).pending() == 0),
            dispatched_after_predecessors(final(self).edges(), final(self).dispatched(), final(self).released()),
            hands_out(old(self).dispatched(), final(self).dispatched(), Seq::<usize>::empty()),
    {
        proof {
            use_type_invariant(&*self);
        }
        let mut state = RunState::empty();
        std::mem::swap(&mut state, &mut self.state);
        let done = state.skip(i);
        self.state = state;
        proof {
            self.state.lemma_dispatched_after_predecessors();
        }
        done
    }

    /// Vertex `i` finished with `outcome`. Accounts for it; after a stop or
    /// a failure cancels everything below it; otherwise releases its
    /// successors and returns those that became ready. Also returns whether
    /// the run is now complete.
    pub fn complete(&mut self, i: usize, outcome: VertexOutcome) -> (r: (Vec<usize>, bool))
        requires
            i < old(self).n(),
            old(self).dispatched().contains(i as int),
            !old(self).finalized().contains(i as int),
        ensures
            final(self).stopped() == (old(self).stopped() || outcome != VertexOutcome::Continue),
            final(self).chain_stopped() == (old(self).chain_stopped() || outcome == VertexOutcome::StopChain),
            final(self).n() == old(self).n(),
            final(self).edges() == old(self).edges(),
            old(self).finalized().insert(i as int).subset_of(final(self).finalized()),
            final(self).released() == if final(self).stopped() {
                old(self).released()
            } else {
                old(self).released().insert(i as int)
            },
            !final(self).stopped() ==> final(self).finalized() == old(self).finalized().insert(i as int),
            final(self).stopped() ==> r.0.len() == 0,
            r.0@.no_duplicates(),
            forall|v: int|
                #![trigger r.0@.contains(v as usize)]
                0 <= v < final(self).n() ==> (r.0@.contains(v as usize) <==> (!old(self).dispatched().contains(v)
                    && is_edge(final(self).edges(), i as int, v) && count_in(final(self).edges(), v, final(self).released()) == 0
                    && !final(self).stopped() && final(self).pending() > 0)),
            forall|j: int| 0 <= j < r.0.len() ==> #[trigger] r.0@[j] < final(self).n(),
            forall|v: int|
                #[trigger] final(self).dispatched().contains(v) <==> (old(self).dispatched().contains(v) || (0 <= v
                    < final(self).n() && r.0@.contains(v as usize))),
            r.1 == (final(self).pending() == 0),
            dispatched_after_predecessors(final(self).edges(), final(self).dispatched(), final(self).released()),
            hands_out(old(self).dispatched(), final(self).dispatched(), r.0@),
            final(self).pending() == 0 && !final(self).stopped() ==> forall|v: int|
                0 <= v < final(self).n() ==> #[trigger] final(self).released().contains(v),
    {
        proof {
            use_type_invariant(&*self);
        }
        let mut state = RunState::empty();
        std::mem::swap(&mut state, &mut self.state);
        let r = state.complete(i, outcome);
        self.state = state;
        proof {
            self.state.lemma_dispatched_after_predecessors();
            self.state.lemma_all_finalized();
            let ready = r.0@;
            assert forall|j: int| 0 <= j < ready.len() implies !old(self).dispatched().contains(
                #[trigger] ready[j] as int,
            ) && self.dispatched().contains(ready[j] as int) by {
                let v = ready[j] as int;
                assert(r.0@[j] < self.n());
                assert(r.0@.contains(v as usize));
            }
            assert forall|v: int| #[trigger] self.dispatched().contains(v) implies old(self).dispatched().contains(v)
                || exists|j: int| 0 <= j < ready.len() && ready[j] == v by {
                if !old(self).dispatched().contains(v) {
                    let j = choose|j: int| 0 <= j < ready.len() && ready[j] == v as usize;
                }
            }
            if self.pending() == 0 && !self.stopped() {
                assert forall|v: int| 0 <= v < self.n() implies #[trigger] self.released().contains(v) by {
                    assert(self.state.finalized().contains(v));
                }
            }
        }
        r
    }
}

} // verus!
