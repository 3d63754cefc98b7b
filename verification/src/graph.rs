//! Parallel-execution graphs: a DAG of items rooted at a single vertex
//! whose triggers gate the whole graph. This module validates a graph
//! (connectedness from the root, acyclicity, exactly one root) and computes
//! the adjacency lists and in-degrees the dispatcher works from.

use vstd::prelude::*;
use vstd::set_lib::*;
use vstd::string::StringExecFns;

use crate::error::ExecutorError;
use crate::trigger::{ask, asked_at, declares, ExecutableItem};

verus! {

// ── Graph shape, as mathematics ─────────────────────────────────────────────

/// `(u, v)` is one of the edges.
pub open spec fn is_edge(edges: Seq<(usize, usize)>, u: int, v: int) -> bool {
    exists|k: int| 0 <= k < edges.len() && (#[trigger] edges[k]).0 == u && edges[k].1 == v
}

/// `p` is a walk along edges.
pub open spec fn is_path(edges: Seq<(usize, usize)>, p: Seq<int>) -> bool {
    &&& p.len() >= 1
    &&& forall|i: int| 0 <= i < p.len() - 1 ==> #[trigger] is_edge(edges, p[i], p[i + 1])
}

/// `v` can be reached from `root` by following edges.
pub open spec fn reachable(edges: Seq<(usize, usize)>, root: int, v: int) -> bool {
    exists|p: Seq<int>| #[trigger] is_path(edges, p) && p[0] == root && p.last() == v
}

/// `rank` strictly increases along every edge.
pub open spec fn is_ranking(n: nat, edges: Seq<(usize, usize)>, rank: Seq<nat>) -> bool {
    &&& rank.len() == n
    &&& forall|k: int| 0 <= k < edges.len() ==> rank[#[trigger] edges[k].0 as int] < rank[edges[k].1 as int]
}

/// The graph has no cycle: some ranking of the vertices increases along
/// every edge.
pub open spec fn acyclic(n: nat, edges: Seq<(usize, usize)>) -> bool {
    exists|rank: Seq<nat>| #[trigger] is_ranking(n, edges, rank)
}

/// The first problem that validation reports, in the order it checks.
#[derive(PartialEq, Eq, Structural, Clone, Copy, Debug)]
pub enum GraphProblem {
    NoVertices,
    NoRoot,
    RootOutOfBounds,
    EdgeOutOfBounds,
    SelfLoop,
    Cycle,
    Unreachable,
}

/// The problem with the first bad edge, if any edge is bad: an endpoint out
/// of bounds is reported before a self-loop.
pub open spec fn edge_problem(n: nat, edges: Seq<(usize, usize)>) -> Option<GraphProblem>
    decreases edges.len(),
{
    if edges.len() == 0 {
        None
    } else {
        match edge_problem(n, edges.drop_last()) {
            Some(p) => Some(p),
            None => {
                let e = edges.last();
                if e.0 >= n || e.1 >= n {
                    Some(GraphProblem::EdgeOutOfBounds)
                } else if e.0 == e.1 {
                    Some(GraphProblem::SelfLoop)
                } else {
                    None
                }
            },
        }
    }
}

/// The problem that graph validation reports, or `None` for a valid graph.
pub open spec fn graph_problem(n: nat, edges: Seq<(usize, usize)>, root: Option<usize>) -> Option<GraphProblem> {
    if n == 0 {
        Some(GraphProblem::NoVertices)
    } else {
        match root {
            None => Some(GraphProblem::NoRoot),
            Some(r) => if r >= n {
                Some(GraphProblem::RootOutOfBounds)
            } else {
                match edge_problem(n, edges) {
                    Some(p) => Some(p),
                    None => if !acyclic(n, edges) {
                        Some(GraphProblem::Cycle)
                    } else if !(forall|v: int| 0 <= v < n ==> #[trigger] reachable(edges, r as int, v)) {
                        Some(GraphProblem::Unreachable)
                    } else {
                        None
                    },
                }
            },
        }
    }
}

/// The message validation reports for each problem.
pub open spec fn problem_text(p: GraphProblem) -> Seq<char> {
    match p {
        GraphProblem::NoVertices => "graph has no vertices"@,
        GraphProblem::NoRoot => "no root vertex set"@,
        GraphProblem::RootOutOfBounds => "root index out of bounds"@,
        GraphProblem::EdgeOutOfBounds => "edge index out of bounds"@,
        GraphProblem::SelfLoop => "self-loops are not allowed"@,
        GraphProblem::Cycle => "graph contains a cycle"@,
        GraphProblem::Unreachable => "every vertex must be reachable from the root"@,
    }
}

/// `succ` and `indeg` are the adjacency lists and in-degrees of the edge
/// list `edges` over `n` vertices, whose edges are in bounds and have no
/// self-loops.
pub open spec fn adjacency_matches(
    n: nat,
    succ: Seq<Vec<usize>>,
    indeg: Seq<usize>,
    edges: Seq<(usize, usize)>,
) -> bool {
    &&& edge_problem(n, edges) is None
    &&& succ.len() == n
    &&& indeg.len() == n
    &&& forall|u: int| 0 <= u < n ==> (#[trigger] succ[u])@ == succ_list(edges, u)
    &&& forall|v: int| 0 <= v < n ==> #[trigger] indeg[v] == in_degree_of(edges, v)
}

/// Successors of `u`, in edge order (with repetition for repeated edges).
pub open spec fn succ_list(edges: Seq<(usize, usize)>, u: int) -> Seq<usize>
    decreases edges.len(),
{
    if edges.len() == 0 {
        Seq::empty()
    } else {
        let rest = succ_list(edges.drop_last(), u);
        if edges.last().0 == u {
            rest.push(edges.last().1)
        } else {
            rest
        }
    }
}

/// Number of edges into `v` whose source lies outside `done`.
pub open spec fn count_in(edges: Seq<(usize, usize)>, v: int, done: Set<int>) -> nat
    decreases edges.len(),
{
    if edges.len() == 0 {
        0
    } else {
        count_in(edges.drop_last(), v, done) + if edges.last().1 == v && !done.contains(
            edges.last().0 as int,
        ) {
            1nat
        } else {
            0nat
        }
    }
}

/// In-degree of `v`: the number of edges into it.
pub open spec fn in_degree_of(edges: Seq<(usize, usize)>, v: int) -> nat {
    count_in(edges, v, Set::empty())
}

/// Occurrences of `v` in `s`.
pub open spec fn occ(s: Seq<usize>, v: int) -> nat
    decreases s.len(),
{
    if s.len() == 0 {
        0
    } else {
        (if s[0] == v {
            1nat
        } else {
            0nat
        }) + occ(s.drop_first(), v)
    }
}

// ── Lemmas ──────────────────────────────────────────────────────────────────

pub(crate) proof fn lemma_occ_push(s: Seq<usize>, x: usize, v: int)
    ensures
        occ(s.push(x), v) == occ(s, v) + if x == v {
            1nat
        } else {
            0nat
        },
    decreases s.len(),
{
    if s.len() == 0 {
        assert(s.push(x).drop_first() =~= Seq::<usize>::empty());
        assert(occ(s.push(x).drop_first(), v) == 0);
        assert(s.push(x)[0] == x);
    } else {
        assert(s.push(x).drop_first() =~= s.drop_first().push(x));
        assert(s.push(x)[0] == s[0]);
        lemma_occ_push(s.drop_first(), x, v);
    }
}

/// Marking `u` done removes exactly its out-edges from the count into `v`.
pub(crate) proof fn lemma_count_in_mark(edges: Seq<(usize, usize)>, v: int, done: Set<int>, u: int)
    requires
        !done.contains(u),
    ensures
        count_in(edges, v, done) == count_in(edges, v, done.insert(u)) + occ(succ_list(edges, u), v),
    decreases edges.len(),
{
    if edges.len() > 0 {
        lemma_count_in_mark(edges.drop_last(), v, done, u);
        lemma_occ_push(succ_list(edges.drop_last(), u), edges.last().1, v);
    }
}

/// A zero count means every edge into `v` starts in `done`.
pub(crate) proof fn lemma_count_in_zero(edges: Seq<(usize, usize)>, v: int, done: Set<int>)
    ensures
        count_in(edges, v, done) == 0 <==> forall|k: int|
            0 <= k < edges.len() && #[trigger] edges[k].1 == v ==> done.contains(edges[k].0 as int),
    decreases edges.len(),
{
    if edges.len() > 0 {
        let pre = edges.drop_last();
        lemma_count_in_zero(pre, v, done);
        if count_in(edges, v, done) == 0 {
            assert forall|k: int|
                0 <= k < edges.len() && #[trigger] edges[k].1 == v implies done.contains(
                edges[k].0 as int,
            ) by {
                if k < edges.len() - 1 {
                    assert(pre[k] == edges[k]);
                }
            }
        }
        if forall|k: int|
            0 <= k < edges.len() && #[trigger] edges[k].1 == v ==> done.contains(edges[k].0 as int) {
            assert forall|k: int|
                0 <= k < pre.len() && #[trigger] pre[k].1 == v implies done.contains(
                pre[k].0 as int,
            ) by {
                assert(pre[k] == edges[k]);
            }
            assert(edges[edges.len() - 1] == edges.last());
        }
    }
}

/// Every listed successor is an edge, and every edge out of `u` is listed.
pub(crate) proof fn lemma_succ_list(edges: Seq<(usize, usize)>, u: int)
    ensures
        forall|j: int|
            #![trigger succ_list(edges, u)[j]]
            0 <= j < succ_list(edges, u).len() ==> is_edge(edges, u, succ_list(edges, u)[j] as int),
        forall|k: int|
            0 <= k < edges.len() && #[trigger] edges[k].0 == u ==> succ_list(edges, u).contains(
                edges[k].1,
            ),
    decreases edges.len(),
{
    if edges.len() > 0 {
        let pre = edges.drop_last();
        lemma_succ_list(pre, u);
        let s = succ_list(edges, u);
        let sp = succ_list(pre, u);
        assert forall|j: int| 0 <= j < s.len() implies #[trigger] is_edge(edges, u, s[j] as int) by {
            if j < sp.len() {
                assert(s[j] == sp[j]);
                assert(is_edge(pre, u, sp[j] as int));
                let k = choose|k: int| 0 <= k < pre.len() && (#[trigger] pre[k]).0 == u && pre[k].1 == sp[j] as int;
                assert(edges[k] == pre[k]);
            } else {
                let k = edges.len() - 1;
                assert(edges[k] == edges.last());
            }
        }
        assert forall|k: int| 0 <= k < edges.len() && #[trigger] edges[k].0 == u implies s.contains(
            edges[k].1,
        ) by {
            if k < edges.len() - 1 {
                assert(pre[k] == edges[k]);
                let j = choose|j: int| 0 <= j < sp.len() && sp[j] == pre[k].1;
                assert(s[j] == sp[j]);
            } else {
                assert(edges[k] == edges.last());
                assert(s[s.len() - 1] == edges[k].1);
            }
        }
    }
}

/// A first bad edge stays the first bad edge as more edges follow.
pub(crate) proof fn lemma_edge_problem_prefix(n: nat, edges: Seq<(usize, usize)>, m: int)
    requires
        0 <= m <= edges.len(),
        edge_problem(n, edges.take(m)) is Some,
    ensures
        edge_problem(n, edges) == edge_problem(n, edges.take(m)),
    decreases edges.len() - m,
{
    if m < edges.len() {
        assert(edges.take(m + 1).drop_last() =~= edges.take(m));
        lemma_edge_problem_prefix(n, edges, m + 1);
    } else {
        assert(edges.take(m) =~= edges);
    }
}

/// No bad edge means every edge is in bounds and not a self-loop.
pub(crate) proof fn lemma_edge_problem_none(n: nat, edges: Seq<(usize, usize)>)
    requires
        edge_problem(n, edges) is None,
    ensures
        forall|k: int|
            0 <= k < edges.len() ==> (#[trigger] edges[k]).0 < n && edges[k].1 < n && edges[k].0
                != edges[k].1,
    decreases edges.len(),
{
    if edges.len() > 0 {
        let pre = edges.drop_last();
        lemma_edge_problem_none(n, pre);
        assert forall|k: int| 0 <= k < edges.len() implies (#[trigger] edges[k]).0 < n && edges[k].1
            < n && edges[k].0 != edges[k].1 by {
            if k < edges.len() - 1 {
                assert(pre[k] == edges[k]);
            }
        }
    }
}

// ── Vertices and builders ────────────────────────────────────────────────────

/// Opaque handle to a graph vertex: its position in insertion order.
#[derive(Clone, Copy, Debug, PartialEq, Eq, Structural, Hash)]
pub struct Vertex(pub usize);

/// Builder for a graph over items of type `I`.
pub struct GraphBuilder<I> {
    items: Vec<I>,
    edges: Vec<(usize, usize)>,
    root: Option<usize>,
}

/// What a builder holds: the items, the edges added so far, and the root.
pub struct GraphBuilderView<I> {
    pub items: Seq<I>,
    pub edges: Seq<(usize, usize)>,
    pub root: Option<usize>,
}

impl<I> View for GraphBuilder<I> {
    type V = GraphBuilderView<I>;

    closed spec fn view(&self) -> GraphBuilderView<I> {
        GraphBuilderView { items: self.items@, edges: self.edges@, root: self.root }
    }
}

/// A validated graph: items, adjacency lists, in-degrees and the root.
#[derive(Debug)]
pub struct Graph<I> {
    items: Vec<I>,
    successors: Vec<Vec<usize>>,
    in_degree: Vec<usize>,
    root: usize,
}

impl<I> Graph<I> {
    /// The vertices' items, by vertex index.
    pub closed spec fn items_seq(&self) -> Seq<I> {
        self.items@
    }

    /// The successor list of each vertex.
    pub closed spec fn succ_seq(&self) -> Seq<Vec<usize>> {
        self.successors@
    }

    /// The in-degree of each vertex.
    pub closed spec fn in_degree_seq(&self) -> Seq<usize> {
        self.in_degree@
    }

    /// The root vertex.
    pub closed spec fn root_index(&self) -> usize {
        self.root
    }

    /// The adjacency lists and in-degrees describe one edge list over the
    /// graph's items, and the root is one of the items.
    pub open spec fn wf(&self) -> bool {
        &&& self.root_index() < self.items_seq().len()
        &&& exists|e: Seq<(usize, usize)>|
            #[trigger] adjacency_matches(self.items_seq().len() as nat, self.succ_seq(), self.in_degree_seq(), e)
    }

    /// Every graph is well formed: only `GraphBuilder::finish` makes one.
    #[verifier::type_invariant]
    pub(crate) open spec fn inv(&self) -> bool {
        self.wf()
    }

    /// The vertices' items, by vertex index.
    pub fn items(&self) -> (r: &[I])
        ensures
            r@ == self.items_seq(),
            self.wf(),
    {
        proof {
            use_type_invariant(self);
        }
        self.items.as_slice()
    }

    /// The successor list of each vertex.
    pub fn successors(&self) -> (r: &[Vec<usize>])
        ensures
            r@ == self.succ_seq(),
            self.wf(),
    {
        proof {
            use_type_invariant(self);
        }
        self.successors.as_slice()
    }

    /// The in-degree of each vertex.
    pub fn in_degree(&self) -> (r: &[usize])
        ensures
            r@ == self.in_degree_seq(),
            self.wf(),
    {
        proof {
            use_type_invariant(self);
        }
        self.in_degree.as_slice()
    }

    /// The root vertex.
    pub fn root(&self) -> (r: usize)
        ensures
            r == self.root_index(),
            self.wf(),
    {
        proof {
            use_type_invariant(self);
        }
        self.root
    }
}

pub(crate) proof fn lemma_count_in_bound(edges: Seq<(usize, usize)>, v: int, done: Set<int>)
    ensures
        count_in(edges, v, done) <= edges.len(),
    decreases edges.len(),
{
    if edges.len() > 0 {
        lemma_count_in_bound(edges.drop_last(), v, done);
    }
}

/// Checks every edge in order and builds the adjacency lists and in-degrees.
fn adjacency(n: usize, edges: &Vec<(usize, usize)>) -> (r: Result<(Vec<Vec<usize>>, Vec<usize>), GraphProblem>)
    ensures
        match r {
            Ok((succ, indeg)) => {
                &&& edge_problem(n as nat, edges@) is None
                &&& succ.len() == n
                &&& indeg.len() == n
                &&& forall|u: int| 0 <= u < n ==> (#[trigger] succ@[u])@ == succ_list(edges@, u)
                &&& forall|v: int| 0 <= v < n ==> #[trigger] indeg@[v] == in_degree_of(edges@, v)
            },
            Err(p) => edge_problem(n as nat, edges@) == Some(p),
        },
{
    let mut succ: Vec<Vec<usize>> = Vec::new();
    let mut indeg: Vec<usize> = Vec::new();
    let mut i: usize = 0;
    while i < n
        invariant
            i <= n,
            succ.len() == i,
            indeg.len() == i,
            forall|u: int| 0 <= u < i ==> (#[trigger] succ@[u])@ == Seq::<usize>::empty(),
            forall|v: int| 0 <= v < i ==> #[trigger] indeg@[v] == 0,
        decreases n - i,
    {
        succ.push(Vec::new());
        indeg.push(0);
        i = i + 1;
    }
    let ghost e = edges@;
    assert(e.take(0) =~= Seq::<(usize, usize)>::empty());
    let mut k: usize = 0;
    while k < edges.len()
        invariant
            k <= edges.len(),
            e == edges@,
            succ.len() == n,
            indeg.len() == n,
            edge_problem(n as nat, e.take(k as int)) is None,
            forall|u: int| 0 <= u < n ==> (#[trigger] succ@[u])@ == succ_list(e.take(k as int), u),
            forall|v: int| 0 <= v < n ==> #[trigger] indeg@[v] == in_degree_of(e.take(k as int), v),
        decreases edges.len() - k,
    {
        let (from, to) = edges[k];
        let ghost pre = e.take(k as int);
        let ghost cur = e.take(k + 1);
        assert(cur.drop_last() =~= pre);
        assert(cur.last() == e[k as int]);
        if from >= n || to >= n {
            proof {
                lemma_edge_problem_prefix(n as nat, e, k + 1);
            }
            return Err(GraphProblem::EdgeOutOfBounds);
        }
        if from == to {
            proof {
                lemma_edge_problem_prefix(n as nat, e, k + 1);
            }
            return Err(GraphProblem::SelfLoop);
        }
        proof {
            lemma_count_in_bound(pre, to as int, Set::empty());
        }
        succ[from].push(to);
        let d = indeg[to];
        indeg.set(to, d + 1);
        k = k + 1;
        assert forall|u: int| 0 <= u < n implies (#[trigger] succ@[u])@ == succ_list(cur, u) by {}
        assert forall|v: int| 0 <= v < n implies #[trigger] indeg@[v] == in_degree_of(cur, v) by {}
    }
    assert(e.take(k as int) =~= e);
    Ok((succ, indeg))
}

/// In a ranked graph, some vertex outside `done` has no edge in from
/// outside `done`.
pub(crate) proof fn lemma_ranked_has_source(
    n: nat,
    edges: Seq<(usize, usize)>,
    rank: Seq<nat>,
    done: Set<int>,
    v: int,
)
    requires
        is_ranking(n, edges, rank),
        0 <= v < n,
        !done.contains(v),
        forall|k: int| 0 <= k < edges.len() ==> (#[trigger] edges[k]).0 < n && edges[k].1 < n,
    ensures
        exists|w: int| 0 <= w < n && !done.contains(w) && #[trigger] count_in(edges, w, done) == 0,
    decreases rank[v],
{
    if count_in(edges, v, done) != 0 {
        lemma_count_in_zero(edges, v, done);
        let k = choose|k: int|
            0 <= k < edges.len() && #[trigger] edges[k].1 == v && !done.contains(edges[k].0 as int);
        let w = edges[k].0 as int;
        assert(rank[w] < rank[v]);
        lemma_ranked_has_source(n, edges, rank, done, w);
    }
}

pub(crate) proof fn lemma_occ_pos(t: Seq<usize>, v: int)
    requires
        occ(t, v) > 0,
    ensures
        t.contains(v as usize),
        0 <= v,
    decreases t.len(),
{
    if t[0] != v {
        lemma_occ_pos(t.drop_first(), v);
        let i = choose|i: int| 0 <= i < t.drop_first().len() && t.drop_first()[i] == v as usize;
        assert(t[i + 1] == v as usize);
    } else {
        assert(t[0] == v as usize);
    }
}

/// Kahn's algorithm: repeatedly takes a vertex with no edge in from an
/// unvisited vertex. Visits every vertex exactly when the graph is acyclic.
fn kahn_visits_all(
    n: usize,
    succ: &Vec<Vec<usize>>,
    indeg: &Vec<usize>,
    Ghost(e): Ghost<Seq<(usize, usize)>>,
) -> (r: bool)
    requires
        edge_problem(n as nat, e) is None,
        succ.len() == n,
        indeg.len() == n,
        forall|u: int| 0 <= u < n ==> (#[trigger] succ@[u])@ == succ_list(e, u),
        forall|v: int| 0 <= v < n ==> #[trigger] indeg@[v] == in_degree_of(e, v),
    ensures
        r == acyclic(n as nat, e),
{
    proof {
        lemma_edge_problem_none(n as nat, e);
    }
    let mut k_in: Vec<usize> = Vec::new();
    let mut queue: Vec<usize> = Vec::new();
    let mut i: usize = 0;
    while i < n
        invariant
            i <= n,
            indeg.len() == n,
            k_in.len() == i,
            forall|v: int| 0 <= v < i ==> #[trigger] k_in@[v] == indeg@[v],
            queue@.no_duplicates(),
            forall|j: int| 0 <= j < queue.len() ==> #[trigger] queue@[j] < i,
            forall|v: int| 0 <= v < i ==> (queue@.contains(v as usize) <==> #[trigger] k_in@[v] == 0),
        decreases n - i,
    {
        let d = indeg[i];
        k_in.push(d);
        let ghost q1 = queue@;
        if d == 0 {
            queue.push(i);
            assert(!q1.contains(i)) by {
                if q1.contains(i) {
                    let j = choose|j: int| 0 <= j < q1.len() && q1[j] == i;
                }
            }
        }
        i = i + 1;
        assert forall|v: int| 0 <= v < i implies (queue@.contains(v as usize) <==> #[trigger] k_in@[v] == 0) by {
            if v < i - 1 {
                if queue@.contains(v as usize) {
                    let j = choose|j: int| 0 <= j < queue.len() && queue@[j] == v as usize;
                    if d == 0 && j == queue.len() - 1 {
                    } else {
                        assert(q1[j] == queue@[j]);
                    }
                }
                if q1.contains(v as usize) {
                    let j = choose|j: int| 0 <= j < q1.len() && q1[j] == v as usize;
                    assert(queue@[j] == q1[j]);
                }
            } else {
                if d == 0 {
                    assert(queue@[queue.len() - 1] == v as usize);
                } else if queue@.contains(v as usize) {
                    let j = choose|j: int| 0 <= j < queue.len() && queue@[j] == v as usize;
                    assert(q1[j] == queue@[j]);
                }
            }
        }
    }
    let ghost mut vis: Set<int> = Set::empty();
    let ghost mut rank: Seq<nat> = Seq::new(n as nat, |x: int| 0nat);
    let mut visited: usize = 0;
    proof {
        lemma_int_range(0, n as int);
    }
    loop
        invariant
            edge_problem(n as nat, e) is None,
            forall|k: int| 0 <= k < e.len() ==> (#[trigger] e[k]).0 < n && e[k].1 < n && e[k].0 != e[k].1,
            succ.len() == n,
            forall|u: int| 0 <= u < n ==> (#[trigger] succ@[u])@ == succ_list(e, u),
            set_int_range(0, n as int).finite(),
            set_int_range(0, n as int).len() == n,
            k_in.len() == n,
            forall|v: int| 0 <= v < n ==> #[trigger] k_in@[v] == count_in(e, v, vis),
            vis.finite(),
            vis.len() == visited,
            forall|x: int| #[trigger] vis.contains(x) ==> 0 <= x < n,
            queue@.no_duplicates(),
            forall|j: int| 0 <= j < queue.len() ==> #[trigger] queue@[j] < n && !vis.contains(queue@[j] as int),
            forall|v: int| 0 <= v < n ==> (queue@.contains(v as usize) <==> (!vis.contains(v) && #[trigger] k_in@[v] == 0)),
            rank.len() == n,
            forall|k: int| 0 <= k < e.len() && vis.contains((#[trigger] e[k]).1 as int) ==> vis.contains(e[k].0 as int) && rank[e[k].0 as int] < rank[e[k].1 as int],
            forall|v: int| #[trigger] vis.contains(v) ==> rank[v] < visited,
        ensures
            queue.len() == 0,
            k_in.len() == n,
            forall|v: int| 0 <= v < n ==> #[trigger] k_in@[v] == count_in(e, v, vis),
            vis.finite(),
            vis.len() == visited,
            forall|x: int| #[trigger] vis.contains(x) ==> 0 <= x < n,
            forall|v: int| 0 <= v < n ==> (queue@.contains(v as usize) <==> (!vis.contains(v) && #[trigger] k_in@[v] == 0)),
            rank.len() == n,
            forall|k: int| 0 <= k < e.len() && vis.contains((#[trigger] e[k]).1 as int) ==> vis.contains(e[k].0 as int) && rank[e[k].0 as int] < rank[e[k].1 as int],
            set_int_range(0, n as int).finite(),
            set_int_range(0, n as int).len() == n,
        decreases n - visited,
    {
        if queue.len() == 0 {
            break;
        }
        let ghost q0 = queue@;
        let u = queue.pop().unwrap();
        let ghost old_vis = vis;
        assert(q0 =~= queue@.push(u));
        assert(q0[q0.len() - 1] == u);
        assert(q0.contains(u));
        assert(!vis.contains(u as int));
        assert(k_in@[u as int] == 0);
        assert forall|j: int| 0 <= j < queue.len() implies #[trigger] queue@[j] != u by {
            assert(q0[j] == queue@[j]);
        }
        assert forall|v: int| 0 <= v < n implies (queue@.contains(v as usize) <==> (!vis.insert(u as int).contains(v) && #[trigger] k_in@[v] == 0)) by {
            if queue@.contains(v as usize) {
                let j = choose|j: int| 0 <= j < queue.len() && queue@[j] == v as usize;
                assert(q0[j] == queue@[j]);
            }
            if v != u as int && q0.contains(v as usize) {
                let j = choose|j: int| 0 <= j < q0.len() && q0[j] == v as usize;
                assert(j != q0.len() - 1);
                assert(queue@[j] == q0[j]);
            }
        }
        proof {
            lemma_count_in_zero(e, u as int, vis);
            assert(vis.insert(u as int).subset_of(set_int_range(0, n as int)));
            lemma_len_subset(vis.insert(u as int), set_int_range(0, n as int));
            lemma_count_in_zero(e, u as int, vis);
            rank = rank.update(u as int, visited as nat);
            vis = vis.insert(u as int);
        }
        visited = visited + 1;
        let ghost s = succ@[u as int]@;
        proof {
            lemma_succ_list(e, u as int);
            assert forall|v: int| 0 <= v < n implies #[trigger] count_in(e, v, old_vis) == count_in(e, v, vis) + occ(s, v) by {
                lemma_count_in_mark(e, v, old_vis, u as int);
            }
            assert forall|v: int| #[trigger] vis.contains(v) implies occ(s, v) == 0 by {
                if occ(s, v) > 0 {
                    lemma_occ_pos(s, v);
                    let j = choose|j: int| 0 <= j < s.len() && s[j] == v as usize;
                    assert(is_edge(e, u as int, s[j] as int));
                    let k = choose|k: int| 0 <= k < e.len() && (#[trigger] e[k]).0 == u as int && e[k].1 == s[j] as int;
                    assert(e[k].0 != e[k].1);
                    assert(old_vis.contains(v));
                }
            }
            assert(s.skip(0) =~= s);
        }
        let len = succ[u].len();
        let mut j: usize = 0;
        while j < len
            invariant
                forall|k: int| 0 <= k < e.len() ==> (#[trigger] e[k]).0 < n && e[k].1 < n && e[k].0 != e[k].1,
                succ.len() == n,
                u < n,
                s == succ@[u as int]@,
                s == succ_list(e, u as int),
                forall|jj: int| #![trigger s[jj]] 0 <= jj < s.len() ==> is_edge(e, u as int, s[jj] as int),
                len == s.len(),
                j <= len,
                k_in.len() == n,
                forall|v: int| 0 <= v < n ==> #[trigger] k_in@[v] == count_in(e, v, vis) + occ(s.skip(j as int), v),
                forall|v: int| #[trigger] vis.contains(v) ==> occ(s.skip(j as int), v) == 0,
                vis.finite(),
                forall|x: int| #[trigger] vis.contains(x) ==> 0 <= x < n,
                queue@.no_duplicates(),
                forall|jj: int| 0 <= jj < queue.len() ==> #[trigger] queue@[jj] < n && !vis.contains(queue@[jj] as int),
                forall|v: int| 0 <= v < n ==> (queue@.contains(v as usize) <==> (!vis.contains(v) && #[trigger] k_in@[v] == 0)),
            decreases len - j,
        {
            let v0 = succ[u][j];
            proof {
                assert(is_edge(e, u as int, s[j as int] as int));
                let k = choose|k: int| 0 <= k < e.len() && (#[trigger] e[k]).0 == u as int && e[k].1 == s[j as int] as int;
                assert(e[k].1 < n);
                assert(s.skip(j as int).drop_first() =~= s.skip(j + 1));
                assert(s.skip(j as int)[0] == v0);
            }
            assert(occ(s.skip(j as int), v0 as int) >= 1);
            assert(!vis.contains(v0 as int));
            let d = k_in[v0];
            k_in.set(v0, d - 1);
            let ghost q1 = queue@;
            if d - 1 == 0 {
                queue.push(v0);
                assert(!q1.contains(v0));
            }
            j = j + 1;
            assert forall|v: int| 0 <= v < n implies #[trigger] k_in@[v] == count_in(e, v, vis) + occ(s.skip(j as int), v) by {}
            assert forall|v: int| #[trigger] vis.contains(v) implies occ(s.skip(j as int), v) == 0 by {}
            assert forall|v: int| 0 <= v < n implies (queue@.contains(v as usize) <==> (!vis.contains(v) && #[trigger] k_in@[v] == 0)) by {
                if d - 1 == 0 {
                    if queue@.contains(v as usize) && v != v0 as int {
                        let jj = choose|jj: int| 0 <= jj < queue.len() && queue@[jj] == v as usize;
                        assert(q1[jj] == queue@[jj]);
                    }
                    if q1.contains(v as usize) {
                        let jj = choose|jj: int| 0 <= jj < q1.len() && q1[jj] == v as usize;
                        assert(queue@[jj] == q1[jj]);
                    }
                    assert(queue@[queue.len() - 1] == v0);
                }
            }
        }
        proof {
            assert(s.skip(j as int) =~= Seq::<usize>::empty());
        }
    }
    proof {
        if visited == n {
            lemma_subset_equality(vis, set_int_range(0, n as int));
            assert(is_ranking(n as nat, e, rank));
        } else {
            if acyclic(n as nat, e) {
                let r0 = choose|r0: Seq<nat>| #[trigger] is_ranking(n as nat, e, r0);
                assert(vis.subset_of(set_int_range(0, n as int)));
                lemma_len_subset(vis, set_int_range(0, n as int));
                assert(exists|v: int| 0 <= v < n && !vis.contains(v)) by {
                    if !(exists|v: int| 0 <= v < n && !vis.contains(v)) {
                        assert(set_int_range(0, n as int).subset_of(vis));
                        lemma_len_subset(set_int_range(0, n as int), vis);
                    }
                }
                let v = choose|v: int| 0 <= v < n && !vis.contains(v);
                lemma_ranked_has_source(n as nat, e, r0, vis, v);
                let w = choose|w: int| 0 <= w < n && !vis.contains(w) && #[trigger] count_in(e, w, vis) == 0;
                assert(k_in@[w] == 0);
                assert(!queue@.contains(w as usize));
            }
        }
    }
    visited == n
}

/// Following one more edge extends a path.
pub(crate) proof fn lemma_reachable_step(edges: Seq<(usize, usize)>, root: int, u: int, v: int)
    requires
        reachable(edges, root, u),
        is_edge(edges, u, v),
    ensures
        reachable(edges, root, v),
{
    let p = choose|p: Seq<int>| #[trigger] is_path(edges, p) && p[0] == root && p.last() == u;
    let q = p.push(v);
    assert forall|i: int| 0 <= i < q.len() - 1 implies #[trigger] is_edge(edges, q[i], q[i + 1]) by {
        if i < p.len() - 1 {
            assert(q[i] == p[i] && q[i + 1] == p[i + 1]);
        } else {
            assert(q[i] == u && q[i + 1] == v);
        }
    }
    assert(is_path(edges, q));
}

/// A set of vertices that holds the root and is closed under edges holds
/// the end of every path from the root.
pub(crate) proof fn lemma_closed_holds_path(
    edges: Seq<(usize, usize)>,
    marked: Seq<bool>,
    root: int,
    p: Seq<int>,
)
    requires
        is_path(edges, p),
        p[0] == root,
        0 <= root < marked.len(),
        marked[root],
        forall|k: int|
            0 <= k < edges.len() && 0 <= (#[trigger] edges[k]).0 < marked.len() && marked[edges[k].0 as int]
                ==> edges[k].1 < marked.len() && marked[edges[k].1 as int],
    ensures
        0 <= p.last() < marked.len(),
        marked[p.last()],
    decreases p.len(),
{
    if p.len() > 1 {
        let q = p.drop_last();
        assert forall|i: int| 0 <= i < q.len() - 1 implies #[trigger] is_edge(edges, q[i], q[i + 1]) by {
            assert(is_edge(edges, p[i], p[i + 1]));
        }
        lemma_closed_holds_path(edges, marked, root, q);
        let i = p.len() - 2;
        assert(is_edge(edges, p[i], p[i + 1]));
        assert(q.last() == p[i]);
        assert(p.last() == p[i + 1]);
    }
}

/// Depth-first search from `root`: every vertex is reached exactly when
/// every vertex is reachable from the root.
fn reaches_all(
    n: usize,
    succ: &Vec<Vec<usize>>,
    root: usize,
    Ghost(e): Ghost<Seq<(usize, usize)>>,
) -> (r: bool)
    requires
        edge_problem(n as nat, e) is None,
        root < n,
        succ.len() == n,
        forall|u: int| 0 <= u < n ==> (#[trigger] succ@[u])@ == succ_list(e, u),
    ensures
        r == (forall|v: int| 0 <= v < n ==> #[trigger] reachable(e, root as int, v)),
{
    proof {
        lemma_edge_problem_none(n as nat, e);
        assert forall|u: int| #![trigger succ@[u]] 0 <= u < n implies forall|j: int| #![trigger succ@[u]@[j]] 0 <= j < succ@[u]@.len() ==> is_edge(e, u, succ@[u]@[j] as int) && succ@[u]@[j] < n by {
            lemma_succ_list(e, u);
            assert forall|j: int| #![trigger succ@[u]@[j]] 0 <= j < succ@[u]@.len() implies is_edge(e, u, succ@[u]@[j] as int) && succ@[u]@[j] < n by {
                assert(is_edge(e, u, succ_list(e, u)[j] as int));
                let k = choose|k: int| 0 <= k < e.len() && (#[trigger] e[k]).0 == u && e[k].1 == succ_list(e, u)[j] as int;
            }
        }
        let p0 = seq![root as int];
        assert(is_path(e, p0));
        assert(reachable(e, root as int, root as int));
    }
    let mut reach: Vec<bool> = Vec::new();
    let mut i: usize = 0;
    while i < n
        invariant
            i <= n,
            reach.len() == i,
            forall|v: int| 0 <= v < i ==> !#[trigger] reach@[v],
        decreases n - i,
    {
        reach.push(false);
        i = i + 1;
    }
    let mut stack: Vec<usize> = Vec::new();
    stack.push(root);
    assert(stack@[0] == root);
    let ghost mut marked: Set<int> = Set::empty();
    proof {
        lemma_int_range(0, n as int);
    }
    loop
        invariant
            root < n,
            succ.len() == n,
            forall|u: int| 0 <= u < n ==> (#[trigger] succ@[u])@ == succ_list(e, u),
            forall|u: int| #![trigger succ@[u]] 0 <= u < n ==> forall|j: int| #![trigger succ@[u]@[j]] 0 <= j < succ@[u]@.len() ==> is_edge(e, u, succ@[u]@[j] as int) && succ@[u]@[j] < n,
            reach.len() == n,
            forall|j: int| 0 <= j < stack.len() ==> #[trigger] stack@[j] < n,
            forall|v: int| 0 <= v < n && #[trigger] reach@[v] ==> reachable(e, root as int, v),
            forall|j: int| 0 <= j < stack.len() ==> reachable(e, root as int, #[trigger] stack@[j] as int),
            forall|u: int| 0 <= u < n && #[trigger] reach@[u] ==> forall|j: int| #![trigger succ@[u]@[j]] 0 <= j < succ@[u]@.len() ==> reach@[succ@[u]@[j] as int] || stack@.contains(succ@[u]@[j]),
            reach@[root as int] || stack@.contains(root),
            marked.finite(),
            forall|v: int| #[trigger] marked.contains(v) <==> (0 <= v < n && reach@[v]),
            set_int_range(0, n as int).finite(),
            set_int_range(0, n as int).len() == n,
        ensures
            reach.len() == n,
            forall|v: int| 0 <= v < n && #[trigger] reach@[v] ==> reachable(e, root as int, v),
            forall|u: int| 0 <= u < n && #[trigger] reach@[u] ==> forall|j: int| #![trigger succ@[u]@[j]] 0 <= j < succ@[u]@.len() ==> reach@[succ@[u]@[j] as int],
            reach@[root as int],
        decreases n - marked.len(), stack.len(),
    {
        let ghost s0 = stack@;
        let top = stack.pop();
        match top {
            None => {
                break;
            },
            Some(u) => {
                assert(s0 =~= stack@.push(u));
                assert(s0[s0.len() - 1] == u);
                assert forall|x: usize| #[trigger] s0.contains(x) implies stack@.contains(x) || x == u by {
                    let j = choose|j: int| 0 <= j < s0.len() && s0[j] == x;
                    if j < s0.len() - 1 {
                        assert(stack@[j] == s0[j]);
                    }
                }
                assert(reachable(e, root as int, u as int));
                assert(marked.subset_of(set_int_range(0, n as int)));
                proof {
                    lemma_len_subset(marked, set_int_range(0, n as int));
                }
                if reach[u] {
                    continue;
                }
                reach.set(u, true);
                proof {
                    assert(!marked.contains(u as int));
                    assert(marked.insert(u as int).subset_of(set_int_range(0, n as int)));
                    lemma_len_subset(marked.insert(u as int), set_int_range(0, n as int));
                    marked = marked.insert(u as int);
                }
                let ghost s1 = stack@;
                let len = succ[u].len();
                let mut j: usize = 0;
                while j < len
                    invariant
                        u < n,
                        succ.len() == n,
                        len == succ@[u as int]@.len(),
                        forall|jj: int| #![trigger succ@[u as int]@[jj]] 0 <= jj < succ@[u as int]@.len() ==> is_edge(e, u as int, succ@[u as int]@[jj] as int) && succ@[u as int]@[jj] < n,
                        reachable(e, root as int, u as int),
                        j <= len,
                        stack@ =~= s1 + succ@[u as int]@.take(j as int),
                    decreases len - j,
                {
                    let v = succ[u][j];
                    stack.push(v);
                    j = j + 1;
                    assert(stack@ =~= s1 + succ@[u as int]@.take(j as int));
                }
                assert(succ@[u as int]@.take(len as int) =~= succ@[u as int]@);
                assert forall|jj: int| 0 <= jj < stack.len() implies #[trigger] stack@[jj] < n && reachable(e, root as int, stack@[jj] as int) by {
                    if jj >= s1.len() {
                        let t = jj - s1.len();
                        assert(stack@[jj] == succ@[u as int]@[t]);
                        lemma_reachable_step(e, root as int, u as int, succ@[u as int]@[t] as int);
                    } else {
                        assert(stack@[jj] == s1[jj]);
                    }
                }
                assert forall|x: usize| #[trigger] s1.contains(x) implies stack@.contains(x) by {
                    let jj = choose|jj: int| 0 <= jj < s1.len() && s1[jj] == x;
                    assert(stack@[jj] == s1[jj]);
                }
                assert forall|jj: int| #![trigger succ@[u as int]@[jj]] 0 <= jj < succ@[u as int]@.len() implies stack@.contains(succ@[u as int]@[jj]) by {
                    assert(stack@[s1.len() + jj] == succ@[u as int]@[jj]);
                }
            },
        }
    }
    proof {
        let ghost rs = reach@;
        assert forall|k: int|
            0 <= k < e.len() && 0 <= (#[trigger] e[k]).0 < rs.len() && rs[e[k].0 as int]
                implies e[k].1 < rs.len() && rs[e[k].1 as int] by {
            let u = e[k].0 as int;
            lemma_succ_list(e, u);
            assert(succ_list(e, u).contains(e[k].1));
            let j = choose|j: int| 0 <= j < succ_list(e, u).len() && succ_list(e, u)[j] == e[k].1;
            assert(succ@[u]@[j] == e[k].1);
        }
        assert forall|v: int| 0 <= v < n && #[trigger] reachable(e, root as int, v) implies rs[v] by {
            let p = choose|p: Seq<int>| #[trigger] is_path(e, p) && p[0] == root as int && p.last() == v;
            lemma_closed_holds_path(e, rs, root as int, p);
        }
    }
    let mut all = true;
    let mut k: usize = 0;
    while k < n
        invariant
            k <= n,
            reach.len() == n,
            all == (forall|v: int| 0 <= v < k ==> #[trigger] reach@[v]),
        decreases n - k,
    {
        if !reach[k] {
            all = false;
        }
        k = k + 1;
    }
    proof {
        if all {
            assert forall|v: int| 0 <= v < n implies #[trigger] reachable(e, root as int, v) by {
                assert(reach@[v]);
            }
        } else {
            let v = choose|v: int| 0 <= v < n && !#[trigger] reach@[v];
            assert(!reachable(e, root as int, v));
        }
    }
    all
}

/// The message for a validation problem.
pub fn problem_message(p: GraphProblem) -> (s: String)
    ensures
        s@ == problem_text(p),
{
    match p {
        GraphProblem::NoVertices => String::from_str("graph has no vertices"),
        GraphProblem::NoRoot => String::from_str("no root vertex set"),
        GraphProblem::RootOutOfBounds => String::from_str("root index out of bounds"),
        GraphProblem::EdgeOutOfBounds => String::from_str("edge index out of bounds"),
        GraphProblem::SelfLoop => String::from_str("self-loops are not allowed"),
        GraphProblem::Cycle => String::from_str("graph contains a cycle"),
        GraphProblem::Unreachable => String::from_str(
            "every vertex must be reachable from the root",
        ),
    }
}

/// The error that validation returns for a problem.
fn invalid(p: GraphProblem) -> (e: ExecutorError)
    ensures
        e matches ExecutorError::InvalidGraph(m) && m@ == problem_text(p),
{
    ExecutorError::InvalidGraph(problem_message(p))
}

impl<I> GraphBuilder<I> {
    /// An empty builder: no vertices, no edges, no root.
    pub fn new() -> (b: Self)
        ensures
            b@.items == Seq::<I>::empty(),
            b@.edges == Seq::<(usize, usize)>::empty(),
            b@.root is None,
    {
        GraphBuilder { items: Vec::new(), edges: Vec::new(), root: None }
    }

    /// Add a vertex; returns its handle, the position of the item in
    /// insertion order.
    pub fn vertex(&mut self, item: I) -> (v: Vertex)
        ensures
            v.0 == old(self)@.items.len(),
            final(self)@.items == old(self)@.items.push(item),
            final(self)@.edges == old(self)@.edges,
            final(self)@.root == old(self)@.root,
    {
        let idx = self.items.len();
        self.items.push(item);
        Vertex(idx)
    }

    /// Add a directed edge `from -> to`. Edges are checked by `finish`.
    pub fn edge(&mut self, from: Vertex, to: Vertex) -> (r: &mut Self)
        ensures
            (*r)@.items == old(self)@.items,
            (*r)@.edges == old(self)@.edges.push((from.0, to.0)),
            (*r)@.root == old(self)@.root,
            final(self)@ == final(r)@,
    {
        self.edges.push((from.0, to.0));
        self
    }

    /// Designate the root vertex, whose triggers gate the graph. A later
    /// call replaces an earlier one.
    pub fn root(&mut self, v: Vertex) -> (r: &mut Self)
        ensures
            (*r)@.items == old(self)@.items,
            (*r)@.edges == old(self)@.edges,
            (*r)@.root == Some(v.0),
            final(self)@ == final(r)@,
    {
        self.root = Some(v.0);
        self
    }

    /// Validate the graph: at least one vertex, a root within bounds,
    /// every edge within bounds and not a self-loop, no cycle, and every
    /// vertex reachable from the root. On success returns the adjacency
    /// lists (successors in edge order) and in-degrees.
    pub fn validate(self) -> (r: Result<Graph<I>, ExecutorError>)
        ensures
            match r {
                Ok(g) => {
                    &&& graph_problem(self@.items.len(), self@.edges, self@.root) is None
                    &&& self@.root == Some(g.root_index())
                    &&& g.items_seq() == self@.items
                    &&& adjacency_matches(self@.items.len() as nat, g.succ_seq(), g.in_degree_seq(), self@.edges)
                    &&& g.wf()
                    &&& g.succ_seq().len() == self@.items.len()
                    &&& g.in_degree_seq().len() == self@.items.len()
                    &&& forall|u: int| 0 <= u < g.succ_seq().len() ==> (#[trigger] g.succ_seq()[u])@ == succ_list(self@.edges, u)
                    &&& forall|v: int| 0 <= v < g.in_degree_seq().len() ==> #[trigger] g.in_degree_seq()[v] == in_degree_of(self@.edges, v)
                },
                Err(e) => graph_problem(self@.items.len(), self@.edges, self@.root) matches Some(p)
                    && e matches ExecutorError::InvalidGraph(m) && m@ == problem_text(p),
            },
    {
        let n = self.items.len();
        if n == 0 {
            return Err(invalid(GraphProblem::NoVertices));
        }
        let root = match self.root {
            None => {
                return Err(invalid(GraphProblem::NoRoot));
            },
            Some(r) => r,
        };
        if root >= n {
            return Err(invalid(GraphProblem::RootOutOfBounds));
        }
        let (successors, in_degree) = match adjacency(n, &self.edges) {
            Ok(a) => a,
            Err(p) => {
                return Err(invalid(p));
            },
        };
        if !kahn_visits_all(n, &successors, &in_degree, Ghost(self.edges@)) {
            return Err(invalid(GraphProblem::Cycle));
        }
        if !reaches_all(n, &successors, root, Ghost(self.edges@)) {
            return Err(invalid(GraphProblem::Unreachable));
        }
        proof {
            let gv = Graph { items: self.items, successors, in_degree, root };
            assert(adjacency_matches(gv.items_seq().len() as nat, gv.succ_seq(), gv.in_degree_seq(), self.edges@));
        }
        let g = Graph { items: self.items, successors, in_degree, root };
        Ok(g)
    }
}

/// A graph registered from `items` holds, vertex by vertex, what asking
/// each item for its trigger declarations left of it: the root, whose
/// answer `decls` gates the graph, and every other vertex, whose answer is
/// ignored.
pub open spec fn graph_declared_from<D, I: ExecutableItem<D>>(items: Seq<I>, stored: Seq<I>, root: int, decls: Vec<D>) -> bool {
    &&& stored.len() == items.len()
    &&& 0 <= root < items.len()
    &&& declares(items[root], stored[root], Ok::<Vec<D>, ExecutorError>(decls))
    &&& forall|k: int| 0 <= k < items.len() && k != root ==> #[trigger] asked_at(items, stored, k)
}

impl<I> GraphBuilder<I> {
    /// Validate the graph (see `validate`); a graph that fails validation
    /// is refused before any vertex is asked anything. Then the root is
    /// asked for its trigger declarations, which gate the graph; if it
    /// refuses, the graph is refused with its error. When it accepts, every
    /// other vertex is asked too, and what they declare is ignored. Returns
    /// the graph and the root's declarations.
    pub fn finish<D>(self) -> (r: Result<(Graph<I>, Vec<D>), ExecutorError>)
        where
            I: ExecutableItem<D>,
        ensures
            graph_problem(self@.items.len(), self@.edges, self@.root) matches Some(p) ==> (r matches Err(
                ExecutorError::InvalidGraph(m),
            ) && m@ == problem_text(p)),
            graph_problem(self@.items.len(), self@.edges, self@.root) is None ==> (r matches Err(e) ==> (
            self@.root matches Some(rt) && exists|after: I|
                declares(self@.items[rt as int], after, Err::<Vec<D>, ExecutorError>(e)))),
            r matches Ok((g, v)) ==> {
                &&& graph_problem(self@.items.len(), self@.edges, self@.root) is None
                &&& self@.root == Some(g.root_index())
                &&& g.items_seq().len() == self@.items.len()
                &&& adjacency_matches(self@.items.len() as nat, g.succ_seq(), g.in_degree_seq(), self@.edges)
                &&& graph_declared_from(self@.items, g.items_seq(), g.root_index() as int, v)
            },
    {
        let g = match self.validate() {
            Ok(g) => g,
            Err(e) => {
                return Err(e);
            },
        };
        g.with_declarations()
    }
}

/// A validated graph with what its root's trigger declaration produced:
/// the root's error refuses the graph; otherwise the graph comes back with
/// the root's declarations.
pub fn graph_declared<I, D>(g: Graph<I>, root_declared: Result<Vec<D>, ExecutorError>) -> (r: Result<
    (Graph<I>, Vec<D>),
    ExecutorError,
>)
    ensures
        root_declared matches Err(e) ==> r == Err::<(Graph<I>, Vec<D>), ExecutorError>(e),
        root_declared matches Ok(v) ==> (r matches Ok((g2, v2)) && g2 == g && v2 == v),
{
    match root_declared {
        Err(e) => Err(e),
        Ok(v) => Ok((g, v)),
    }
}

impl<I> Graph<I> {
    /// Ask the root for its trigger declarations and, when it accepts, every
    /// other vertex in index order, ignoring what they declare. The graph's
    /// shape is unchanged; its items are as their `declare_triggers` left
    /// them.
    pub fn with_declarations<D>(self) -> (r: Result<(Graph<I>, Vec<D>), ExecutorError>)
        where
            I: ExecutableItem<D>,
        ensures
            r matches Err(e) ==> exists|after: I|
                declares(self.items_seq()[self.root_index() as int], after, Err::<Vec<D>, ExecutorError>(e)),
            r matches Ok((g, v)) ==> {
                &&& g.items_seq().len() == self.items_seq().len()
                &&& g.succ_seq() == self.succ_seq()
                &&& g.in_degree_seq() == self.in_degree_seq()
                &&& g.root_index() == self.root_index()
                &&& graph_declared_from(self.items_seq(), g.items_seq(), self.root_index() as int, v)
            },
    {
        proof {
            use_type_invariant(&self);
        }
        let ghost e = choose|e: Seq<(usize, usize)>|
            #[trigger] adjacency_matches(self.items_seq().len() as nat, self.succ_seq(), self.in_degree_seq(), e);
        let ghost orig = self.items_seq();
        let Graph { items, successors, in_degree, root } = self;
        let mut items = items;
        let n = items.len();
        let root_item = items.remove(root);
        let (root_item, root_declared) = ask(root_item);
        items.insert(root, root_item);
        proof {
            assert(items@ =~= orig.update(root as int, root_item));
        }
        if root_declared.is_ok() {
            let mut i: usize = 0;
            while i < items.len()
                invariant
                    items.len() == n,
                    orig.len() == n,
                    root < n,
                    i <= n,
                    declares(orig[root as int], items@[root as int], root_declared),
                    forall|k: int| 0 <= k < i && k != root ==> #[trigger] asked_at::<D, I>(orig, items@, k),
                    forall|k: int| i <= k < n && k != root ==> #[trigger] items@[k] == orig[k],
                decreases items.len() - i,
            {
                if i != root {
                    let ghost before = items@;
                    let y = items.remove(i);
                    assert(y == orig[i as int]);
                    let (x, ignored) = ask(y);
                    items.insert(i, x);
                    proof {
                        assert(items@ =~= before.update(i as int, x));
                        assert forall|k: int| 0 <= k < i + 1 && k != root implies #[trigger] asked_at::<D, I>(
                            orig,
                            items@,
                            k,
                        ) by {
                            if k == i {
                                assert(declares(orig[k], items@[k], ignored));
                            } else {
                                assert(asked_at::<D, I>(orig, before, k));
                                let o = choose|o: Result<Vec<D>, ExecutorError>| declares(orig[k], before[k], o);
                                assert(items@[k] == before[k]);
                                assert(declares(orig[k], items@[k], o));
                            }
                        }
                    }
                }
                i = i + 1;
            }
        }
        proof {
            let gv = Graph { items, successors, in_degree, root };
            assert(adjacency_matches(gv.items_seq().len() as nat, gv.succ_seq(), gv.in_degree_seq(), e));
        }
        let ghost stored = items@;
        let g = Graph { items, successors, in_degree, root };
        let r = graph_declared(g, root_declared);
        proof {
            if r is Ok {
                assert(forall|k: int| 0 <= k < n && k != root ==> #[trigger] asked_at::<D, I>(orig, stored, k));
            }
        }
        r
    }
}

} // verus!
