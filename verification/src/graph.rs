//! The DAG of nodes (modules, chassis, pits) and its wiring. Edges that
//! would close a cycle are refused, so the graph stays acyclic.

use vstd::prelude::*;
use petgraph::graph::DiGraph;
use crate::ast::VtFile;
use crate::error::{ErrV, VenturiError, err_is};
use crate::vcbin::VcBin;

verus! {

// ---- reachability over an edge relation ----

/// `p` is a walk along edges of `e` (at least one node).
pub open spec fn walk(e: spec_fn(u32, u32) -> bool, p: Seq<u32>) -> bool {
    &&& p.len() >= 1
    &&& forall|i: int| 0 <= i < p.len() - 1 ==> #[trigger] e(p[i], p[i + 1])
}

/// `b` can be reached from `a` in zero or more steps.
pub open spec fn reach(e: spec_fn(u32, u32) -> bool, a: u32, b: u32) -> bool {
    exists|p: Seq<u32>| #[trigger] walk(e, p) && p[0] == a && p.last() == b
}

/// `b` can be reached from `a` in one or more steps.
pub open spec fn reach1(e: spec_fn(u32, u32) -> bool, a: u32, b: u32) -> bool {
    exists|p: Seq<u32>| #[trigger] walk(e, p) && p.len() >= 2 && p[0] == a && p.last() == b
}

/// Some node reaches itself in one or more steps.
pub open spec fn cyclic(e: spec_fn(u32, u32) -> bool) -> bool {
    exists|a: u32| #[trigger] reach1(e, a, a)
}

/// The edges of an adjacency list: `b` is a successor of `a`.
pub open spec fn succ_rel(succ: Seq<Seq<u32>>) -> spec_fn(u32, u32) -> bool {
    |a: u32, b: u32| a < succ.len() && succ[a as int].contains(b)
}

/// The edges of an edge list.
pub open spec fn list_rel(es: Seq<(u32, u32)>) -> spec_fn(u32, u32) -> bool {
    |a: u32, b: u32| es.contains((a, b))
}

/// `e` with the edge `f -> t` added.
pub open spec fn with_edge(e: spec_fn(u32, u32) -> bool, f: u32, t: u32) -> spec_fn(u32, u32) -> bool {
    |a: u32, b: u32| e(a, b) || (a == f && b == t)
}

pub proof fn lemma_reach_refl(e: spec_fn(u32, u32) -> bool, a: u32)
    ensures
        reach(e, a, a),
{
    let p = seq![a];
    assert(walk(e, p));
}

/// A step followed by a path.
pub proof fn lemma_reach_cons(e: spec_fn(u32, u32) -> bool, a: u32, b: u32, c: u32)
    requires
        e(a, b),
        reach(e, b, c),
    ensures
        reach1(e, a, c),
        reach(e, a, c),
{
    let p = choose|p: Seq<u32>| #[trigger] walk(e, p) && p[0] == b && p.last() == c;
    let q = seq![a] + p;
    assert forall|i: int| 0 <= i < q.len() - 1 implies #[trigger] e(q[i], q[i + 1]) by {
        if i > 0 {
            assert(q[i] == p[i - 1]);
            assert(q[i + 1] == p[i]);
            assert(e(p[i - 1], p[i - 1 + 1]));
        }
    }
    assert(walk(e, q));
}

/// A path followed by a step.
pub proof fn lemma_reach_snoc(e: spec_fn(u32, u32) -> bool, a: u32, b: u32, c: u32)
    requires
        reach(e, a, b),
        e(b, c),
    ensures
        reach1(e, a, c),
        reach(e, a, c),
{
    let p = choose|p: Seq<u32>| #[trigger] walk(e, p) && p[0] == a && p.last() == b;
    let q = p.push(c);
    assert forall|i: int| 0 <= i < q.len() - 1 implies #[trigger] e(q[i], q[i + 1]) by {
        if i < p.len() - 1 {
            assert(e(p[i], p[i + 1]));
        }
    }
    assert(walk(e, q));
}

/// The first step of a path of one or more steps.
pub proof fn lemma_reach1_first(e: spec_fn(u32, u32) -> bool, a: u32, c: u32) -> (b: u32)
    requires
        reach1(e, a, c),
    ensures
        e(a, b),
        reach(e, b, c),
{
    let p = choose|p: Seq<u32>| #[trigger] walk(e, p) && p.len() >= 2 && p[0] == a && p.last() == c;
    let q = p.subrange(1, p.len() as int);
    assert(e(p[0], p[0int + 1]));
    assert forall|i: int| 0 <= i < q.len() - 1 implies #[trigger] e(q[i], q[i + 1]) by {
        assert(e(p[i + 1], p[i + 1 + 1]));
    }
    assert(walk(e, q));
    p[1]
}

/// Paths compose.
pub proof fn lemma_reach_trans(e: spec_fn(u32, u32) -> bool, a: u32, b: u32, c: u32)
    requires
        reach(e, a, b),
        reach(e, b, c),
    ensures
        reach(e, a, c),
{
    let p = choose|p: Seq<u32>| #[trigger] walk(e, p) && p[0] == a && p.last() == b;
    let q = choose|q: Seq<u32>| #[trigger] walk(e, q) && q[0] == b && q.last() == c;
    let r = p + q.subrange(1, q.len() as int);
    assert forall|i: int| 0 <= i < r.len() - 1 implies #[trigger] e(r[i], r[i + 1]) by {
        if i < p.len() - 1 {
            assert(e(p[i], p[i + 1]));
        } else {
            let j = i - p.len() + 1;
            assert(r[i] == q[j]);
            assert(r[i + 1] == q[j + 1]);
            assert(e(q[j], q[j + 1]));
        }
    }
    assert(walk(e, r));
}

/// Distinct ends: zero or more steps means one or more.
pub proof fn lemma_reach_distinct(e: spec_fn(u32, u32) -> bool, a: u32, b: u32)
    requires
        reach(e, a, b),
        a != b,
    ensures
        reach1(e, a, b),
{
    let p = choose|p: Seq<u32>| #[trigger] walk(e, p) && p[0] == a && p.last() == b;
    assert(p.len() >= 2);
}

/// A path in a graph with one edge added either avoids it, or runs to its
/// source and on from its target.
proof fn lemma_reach_with_edge(e: spec_fn(u32, u32) -> bool, f: u32, t: u32, p: Seq<u32>)
    requires
        walk(with_edge(e, f, t), p),
    ensures
        reach(e, p[0], p.last()) || (reach(e, p[0], f) && reach(e, t, p.last())),
    decreases p.len(),
{
    let e2 = with_edge(e, f, t);
    if p.len() == 1 {
        lemma_reach_refl(e, p[0]);
    } else {
        let q = p.drop_last();
        assert forall|i: int| 0 <= i < q.len() - 1 implies #[trigger] e2(q[i], q[i + 1]) by {
            assert(e2(p[i], p[i + 1]));
        }
        lemma_reach_with_edge(e, f, t, q);
        let x = q.last();
        let c = p.last();
        assert(e2(p[p.len() - 2], p[p.len() - 2 + 1]));
        assert(x == p[p.len() - 2]);
        if e(x, c) {
            if reach(e, p[0], x) {
                lemma_reach_snoc(e, p[0], x, c);
            } else {
                lemma_reach_snoc(e, t, x, c);
            }
        } else {
            assert(x == f && c == t);
            lemma_reach_refl(e, t);
            if reach(e, p[0], x) {
            } else {
                lemma_reach_trans(e, p[0], f, f);
            }
        }
    }
}

/// Adding `f -> t` to an acyclic graph keeps it acyclic unless `t` is `f`
/// or `t` already reaches `f`.
pub proof fn lemma_acyclic_with_edge(e: spec_fn(u32, u32) -> bool, f: u32, t: u32)
    requires
        !cyclic(e),
        t != f,
        !reach1(e, t, f),
    ensures
        !cyclic(with_edge(e, f, t)),
{
    let e2 = with_edge(e, f, t);
    if cyclic(e2) {
        let x = choose|a: u32| #[trigger] reach1(e2, a, a);
        let y = lemma_reach1_first(e2, x, x);
        let p = choose|p: Seq<u32>| #[trigger] walk(e2, p) && p[0] == y && p.last() == x;
        lemma_reach_with_edge(e, f, t, p);
        if e(x, y) {
            if reach(e, y, x) {
                lemma_reach_cons(e, x, y, x);
                assert(reach1(e, x, x));
            } else {
                lemma_reach_cons(e, x, y, f);
                lemma_reach_trans(e, t, x, f);
                lemma_reach_distinct(e, t, f);
            }
        } else {
            assert(x == f && y == t);
            if reach(e, y, x) {
                lemma_reach_distinct(e, t, f);
            } else {
                lemma_reach_distinct(e, t, f);
            }
        }
    }
}

/// A set that holds `start` and is closed under the edges holds every node
/// that `start` reaches.
pub proof fn lemma_closed_reach(e: spec_fn(u32, u32) -> bool, s: spec_fn(u32) -> bool, start: u32, p: Seq<u32>)
    requires
        s(start),
        forall|u: u32, v: u32| s(u) && #[trigger] e(u, v) ==> s(v),
        walk(e, p),
        p[0] == start,
    ensures
        s(p.last()),
    decreases p.len(),
{
    if p.len() > 1 {
        let q = p.drop_last();
        assert forall|i: int| 0 <= i < q.len() - 1 implies #[trigger] e(q[i], q[i + 1]) by {
            assert(e(p[i], p[i + 1]));
        }
        lemma_closed_reach(e, s, start, q);
        assert(e(p[p.len() - 2], p[p.len() - 2 + 1]));
    }
}


// ---- petgraph ----

#[verifier::external_type_specification]
#[verifier::external_body]
#[verifier::reject_recursive_types(N)]
#[verifier::reject_recursive_types(E)]
#[verifier::reject_recursive_types(Ty)]
#[verifier::reject_recursive_types(Ix)]
pub struct ExGraph<N, E, Ty, Ix>(petgraph::graph::Graph<N, E, Ty, Ix>);

#[verifier::external_type_specification]
#[verifier::external_body]
pub struct ExDirected(petgraph::Directed);

/// The node weights of a graph, by node index.
pub uninterp spec fn graph_nodes(g: DiGraph<u32, ()>) -> Seq<u32>;

/// The edges of a graph as (source index, target index), in the order they
/// were added.
pub uninterp spec fn graph_edges(g: DiGraph<u32, ()>) -> Seq<(u32, u32)>;

/// `order` lists each of the nodes `0..n` once, each before its successors.
pub open spec fn topo_order(order: Seq<u32>, n: nat, e: spec_fn(u32, u32) -> bool) -> bool {
    &&& order.len() == n
    &&& order.no_duplicates()
    &&& forall|i: int| 0 <= i < order.len() ==> #[trigger] order[i] < n
    &&& forall|i: int, j: int| 0 <= i < order.len() && 0 <= j < order.len() && #[trigger] e(order[i], order[j]) ==> i < j
}

/// `DiGraph::new`: no nodes, no edges.
#[verifier::external_body]
fn graph_new() -> (g: DiGraph<u32, ()>)
    ensures
        graph_nodes(g) == Seq::<u32>::empty(),
        graph_edges(g) == Seq::<(u32, u32)>::empty(),
{
    DiGraph::new()
}

/// `Graph::add_node`: the node gets the next index. The graph refuses (by
/// panicking) a node whose index would be `u32::MAX`.
#[verifier::external_body]
fn graph_add_node(g: &mut DiGraph<u32, ()>, w: u32) -> (idx: u32)
    requires
        graph_nodes(*old(g)).len() < u32::MAX,
    ensures
        idx == graph_nodes(*old(g)).len(),
        graph_nodes(*final(g)) == graph_nodes(*old(g)).push(w),
        graph_edges(*final(g)) == graph_edges(*old(g)),
{
    g.add_node(w).index() as u32
}

/// `Graph::add_edge`: the edge goes last. It panics on an index out of
/// bounds, and on an edge whose index would be `u32::MAX`.
#[verifier::external_body]
fn graph_add_edge(g: &mut DiGraph<u32, ()>, a: u32, b: u32)
    requires
        a < graph_nodes(*old(g)).len(),
        b < graph_nodes(*old(g)).len(),
        graph_edges(*old(g)).len() < u32::MAX,
    ensures
        graph_nodes(*final(g)) == graph_nodes(*old(g)),
        graph_edges(*final(g)) == graph_edges(*old(g)).push((a, b)),
{
    g.add_edge(petgraph::graph::NodeIndex::new(a as usize), petgraph::graph::NodeIndex::new(b as usize), ());
}

/// `Graph::node_weight` of a node that exists.
#[verifier::external_body]
fn graph_node_weight(g: &DiGraph<u32, ()>, idx: u32) -> (w: u32)
    requires
        idx < graph_nodes(*g).len(),
    ensures
        w == graph_nodes(*g)[idx as int],
{
    *g.node_weight(petgraph::graph::NodeIndex::new(idx as usize)).unwrap()
}

/// The order `petgraph::algo::toposort` gives a graph with these node
/// weights and these edges (in the order added), or `None` for its `Cycle`
/// error: a depth-first search whose details the contract leaves to it.
pub uninterp spec fn toposort_of(nodes: Seq<u32>, edges: Seq<(u32, u32)>) -> Option<Seq<u32>>;

/// `petgraph::algo::toposort`: on an acyclic graph, every node once, each
/// before its successors (as node indices); `None` (its `Cycle` error)
/// only when the graph has a cycle (a self loop counts). Which of the
/// possible orders comes out is a function of the graph alone, named
/// `toposort_of`.
#[verifier::external_body]
fn graph_toposort(g: &DiGraph<u32, ()>) -> (r: Option<Vec<u32>>)
    ensures
        match r {
            Some(order) => topo_order(order@, graph_nodes(*g).len(), list_rel(graph_edges(*g)))
                && toposort_of(graph_nodes(*g), graph_edges(*g)) == Some(order@),
            None => cyclic(list_rel(graph_edges(*g)))
                && toposort_of(graph_nodes(*g), graph_edges(*g)) == None::<Seq<u32>>,
        },
{
    match petgraph::algo::toposort(g, None) {
        Ok(order) => Some(order.into_iter().map(|idx| idx.index() as u32).collect()),
        Err(_) => None,
    }
}

/// `petgraph::algo::is_cyclic_directed`: whether the graph has a cycle.
#[verifier::external_body]
fn graph_is_cyclic(g: &DiGraph<u32, ()>) -> (r: bool)
    ensures
        r == cyclic(list_rel(graph_edges(*g))),
{
    petgraph::algo::is_cyclic_directed(g)
}


// ---- the DAG ----

/// What a node of the DAG is.
#[derive(Clone, Debug)]
pub enum DagNodeKind {
    /// A parsed `.vt` file.
    Module(VtFile),
    /// A compiled chassis.
    Chass(VcBin),
    /// A pit: a versioned slot holding a chassis.
    Pit(PitState),
}

/// Which version of a pit is in force, and where its chassis lies.
#[derive(Clone, Debug)]
pub struct PitState {
    pub name: String,
    pub vcbin_path: Option<String>,
    pub version: usize,
}

#[derive(Clone, Debug)]
pub struct DagNode {
    pub id: u32,
    pub name: String,
    pub kind: DagNodeKind,
    pub van: Option<String>,
}

/// Nodes numbered from 0 in the order they were added, and the edges between
/// them. Every edge is also held in a `petgraph` graph, which sorts the nodes.
pub struct Dag {
    nodes: Vec<DagNode>,
    edges: Vec<Vec<u32>>,
    graph: DiGraph<u32, ()>,
    next_id: u32,
    edge_total: u32,
}

/// The value of a DAG: the names of its nodes by id, and the successors of
/// each node, in the order the edges were added.
pub struct DagV {
    pub names: Seq<Seq<char>>,
    pub succ: Seq<Seq<u32>>,
}

impl View for Dag {
    type V = DagV;

    closed spec fn view(&self) -> DagV {
        DagV {
            names: self.nodes@.map_values(|n: DagNode| n.name@),
            succ: self.edges@.map_values(|v: Vec<u32>| v@),
        }
    }
}

/// The edges of a DAG value.
pub open spec fn dag_rel(v: DagV) -> spec_fn(u32, u32) -> bool {
    succ_rel(v.succ)
}

/// A node with no incoming edge.
pub open spec fn is_root(v: DagV, id: u32) -> bool {
    forall|a: u32| !#[trigger] dag_rel(v)(a, id)
}

/// How many `true`s a sequence holds.
pub open spec fn count_true(s: Seq<bool>) -> nat
    decreases s.len(),
{
    if s.len() == 0 {
        0
    } else {
        count_true(s.drop_last()) + if s.last() { 1nat } else { 0nat }
    }
}

/// Setting an unset flag adds one to the count of set flags.
pub proof fn lemma_count_true(s: Seq<bool>, i: int)
    requires
        0 <= i < s.len(),
        !s[i],
    ensures
        count_true(s.update(i, true)) == count_true(s) + 1,
        count_true(s) < s.len(),
    decreases s.len(),
{
    let t = s.update(i, true);
    if i == s.len() - 1 {
        assert(t.drop_last() =~= s.drop_last());
        lemma_count_le(s.drop_last());
    } else {
        lemma_count_true(s.drop_last(), i);
        assert(t.drop_last() =~= s.drop_last().update(i, true));
    }
}

/// No more flags are set than there are.
pub proof fn lemma_count_le(s: Seq<bool>)
    ensures
        count_true(s) <= s.len(),
    decreases s.len(),
{
    if s.len() > 0 {
        lemma_count_le(s.drop_last());
    }
}

/// What the depth-first walk still lists, from a stack of nodes to visit
/// (the last on top) and the nodes visited so far: the top node, where not
/// yet visited, is marked, listed unless it is `start`, and replaced by its
/// successors, the first of them on top.
#[verifier::opaque]
pub open spec fn dfs_from(succ: Seq<Seq<u32>>, start: u32, stack: Seq<u32>, visited: Seq<bool>) -> Seq<u32>
    decreases (visited.len() - count_true(visited)) as nat, stack.len(),
{
    if stack.len() == 0 {
        seq![]
    } else {
        let node = stack.last();
        let rest = stack.drop_last();
        if node >= visited.len() || visited[node as int] {
            dfs_from(succ, start, rest, visited)
        } else {
            proof {
                lemma_count_true(visited, node as int);
                lemma_count_le(visited.update(node as int, true));
            }
            let more = if node < succ.len() { succ[node as int].reverse() } else { seq![] };
            (if node != start { seq![node] } else { seq![] })
                + dfs_from(succ, start, rest + more, visited.update(node as int, true))
        }
    }
}

/// A visited (or unknown) node on top of the stack is dropped.
proof fn lemma_dfs_skip(succ: Seq<Seq<u32>>, start: u32, stack: Seq<u32>, visited: Seq<bool>)
    requires
        stack.len() > 0,
        stack.last() >= visited.len() || visited[stack.last() as int],
    ensures
        dfs_from(succ, start, stack, visited) == dfs_from(succ, start, stack.drop_last(), visited),
{
    reveal(dfs_from);
}

/// An unvisited node on top of the stack is listed (unless it is `start`)
/// and replaced by its successors.
proof fn lemma_dfs_visit(succ: Seq<Seq<u32>>, start: u32, stack: Seq<u32>, visited: Seq<bool>)
    requires
        stack.len() > 0,
        stack.last() < visited.len(),
        stack.last() < succ.len(),
        !visited[stack.last() as int],
    ensures
        dfs_from(succ, start, stack, visited) == (if stack.last() != start { seq![stack.last()] } else { seq![] })
            + dfs_from(succ, start, stack.drop_last() + succ[stack.last() as int].reverse(),
                visited.update(stack.last() as int, true)),
{
    reveal(dfs_from);
}

/// Nothing is left to list from an empty stack.
proof fn lemma_dfs_empty(succ: Seq<Seq<u32>>, start: u32, visited: Seq<bool>)
    ensures
        dfs_from(succ, start, seq![], visited) == Seq::<u32>::empty(),
{
    reveal(dfs_from);
}

/// The nodes a depth-first walk from `start` lists, `start` left out, each
/// the first time it is reached, successors taken in the order their edges
/// were added.
pub open spec fn dfs_order(d: DagV, start: u32) -> Seq<u32> {
    dfs_from(d.succ, start, seq![start], Seq::new(d.succ.len(), |i: int| false))
}

/// Whether `x` is in `v`.
fn vec_contains(v: &Vec<u32>, x: u32) -> (r: bool)
    ensures
        r == v@.contains(x),
{
    let mut i: usize = 0;
    while i < v.len()
        invariant
            i <= v@.len(),
            forall|j: int| 0 <= j < i ==> v@[j] != x,
        decreases v.len() - i,
    {
        if v[i] == x {
            return true;
        }
        i = i + 1;
    }
    false
}

impl Dag {
    /// The invariant: ids are positions, edges join existing nodes, the
    /// petgraph graph holds the same nodes and edges, and there is no cycle.
    pub closed spec fn wf(&self) -> bool {
        let n = self.nodes@.len();
        &&& self.edges@.len() == n
        &&& self.next_id == n
        &&& forall|i: int| 0 <= i < n ==> (#[trigger] self.nodes@[i]).id == i
        &&& forall|i: int, k: int| 0 <= i < n && 0 <= k < self.edges@[i]@.len() ==> (#[trigger] self.edges@[i]@[k]) < n
        &&& graph_nodes(self.graph) == Seq::new(n, |i: int| i as u32)
        &&& graph_edges(self.graph).len() == self.edge_total
        &&& forall|a: u32, b: u32| #[trigger] graph_edges(self.graph).contains((a, b)) <==> succ_rel(self@.succ)(a, b)
        &&& !cyclic(succ_rel(self@.succ))
    }

    /// The edges in the order they were added.
    pub closed spec fn edge_list(&self) -> Seq<(u32, u32)> {
        graph_edges(self.graph)
    }

    /// The nodes by id.
    pub closed spec fn nodes(&self) -> Seq<DagNode> {
        self.nodes@
    }

    /// How many edges were added.
    pub closed spec fn edge_count(&self) -> nat {
        self.edge_total as nat
    }

    /// An empty DAG.
    pub fn new() -> (r: Dag)
        ensures
            r.wf(),
            r@.names == Seq::<Seq<char>>::empty(),
            r@.succ == Seq::<Seq<u32>>::empty(),
            r.edge_count() == 0,
            r.edge_list() == Seq::<(u32, u32)>::empty(),
    {
        let r = Dag { nodes: Vec::new(), edges: Vec::new(), graph: graph_new(), next_id: 0, edge_total: 0 };
        assert(r@.names =~= Seq::<Seq<char>>::empty());
        assert(r@.succ =~= Seq::<Seq<u32>>::empty());
        assert(graph_nodes(r.graph) =~= Seq::new(0, |i: int| i as u32));
        proof {
            if cyclic(succ_rel(r@.succ)) {
                let a = choose|a: u32| #[trigger] reach1(succ_rel(r@.succ), a, a);
                let b = lemma_reach1_first(succ_rel(r@.succ), a, a);
            }
        }
        r
    }

    /// The number of nodes.
    pub fn len(&self) -> (r: usize)
        requires
            self.wf(),
        ensures
            r == self@.names.len(),
    {
        self.nodes.len()
    }

    /// The number of edges added so far.
    pub fn num_edges(&self) -> (r: u32)
        ensures
            r == self.edge_count(),
    {
        self.edge_total
    }

    /// Adds a node; its id is the number of nodes before it.
    pub fn add_node(&mut self, name: String, kind: DagNodeKind, van: Option<String>) -> (id: u32)
        requires
            old(self).wf(),
            old(self)@.names.len() < u32::MAX,
        ensures
            final(self).wf(),
            id == old(self)@.names.len(),
            final(self)@.names == old(self)@.names.push(name@),
            final(self)@.succ == old(self)@.succ.push(Seq::<u32>::empty()),
            final(self).edge_count() == old(self).edge_count(),
            final(self).edge_list() == old(self).edge_list(),
            final(self).nodes() == old(self).nodes().push(DagNode { id, name, kind, van }),
    {
        let ghost old_succ = self@.succ;
        let id = self.next_id;
        self.next_id = self.next_id + 1;
        let idx = graph_add_node(&mut self.graph, id);
        self.nodes.push(DagNode { id, name, kind, van });
        self.edges.push(Vec::new());
        proof {
            let n = self.nodes@.len();
            assert(graph_nodes(self.graph) =~= Seq::new(n, |i: int| i as u32));
            assert(self@.names =~= old(self)@.names.push(name@));
            assert(self@.succ =~= old_succ.push(Seq::<u32>::empty()));
            assert(succ_rel(self@.succ) =~= succ_rel(old_succ));
            assert forall|i: int, k: int| 0 <= i < n && 0 <= k < self.edges@[i]@.len() implies (#[trigger] self.edges@[i]@[k]) < n by {
                assert(self.edges@[i] == old(self).edges@[i]);
            }
        }
        id
    }

    /// Every node that `start` reaches, `start` itself left out, each once,
    /// in depth-first order (successors in the order their edges were added).
    #[verifier::loop_isolation(false)]
    pub fn downstream(&self, start: u32) -> (r: Vec<u32>)
        requires
            self.wf(),
        ensures
            r@.no_duplicates(),
            forall|b: u32| r@.contains(b) <==> (b != start && reach1(dag_rel(self@), start, b)),
            r@ == dfs_order(self@, start),
    {
        let ghost e = dag_rel(self@);
        let ghost succ = self@.succ;
        let ghost none = Seq::new(succ.len(), |i: int| false);
        let n = self.nodes.len();
        if start as usize >= n {
            let r: Vec<u32> = Vec::new();
            proof {
                assert(seq![start].drop_last() =~= Seq::<u32>::empty());
                lemma_dfs_skip(succ, start, seq![start], none);
                lemma_dfs_empty(succ, start, none);
                assert(r@ =~= dfs_order(self@, start));
                assert forall|b: u32| !reach1(e, start, b) by {
                    if reach1(e, start, b) {
                        let c = lemma_reach1_first(e, start, b);
                    }
                }
            }
            return r;
        }
        let mut visited: Vec<bool> = vec![false; n];
        let mut result: Vec<u32> = Vec::new();
        let mut stack: Vec<u32> = Vec::new();
        stack.push(start);
        proof {
            lemma_reach_refl(e, start);
            assert(stack@[0] == start);
            assert(result@ =~= Seq::<u32>::empty());
            assert(visited@ =~= none);
            assert(stack@ =~= seq![start]);
            assert(result@ + dfs_from(succ, start, stack@, visited@) =~= dfs_order(self@, start));
        }
        while stack.len() > 0
            invariant
                self.wf(),
                e == dag_rel(self@),
                succ == self@.succ,
                result@ + dfs_from(succ, start, stack@, visited@) == dfs_order(self@, start),
                n == self@.succ.len(),
                start < n,
                visited@.len() == n,
                forall|i: int| 0 <= i < stack@.len() ==> (#[trigger] stack@[i]) < n && reach(e, start, stack@[i]),
                forall|u: int| 0 <= u < n && #[trigger] visited@[u] ==> reach(e, start, u as u32),
                forall|u: u32, v: u32| u < n && visited@[u as int] && #[trigger] e(u, v) ==> visited@[v as int] || stack@.contains(v),
                visited@[start as int] || stack@.contains(start),
                result@.no_duplicates(),
                forall|b: u32| #[trigger] result@.contains(b) <==> (b < n && visited@[b as int] && b != start),
            decreases n - count_true(visited@), stack.len(),
        {
            let ghost old_stack = stack@;
            let node = stack.pop().unwrap();
            assert(old_stack =~= stack@.push(node));
            assert(old_stack.last() == node && old_stack.drop_last() =~= stack@);
            if visited[node as usize] {
                proof {
                    lemma_count_le(visited@);
                    lemma_dfs_skip(succ, start, old_stack, visited@);
                }
                continue;
            }
            proof { lemma_count_true(visited@, node as int); }
            let ghost old_visited = visited@;
            let ghost old_result = result@;
            let ghost rest = stack@;
            let ghost pre: Seq<u32> = if node != start { seq![node] } else { seq![] };
            let ghost tail = dfs_from(succ, start, rest + succ[node as int].reverse(), old_visited.update(node as int, true));
            proof {
                lemma_dfs_visit(succ, start, old_stack, old_visited);
            }
            visited.set(node as usize, true);
            if node != start {
                result.push(node);
                proof {
                    assert(!old_result.contains(node));
                    assert forall|b: u32| #[trigger] result@.contains(b) <==> (b < n && visited@[b as int] && b != start) by {
                        assert(old_result.contains(b) <==> (b < n && old_visited[b as int] && b != start));
                        assert(b < n ==> visited@[b as int] == (old_visited[b as int] || b == node));
                        if result@.contains(b) && b != node {
                            let w = choose|w: int| 0 <= w < result@.len() && result@[w] == b;
                            assert(old_result[w] == b);
                        }
                        if b < n && visited@[b as int] && b != start && b != node {
                            assert(old_result.contains(b));
                            let w = choose|w: int| 0 <= w < old_result.len() && old_result[w] == b;
                            assert(result@[w] == b);
                        }
                        if b == node {
                            assert(result@[result@.len() - 1] == node);
                        }
                    }
                }
            }
            let nb = &self.edges[node as usize];
            assert(nb@ == self@.succ[node as int]);
            let ghost mid_stack = stack@;
            assert(result@ =~= old_result + pre);
            let mut k = nb.len();
            assert(nb@.subrange(k as int, nb@.len() as int).reverse() =~= Seq::<u32>::empty());
            assert(stack@ =~= mid_stack + nb@.subrange(k as int, nb@.len() as int).reverse());
            while k > 0
                invariant
                    k <= nb@.len(),
                    nb@ == self@.succ[node as int],
                    stack@ == mid_stack + nb@.subrange(k as int, nb@.len() as int).reverse(),
                    stack@.len() >= mid_stack.len(),
                    stack@.subrange(0, mid_stack.len() as int) == mid_stack,
                    forall|j: int| k <= j < nb@.len() ==> stack@.contains(#[trigger] nb@[j]),
                    forall|i: int| 0 <= i < stack@.len() ==> (#[trigger] stack@[i]) < n && reach(e, start, stack@[i]),
                decreases k,
            {
                k = k - 1;
                let v = nb[k];
                proof {
                    assert(e(node, v));
                    lemma_reach_snoc(e, start, node, v);
                    assert(self.edges@[node as int]@[k as int] < n);
                }
                let ghost before = stack@;
                stack.push(v);
                proof {
                    assert(nb@.subrange(k as int, nb@.len() as int).reverse()
                        =~= nb@.subrange(k + 1, nb@.len() as int).reverse().push(v));
                    assert(stack@ =~= mid_stack + nb@.subrange(k as int, nb@.len() as int).reverse());
                    assert(stack@.subrange(0, mid_stack.len() as int) =~= before.subrange(0, mid_stack.len() as int));
                    assert forall|j: int| k <= j < nb@.len() implies stack@.contains(#[trigger] nb@[j]) by {
                        if j == k {
                            assert(stack@[stack@.len() - 1] == v);
                        } else {
                            let w = choose|w: int| 0 <= w < before.len() && before[w] == nb@[j];
                            assert(stack@[w] == nb@[j]);
                        }
                    }
                }
            }
            proof {
                assert(nb@.subrange(0, nb@.len() as int) =~= nb@);
                assert(stack@ =~= rest + succ[node as int].reverse());
                assert(visited@ == old_visited.update(node as int, true));
                assert(result@ + dfs_from(succ, start, stack@, visited@) =~= old_result + (pre + tail));
                assert forall|u: u32, v: u32| u < n && visited@[u as int] && #[trigger] e(u, v) implies visited@[v as int] || stack@.contains(v) by {
                    if u == node {
                        let j = choose|j: int| 0 <= j < nb@.len() && nb@[j] == v;
                        assert(stack@.contains(nb@[j]));
                    } else if !visited@[v as int] {
                        assert(old_stack.contains(v));
                        let w = choose|w: int| 0 <= w < old_stack.len() && old_stack[w] == v;
                        assert(w < mid_stack.len());
                        assert(stack@[w] == mid_stack[w]);
                    }
                }
                if !visited@[start as int] {
                    let w = choose|w: int| 0 <= w < old_stack.len() && old_stack[w] == start;
                    assert(w < mid_stack.len());
                    assert(stack@[w] == mid_stack[w]);
                }
            }
        }
        proof {
            lemma_dfs_empty(succ, start, visited@);
            assert(stack@ =~= Seq::<u32>::empty());
            assert(result@ =~= result@ + dfs_from(succ, start, stack@, visited@));
            let sv = |u: u32| u < n && visited@[u as int];
            assert forall|b: u32| #[trigger] result@.contains(b) <==> (b != start && reach1(e, start, b)) by {
                if result@.contains(b) {
                    lemma_reach_distinct(e, start, b);
                }
                if b != start && reach1(e, start, b) {
                    let p = choose|p: Seq<u32>| #[trigger] walk(e, p) && p.len() >= 2 && p[0] == start && p.last() == b;
                    assert forall|u: u32, v: u32| sv(u) && #[trigger] e(u, v) implies sv(v) by {
                        assert(self.edges@[u as int]@ == self@.succ[u as int]);
                        let k = choose|k: int| 0 <= k < self@.succ[u as int].len() && self@.succ[u as int][k] == v;
                        assert(self.edges@[u as int]@[k] < n);
                    }
                    lemma_closed_reach(e, sv, start, p);
                }
            }
        }
        result
    }
}


/// The text of the error for a node id that names no node.
pub open spec fn missing_node_text(id: u32) -> Seq<char> {
    "Node "@ + crate::text::decimal(id as nat) + " not found in DAG"@
}

fn missing_node(id: u32) -> (e: VenturiError)
    ensures
        e@ == crate::error::ErrV::Vm(missing_node_text(id)),
{
    let a = crate::text::concat("Node ", crate::text::u64_to_decimal(id as u64).as_str());
    VenturiError::Vm(crate::text::concat(a.as_str(), " not found in DAG"))
}

impl Dag {
    /// Adds the edge `from -> to`. Refused, with the DAG unchanged, when
    /// either end names no node, or when the edge would close a cycle: `to`
    /// is `from`, or `to` already reaches `from`.
    #[verifier::rlimit(40)]
    pub fn add_edge(&mut self, from: u32, to: u32) -> (r: Result<(), VenturiError>)
        requires
            old(self).wf(),
            old(self).edge_count() < u32::MAX,
        ensures
            final(self).wf(),
            from >= old(self)@.names.len() ==> err_is(r, ErrV::Vm(missing_node_text(from))),
            from < old(self)@.names.len() && to >= old(self)@.names.len()
                ==> err_is(r, ErrV::Vm(missing_node_text(to))),
            from < old(self)@.names.len() && to < old(self)@.names.len() && (to == from || reach1(dag_rel(old(self)@), to, from))
                ==> err_is(r, (ErrV::Cycle { node: old(self)@.names[from as int] })),
            r is Err ==> *final(self) == *old(self),
            r is Ok <==> (from < old(self)@.names.len() && to < old(self)@.names.len() && to != from
                && !reach1(dag_rel(old(self)@), to, from)),
            final(self).nodes() == old(self).nodes(),
            r is Ok ==> final(self)@.names == old(self)@.names
                && final(self)@.succ == old(self)@.succ.update(from as int, old(self)@.succ[from as int].push(to))
                && final(self).edge_count() == old(self).edge_count() + 1
                && final(self).edge_list() == old(self).edge_list().push((from, to)),
    {
        let n = self.nodes.len();
        if from as usize >= n {
            return Err(missing_node(from));
        }
        if to as usize >= n {
            return Err(missing_node(to));
        }
        let below = self.downstream(to);
        if vec_contains(&below, from) || to == from {
            assert(self.nodes@[from as int].name@ == self@.names[from as int]);
            return Err(VenturiError::Cycle { node: self.nodes[from as usize].name.clone() });
        }
        let ghost old_succ = self@.succ;
        let ghost e0 = dag_rel(self@);
        graph_add_edge(&mut self.graph, from, to);
        self.edge_total = self.edge_total + 1;
        let mut list = Vec::new();
        std::mem::swap(&mut list, &mut self.edges[from as usize]);
        let ghost old_list = list@;
        assert(old_list == old_succ[from as int]);
        list.push(to);
        self.edges.set(from as usize, list);
        proof {
            let new_succ = old_succ.update(from as int, old_succ[from as int].push(to));
            assert(self@.succ =~= new_succ);
            assert(self@.names =~= old(self)@.names);
            assert forall|a: u32, b: u32| #[trigger] succ_rel(new_succ)(a, b) == with_edge(e0, from, to)(a, b) by {
                if a == from {
                    let l = old_succ[from as int];
                    assert(new_succ[a as int] == l.push(to));
                    if l.push(to).contains(b) && b != to {
                        let w = choose|w: int| 0 <= w < l.push(to).len() && l.push(to)[w] == b;
                        assert(l[w] == b);
                    }
                    if l.contains(b) {
                        let w = choose|w: int| 0 <= w < l.len() && l[w] == b;
                        assert(l.push(to)[w] == b);
                    }
                    if b == to {
                        assert(l.push(to)[l.len() as int] == b);
                    }
                }
            }
            assert(succ_rel(new_succ) =~= with_edge(e0, from, to));
            lemma_acyclic_with_edge(e0, from, to);
            assert forall|a: u32, b: u32| #[trigger] graph_edges(self.graph).contains((a, b)) <==> succ_rel(self@.succ)(a, b) by {
                let ge = graph_edges(old(self).graph);
                if graph_edges(self.graph).contains((a, b)) && (a, b) != (from, to) {
                    let w = choose|w: int| 0 <= w < graph_edges(self.graph).len() && graph_edges(self.graph)[w] == (a, b);
                    assert(ge[w] == (a, b));
                    assert(ge.contains((a, b)));
                }
                if (a, b) == (from, to) {
                    assert(graph_edges(self.graph)[ge.len() as int] == (a, b));
                }
                if ge.contains((a, b)) {
                    let w = choose|w: int| 0 <= w < ge.len() && ge[w] == (a, b);
                    assert(graph_edges(self.graph)[w] == (a, b));
                }
            }
            let m = self.nodes@.len();
            assert forall|i: int, k: int| 0 <= i < m && 0 <= k < self.edges@[i]@.len() implies (#[trigger] self.edges@[i]@[k]) < m by {
                if i != from {
                    assert(self.edges@[i] == old(self).edges@[i]);
                } else if k < old_list.len() {
                    assert(self.edges@[i]@[k] == old(self).edges@[i]@[k]);
                }
            }
        }
        Ok(())
    }

    /// Every node once, each before its successors, in the order that
    /// `petgraph`'s sort gives the graph's edges.
    pub fn topological_order(&self) -> (r: Vec<u32>)
        requires
            self.wf(),
        ensures
            topo_order(r@, self@.names.len(), dag_rel(self@)),
            toposort_of(Seq::new(self@.names.len(), |i: int| i as u32), self.edge_list()) == Some(r@),
    {
        proof {
            assert(list_rel(graph_edges(self.graph)) =~= succ_rel(self@.succ));
            assert(graph_nodes(self.graph) =~= Seq::new(self@.names.len(), |i: int| i as u32));
        }
        match graph_toposort(&self.graph) {
            Some(order) => {
                let mut out: Vec<u32> = Vec::new();
                let mut i: usize = 0;
                while i < order.len()
                    invariant
                        self.wf(),
                        i <= order@.len(),
                        topo_order(order@, self@.names.len(), dag_rel(self@)),
                        out@ == order@.subrange(0, i as int),
                    decreases order.len() - i,
                {
                    let w = graph_node_weight(&self.graph, order[i]);
                    out.push(w);
                    assert(out@ =~= order@.subrange(0, i + 1));
                    i = i + 1;
                }
                assert(out@ =~= order@);
                out
            },
            None => {
                Vec::new()
            },
        }
    }

    /// Whether the graph has a cycle, as `petgraph` finds it: never, since
    /// edges that would close one are refused.
    pub fn has_cycle(&self) -> (r: bool)
        requires
            self.wf(),
        ensures
            r == cyclic(dag_rel(self@)),
            !r,
    {
        proof {
            assert(list_rel(graph_edges(self.graph)) =~= succ_rel(self@.succ));
        }
        graph_is_cyclic(&self.graph)
    }

    /// The first node (by id) with the given name.
    pub fn node_by_name(&self, name: &str) -> (r: Option<u32>)
        requires
            self.wf(),
        ensures
            match r {
                Some(id) => id < self@.names.len() && self@.names[id as int] == name@
                    && forall|j: int| 0 <= j < id ==> self@.names[j] != name@,
                None => forall|j: int| 0 <= j < self@.names.len() ==> self@.names[j] != name@,
            },
    {
        let mut i: usize = 0;
        while i < self.nodes.len()
            invariant
                self.wf(),
                i <= self@.names.len(),
                forall|j: int| 0 <= j < i ==> self@.names[j] != name@,
            decreases self.nodes.len() - i,
        {
            assert(self@.names[i as int] == self.nodes@[i as int].name@);
            if crate::text::str_eq(self.nodes[i].name.as_str(), name) {
                assert(self.nodes@[i as int].id == i);
                return Some(self.nodes[i].id);
            }
            i = i + 1;
        }
        None
    }

    /// The nodes with no incoming edge, by increasing id.
    #[verifier::loop_isolation(false)]
    pub fn roots(&self) -> (r: Vec<u32>)
        requires
            self.wf(),
        ensures
            forall|i: int, j: int| 0 <= i < j < r@.len() ==> r@[i] < r@[j],
            forall|id: u32| r@.contains(id) <==> (id < self@.names.len() && is_root(self@, id)),
    {
        let n = self.nodes.len();
        let ghost e = dag_rel(self@);
        let mut entered: Vec<bool> = vec![false; n];
        let mut a: usize = 0;
        while a < n
            invariant
                a <= n,
                entered@.len() == n,
                forall|b: u32| b < n ==> (entered@[b as int] <==> exists|x: u32| x < a && #[trigger] e(x, b)),
            decreases n - a,
        {
            let list = &self.edges[a];
            assert(list@ == self@.succ[a as int]);
            let mut k: usize = 0;
            let ghost before = entered@;
            while k < list.len()
                invariant
                    k <= list@.len(),
                    entered@.len() == n,
                    forall|c: u32| c < n ==> (#[trigger] entered@[c as int] <==> (before[c as int] || list@.subrange(0, k as int).contains(c))),
                decreases list.len() - k,
            {
                let b = list[k];
                assert(self.edges@[a as int]@[k as int] < n);
                let ghost pre = entered@;
                entered.set(b as usize, true);
                proof {
                    assert forall|c: u32| c < n implies (#[trigger] entered@[c as int] <==> (before[c as int] || list@.subrange(0, k + 1).contains(c))) by {
                        assert(pre[c as int] <==> (before[c as int] || list@.subrange(0, k as int).contains(c)));
                        if list@.subrange(0, k as int).contains(c) {
                            let w = choose|w: int| 0 <= w < k && #[trigger] list@.subrange(0, k as int)[w] == c;
                            assert(list@.subrange(0, k + 1)[w] == c);
                        }
                        if list@.subrange(0, k + 1).contains(c) && c != b {
                            let w = choose|w: int| 0 <= w < k + 1 && #[trigger] list@.subrange(0, k + 1)[w] == c;
                            assert(list@.subrange(0, k as int)[w] == c);
                        }
                        if c == b {
                            assert(list@.subrange(0, k + 1)[k as int] == c);
                        }
                    }
                }
                k = k + 1;
            }
            proof {
                assert(list@.subrange(0, list@.len() as int) =~= list@);
                assert forall|b: u32| b < n implies (entered@[b as int] <==> exists|x: u32| x < a + 1 && #[trigger] e(x, b)) by {
                    assert(before[b as int] <==> exists|x: u32| x < a && #[trigger] e(x, b));
                    if list@.contains(b) {
                        assert(e(a as u32, b));
                    }
                    if exists|x: u32| x < a + 1 && #[trigger] e(x, b) {
                        let x = choose|x: u32| x < a + 1 && #[trigger] e(x, b);
                        if x == a {
                            assert(list@.contains(b));
                        }
                    }
                }
            }
            a = a + 1;
        }
        let mut out: Vec<u32> = Vec::new();
        let mut i: usize = 0;
        while i < n
            invariant
                i <= n,
                forall|x: int, y: int| 0 <= x < y < out@.len() ==> out@[x] < out@[y],
                forall|x: int| 0 <= x < out@.len() ==> out@[x] < i,
                forall|id: u32| out@.contains(id) <==> (id < i && !entered@[id as int]),
            decreases n - i,
        {
            if !entered[i] {
                let ghost before = out@;
                out.push(i as u32);
                proof {
                    assert forall|id: u32| out@.contains(id) <==> (id < i + 1 && !entered@[id as int]) by {
                        if out@.contains(id) && id != i {
                            let w = choose|w: int| 0 <= w < out@.len() && out@[w] == id;
                            assert(before[w] == id);
                        }
                        if id < i && !entered@[id as int] {
                            let w = choose|w: int| 0 <= w < before.len() && before[w] == id;
                            assert(out@[w] == id);
                        }
                        if id == i {
                            assert(out@[out@.len() - 1] == id);
                        }
                    }
                }
            }
            i = i + 1;
        }
        proof {
            assert forall|id: u32| out@.contains(id) <==> (id < n && is_root(self@, id)) by {
                if id < n && !entered@[id as int] {
                    assert forall|x: u32| !#[trigger] dag_rel(self@)(x, id) by {
                        if dag_rel(self@)(x, id) {
                            assert(x < n);
                        }
                    }
                }
                if id < n && is_root(self@, id) && entered@[id as int] {
                    let x = choose|x: u32| x < n && #[trigger] e(x, id);
                    assert(!dag_rel(self@)(x, id));
                }
            }
        }
        out
    }

    /// The nodes that `id` has edges to, in the order the edges were added
    /// (none for an id that names no node).
    pub fn successors(&self, id: u32) -> (r: Vec<u32>)
        requires
            self.wf(),
        ensures
            id < self@.names.len() ==> r@ == self@.succ[id as int],
            id >= self@.names.len() ==> r@.len() == 0,
    {
        if (id as usize) < self.edges.len() {
            let list = &self.edges[id as usize];
            let mut out: Vec<u32> = Vec::new();
            let mut i: usize = 0;
            while i < list.len()
                invariant
                    i <= list@.len(),
                    out@ == list@.subrange(0, i as int),
                decreases list.len() - i,
            {
                out.push(list[i]);
                assert(out@ =~= list@.subrange(0, i + 1));
                i = i + 1;
            }
            assert(list@.subrange(0, list@.len() as int) =~= list@);
            out
        } else {
            Vec::new()
        }
    }

    /// The node with the given id.
    pub fn node(&self, id: u32) -> (r: Option<&DagNode>)
        requires
            self.wf(),
        ensures
            match r {
                Some(nd) => id < self@.names.len() && nd.id == id && nd.name@ == self@.names[id as int]
                    && *nd == self.nodes()[id as int],
                None => id >= self@.names.len(),
            },
    {
        if (id as usize) < self.nodes.len() {
            assert(self.nodes@[id as int].id == id);
            Some(&self.nodes[id as usize])
        } else {
            None
        }
    }
}

impl Default for Dag {
    /// An empty DAG.
    fn default() -> (r: Dag)
        ensures
            r.wf(),
            r@.names == Seq::<Seq<char>>::empty(),
            r@.succ == Seq::<Seq<u32>>::empty(),
    {
        Dag::new()
    }
}

/// The DAG never holds a cycle: whatever edges were added, no node reaches
/// itself.
pub proof fn lemma_dag_acyclic(d: &Dag)
    requires
        d.wf(),
    ensures
        !cyclic(dag_rel(d@)),
        forall|a: u32| !#[trigger] reach1(dag_rel(d@), a, a),
{
}


impl Dag {
    /// Replaces the state of a pit node; any other node is left as it is.
    pub fn set_pit_state(&mut self, id: u32, state: PitState)
        requires
            old(self).wf(),
        ensures
            final(self).wf(),
            final(self)@ == old(self)@,
            final(self).edge_count() == old(self).edge_count(),
            (id < old(self)@.names.len() && old(self).nodes()[id as int].kind is Pit)
                ==> final(self).nodes() == old(self).nodes().update(id as int, DagNode {
                    kind: DagNodeKind::Pit(state), ..old(self).nodes()[id as int] }),
            !(id < old(self)@.names.len() && old(self).nodes()[id as int].kind is Pit)
                ==> final(self).nodes() == old(self).nodes(),
    {
        if (id as usize) < self.nodes.len() {
            let is_pit = match &self.nodes[id as usize].kind {
                DagNodeKind::Pit(_) => true,
                _ => false,
            };
            if is_pit {
                self.nodes[id as usize].kind = DagNodeKind::Pit(state);
                proof {
                    assert(self@.names =~= old(self)@.names);
                    assert(self@.succ =~= old(self)@.succ);
                    assert forall|i: int| 0 <= i < self.nodes@.len() implies (#[trigger] self.nodes@[i]).id == i by {
                        assert(self.nodes@[i].id == old(self).nodes@[i].id);
                    }
                }
            }
        }
    }
}


/// The names of a DAG are those of its nodes, one per node, and there is a
/// successor list per node.
pub proof fn lemma_dag_shape(d: &Dag)
    requires
        d.wf(),
    ensures
        d.nodes().len() == d@.names.len(),
        d@.names.len() <= u32::MAX,
        d@.succ.len() == d@.names.len(),
        d@.names == d.nodes().map_values(|n: DagNode| n.name@),
        forall|i: int| 0 <= i < d.nodes().len() ==> (#[trigger] d.nodes()[i]).id == i,
{
}

} // verus!
