//! The dependency graph, held in a petgraph `Graph`, and its mathematical model:
//! the sequence of node weights and the sequence of edges, in insertion order.
use crate::model::DepNode;
use vstd::prelude::*;

verus! {

#[verifier::external_type_specification]
#[verifier::external_body]
pub struct ExDirected(petgraph::Directed);

#[verifier::external_type_specification]
#[verifier::external_body]
#[verifier::reject_recursive_types(N)]
#[verifier::reject_recursive_types(E)]
#[verifier::reject_recursive_types(Ty)]
#[verifier::reject_recursive_types(Ix)]
pub struct ExGraph<N, E, Ty, Ix>(petgraph::Graph<N, E, Ty, Ix>);

/// The graph of store paths: a directed graph with unit edges and `u32` indices.
pub type DepGraph = petgraph::Graph<DepNode, (), petgraph::Directed, u32>;

/// The node weights of a graph, by index.
pub uninterp spec fn graph_nodes(g: DepGraph) -> Seq<DepNode>;

/// The edges of a graph, as (source, target) pairs, by edge index.
pub uninterp spec fn graph_edges(g: DepGraph) -> Seq<(usize, usize)>;

/// A graph with `u32` indices holds fewer nodes, and fewer edges, than this.
pub const MAX_INDEX: usize = 0xffff_ffff;

/// All edges join nodes of the graph.
pub open spec fn edges_in_range(es: Seq<(usize, usize)>, n: int) -> bool {
    forall|k: int| 0 <= k < es.len() ==> (#[trigger] es[k]).0 < n && es[k].1 < n
}

/// `p` is a walk along the edges `es`.
pub open spec fn is_walk(es: Seq<(usize, usize)>, p: Seq<usize>) -> bool {
    &&& p.len() >= 1
    &&& forall|i: int| 0 <= i < p.len() - 1 ==> #[trigger] es.contains((p[i], p[i + 1]))
}

/// `v` can be reached from `u` by following zero or more edges.
pub open spec fn reaches(es: Seq<(usize, usize)>, u: usize, v: usize) -> bool {
    exists|p: Seq<usize>| #[trigger] is_walk(es, p) && p[0] == u && p.last() == v
}

/// No edge lies on a cycle.
pub open spec fn acyclic(es: Seq<(usize, usize)>) -> bool {
    forall|u: usize, v: usize| #[trigger] es.contains((u, v)) ==> !reaches(es, v, u)
}

/// Sum of the sizes of the first `k` nodes.
pub open spec fn total_prefix(ns: Seq<DepNode>, k: int) -> int
    decreases k,
{
    if k <= 0 {
        0
    } else {
        total_prefix(ns, k - 1) + ns[k - 1].size
    }
}

/// Sum of the sizes of all nodes.
pub open spec fn total_size(ns: Seq<DepNode>) -> int {
    total_prefix(ns, ns.len() as int)
}

/// Sum of the sizes of those of the first `k` nodes that satisfy `p`.
pub open spec fn sum_where(ns: Seq<DepNode>, p: spec_fn(usize) -> bool, k: int) -> int
    decreases k,
{
    if k <= 0 {
        0
    } else {
        sum_where(ns, p, k - 1) + if p((k - 1) as usize) {
            ns[k - 1].size as int
        } else {
            0
        }
    }
}

/// Sum of the sizes of the nodes that `root` reaches.
pub open spec fn reachable_total(ns: Seq<DepNode>, es: Seq<(usize, usize)>, root: usize) -> int {
    sum_where(ns, |v: usize| reaches(es, root, v), ns.len() as int)
}

/// Sum of the sizes of the nodes listed in `o`, in its order.
pub open spec fn listed_total(ns: Seq<DepNode>, o: Seq<usize>, k: int) -> int
    decreases k,
{
    if k <= 0 {
        0
    } else {
        listed_total(ns, o, k - 1) + ns[o[k - 1] as int].size
    }
}

/// `s` lists, each once, exactly the nodes that `start` reaches.
pub open spec fn lists_reachable(es: Seq<(usize, usize)>, n: int, start: usize, s: Seq<usize>) -> bool {
    &&& s.no_duplicates()
    &&& forall|i: int| 0 <= i < s.len() ==> #[trigger] s[i] < n
    &&& forall|v: usize| #[trigger] s.contains(v) <==> reaches(es, start, v)
}

/// `s` lists each node of `0..n` once, and every edge goes forward in it.
pub open spec fn is_topological_order(es: Seq<(usize, usize)>, n: int, s: Seq<usize>) -> bool {
    &&& s.len() == n
    &&& s.no_duplicates()
    &&& forall|i: int| 0 <= i < s.len() ==> #[trigger] s[i] < n
    &&& forall|v: usize| v < n ==> #[trigger] s.contains(v)
    &&& forall|i: int, j: int|
        0 <= i < s.len() && 0 <= j < s.len() && #[trigger] es.contains((s[i], s[j])) ==> i < j
}

/// Relies on petgraph's `Graph::new`: a graph with no node and no edge.
#[verifier::external_body]
pub(crate) fn new_graph() -> (g: DepGraph)
    ensures
        graph_nodes(g) == Seq::<DepNode>::empty(),
        graph_edges(g) == Seq::<(usize, usize)>::empty(),
{
    petgraph::Graph::new()
}

/// Relies on petgraph's `Graph::node_count`: the number of nodes.
#[verifier::external_body]
pub(crate) fn node_count(g: &DepGraph) -> (r: usize)
    ensures
        r == graph_nodes(*g).len(),
{
    g.node_count()
}

/// Relies on petgraph's `Graph::edge_count`: the number of edges.
#[verifier::external_body]
pub(crate) fn edge_count(g: &DepGraph) -> (r: usize)
    ensures
        r == graph_edges(*g).len(),
{
    g.edge_count()
}

/// Relies on petgraph's `Graph::add_node`: the weight is pushed, its index returned.
/// It panics only when the index type is exhausted.
#[verifier::external_body]
pub(crate) fn add_node(g: &mut DepGraph, w: DepNode) -> (r: usize)
    requires
        graph_nodes(*old(g)).len() < MAX_INDEX,
    ensures
        graph_nodes(*final(g)) == graph_nodes(*old(g)).push(w),
        graph_edges(*final(g)) == graph_edges(*old(g)),
        r == graph_nodes(*old(g)).len(),
{
    g.add_node(w).index()
}

/// Relies on petgraph's `Graph::add_edge`: the edge is pushed. It panics when an end
/// is not a node, or when the index type is exhausted.
#[verifier::external_body]
pub(crate) fn add_edge(g: &mut DepGraph, a: usize, b: usize)
    requires
        a < graph_nodes(*old(g)).len(),
        b < graph_nodes(*old(g)).len(),
        graph_edges(*old(g)).len() < MAX_INDEX,
    ensures
        graph_nodes(*final(g)) == graph_nodes(*old(g)),
        graph_edges(*final(g)) == graph_edges(*old(g)).push((a, b)),
{
    g.add_edge(petgraph::graph::NodeIndex::new(a), petgraph::graph::NodeIndex::new(b), ());
}

/// Relies on petgraph's `Graph::update_edge`: an edge is pushed unless one from `a`
/// to `b` is already there, whose unit weight is then rewritten.
#[verifier::external_body]
pub(crate) fn update_edge(g: &mut DepGraph, a: usize, b: usize)
    requires
        a < graph_nodes(*old(g)).len(),
        b < graph_nodes(*old(g)).len(),
        graph_edges(*old(g)).len() < MAX_INDEX,
    ensures
        graph_nodes(*final(g)) == graph_nodes(*old(g)),
        graph_edges(*old(g)).contains((a, b)) ==> graph_edges(*final(g)) == graph_edges(*old(g)),
        !graph_edges(*old(g)).contains((a, b)) ==> graph_edges(*final(g)) == graph_edges(
            *old(g),
        ).push((a, b)),
{
    g.update_edge(petgraph::graph::NodeIndex::new(a), petgraph::graph::NodeIndex::new(b), ());
}

/// Relies on petgraph's `Index` on a `Graph`: the weight of node `i`.
#[verifier::external_body]
pub(crate) fn node_at(g: &DepGraph, i: usize) -> (r: &DepNode)
    requires
        i < graph_nodes(*g).len(),
    ensures
        *r == graph_nodes(*g)[i as int],
{
    &g[petgraph::graph::NodeIndex::new(i)]
}

/// Relies on petgraph's `IndexMut` on a `Graph`: the weight of node `i` is swapped
/// for `w` and handed back.
#[verifier::external_body]
pub(crate) fn replace_node(g: &mut DepGraph, i: usize, w: DepNode) -> (r: DepNode)
    requires
        i < graph_nodes(*old(g)).len(),
    ensures
        r == graph_nodes(*old(g))[i as int],
        graph_nodes(*final(g)) == graph_nodes(*old(g)).update(i as int, w),
        graph_edges(*final(g)) == graph_edges(*old(g)),
{
    std::mem::replace(&mut g[petgraph::graph::NodeIndex::new(i)], w)
}

/// Relies on petgraph's `Graph::raw_edges`: the ends of edge `k`.
#[verifier::external_body]
pub(crate) fn edge_at(g: &DepGraph, k: usize) -> (r: (usize, usize))
    requires
        k < graph_edges(*g).len(),
    ensures
        r == graph_edges(*g)[k as int],
{
    let e = &g.raw_edges()[k];
    (e.source().index(), e.target().index())
}

/// Relies on petgraph's `Graph::find_edge`: the index of an edge from `a` to `b`, if
/// there is one.
#[verifier::external_body]
pub(crate) fn find_edge(g: &DepGraph, a: usize, b: usize) -> (r: Option<usize>)
    ensures
        r.is_some() ==> r.unwrap() < graph_edges(*g).len() && graph_edges(*g)[r.unwrap() as int]
            == (a, b),
        r.is_none() ==> !graph_edges(*g).contains((a, b)),
{
    g.find_edge(petgraph::graph::NodeIndex::new(a), petgraph::graph::NodeIndex::new(b)).map(
        |e| e.index(),
    )
}

/// Relies on petgraph's `Graph::remove_edge`: edge `k` is removed and the last edge
/// takes its index.
#[verifier::external_body]
pub(crate) fn remove_edge(g: &mut DepGraph, k: usize)
    requires
        k < graph_edges(*old(g)).len(),
    ensures
        graph_nodes(*final(g)) == graph_nodes(*old(g)),
        graph_edges(*final(g)) == graph_edges(*old(g)).update(
            k as int,
            graph_edges(*old(g)).last(),
        ).drop_last(),
{
    g.remove_edge(petgraph::graph::EdgeIndex::new(k));
}

/// Relies on petgraph's `Graph::neighbors`: the targets of the edges out of `a`, one
/// for each such edge.
#[verifier::external_body]
pub(crate) fn neighbors(g: &DepGraph, a: usize) -> (r: Vec<usize>)
    ensures
        forall|v: usize| #[trigger] r@.contains(v) <==> graph_edges(*g).contains((a, v)),
        r@.len() <= graph_edges(*g).len(),
{
    g.neighbors(petgraph::graph::NodeIndex::new(a)).map(|v| v.index()).collect()
}

/// Relies on petgraph's `Dfs`: the nodes that `start` reaches, each once, in
/// depth-first order, `start` first.
#[verifier::external_body]
pub(crate) fn dfs_order(g: &DepGraph, start: usize) -> (r: Vec<usize>)
    requires
        start < graph_nodes(*g).len(),
        edges_in_range(graph_edges(*g), graph_nodes(*g).len() as int),
    ensures
        lists_reachable(graph_edges(*g), graph_nodes(*g).len() as int, start, r@),
        r@.len() > 0 && r@[0] == start,
{
    let mut dfs = petgraph::visit::Dfs::new(g, petgraph::graph::NodeIndex::new(start));
    let mut r = Vec::new();
    while let Some(v) = dfs.next(g) {
        r.push(v.index());
    }
    r
}

/// Relies on petgraph's `Bfs`: the nodes that `start` reaches, each once, in
/// breadth-first order, `start` first.
#[verifier::external_body]
pub(crate) fn bfs_order(g: &DepGraph, start: usize) -> (r: Vec<usize>)
    requires
        start < graph_nodes(*g).len(),
        edges_in_range(graph_edges(*g), graph_nodes(*g).len() as int),
    ensures
        lists_reachable(graph_edges(*g), graph_nodes(*g).len() as int, start, r@),
        r@.len() > 0 && r@[0] == start,
{
    let mut bfs = petgraph::visit::Bfs::new(g, petgraph::graph::NodeIndex::new(start));
    let mut r = Vec::new();
    while let Some(v) = bfs.next(g) {
        r.push(v.index());
    }
    r
}

/// Relies on petgraph's `DfsPostOrder`: the nodes that `start` reaches, each once,
/// each emitted once all its successors are emitted or still open on the search
/// stack, below it. So an edge whose target comes no earlier than its source is a
/// back edge: its target reaches its source.
#[verifier::external_body]
pub(crate) fn dfs_post_order(g: &DepGraph, start: usize) -> (r: Vec<usize>)
    requires
        start < graph_nodes(*g).len(),
        edges_in_range(graph_edges(*g), graph_nodes(*g).len() as int),
    ensures
        lists_reachable(graph_edges(*g), graph_nodes(*g).len() as int, start, r@),
        forall|i: int, j: int|
            0 <= i <= j < r@.len() && #[trigger] graph_edges(*g).contains((r@[i], r@[j])) ==> reaches(
                graph_edges(*g),
                r@[j],
                r@[i],
            ),
{
    let mut dfs = petgraph::visit::DfsPostOrder::new(g, petgraph::graph::NodeIndex::new(start));
    let mut r = Vec::new();
    while let Some(v) = dfs.next(g) {
        r.push(v.index());
    }
    r
}

/// Relies on petgraph's `algo::toposort`: an order of all nodes in which every edge
/// goes forward, or `None` when the graph has a cycle.
#[verifier::external_body]
pub(crate) fn toposort(g: &DepGraph) -> (r: Option<Vec<usize>>)
    requires
        edges_in_range(graph_edges(*g), graph_nodes(*g).len() as int),
    ensures
        r.is_some() ==> is_topological_order(
            graph_edges(*g),
            graph_nodes(*g).len() as int,
            r.unwrap()@,
        ),
        r.is_none() ==> !acyclic(graph_edges(*g)),
{
    match petgraph::algo::toposort(g, None) {
        Ok(order) => Some(order.into_iter().map(|v| v.index()).collect()),
        Err(_) => None,
    }
}

} // verus!
