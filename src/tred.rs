//! Transitive reduction that keeps the back edges of a depth-first search.
use crate::condense::no_incoming;
use crate::graph::{
    acyclic, add_edge, add_node, dfs_post_order, edge_at, edge_count, edges_in_range,
    graph_edges, graph_nodes, is_topological_order, new_graph, node_count, reaches,
    replace_node, DepGraph, MAX_INDEX,
};
use crate::infos::{graph_wf, DepInfos};
use crate::model::DepNode;
use crate::paths::{lemma_reach_edge, lemma_reach_lift, lemma_reach_lift_map, lemma_reach_map};
use crate::sums::lemma_distinct_covering;
use petgraph::visit::{EdgeRef, IntoEdgeReferences};
use vstd::prelude::*;

verus! {

/// An adjacency list of petgraph whose nodes are numbered along a topological order,
/// held opaque: what the library knows of it is `list_edges`.
#[verifier::external_body]
pub struct TopoList {
    list: petgraph::adj::List<(), u32>,
}

/// The edges of an adjacency list, row after row, each row in insertion order.
pub uninterp spec fn list_edges(l: TopoList) -> Seq<(usize, usize)>;

/// Edges sorted by source, then by target.
pub open spec fn sorted_edges(es: Seq<(usize, usize)>) -> bool {
    forall|i: int, j: int|
        0 <= i < j < es.len() ==> (#[trigger] es[i]).0 < (#[trigger] es[j]).0 || (es[i].0 == es[j].0
            && es[i].1 <= es[j].1)
}

/// Every edge goes from a smaller index to a larger one.
pub open spec fn forward_edges(es: Seq<(usize, usize)>) -> bool {
    forall|k: int| 0 <= k < es.len() ==> (#[trigger] es[k]).0 < es[k].1
}

/// Relies on petgraph's `algo::tred::dag_to_toposorted_adjacency_list`: node `i` of the
/// list is node `order[i]` of the graph; for each node of `order` in turn, an edge
/// is pushed from each of its predecessors, so each row is sorted, and there is one
/// edge for each edge of the graph.
#[verifier::external_body]
fn toposorted_adjacency(dag: &DepGraph, order: &Vec<usize>) -> (r: TopoList)
    requires
        edges_in_range(graph_edges(*dag), graph_nodes(*dag).len() as int),
        is_topological_order(graph_edges(*dag), graph_nodes(*dag).len() as int, order@),
    ensures
        sorted_edges(list_edges(r)),
        forward_edges(list_edges(r)),
        list_edges(r).len() == graph_edges(*dag).len(),
        forall|i: usize, j: usize| #[trigger]
            list_edges(r).contains((i, j)) <==> (i < order@.len() && j < order@.len()
                && graph_edges(*dag).contains((order@[i as int], order@[j as int]))),
{
    let nodes: Vec<petgraph::graph::NodeIndex<u32>> = order.iter().map(
        |&v| petgraph::graph::NodeIndex::new(v),
    ).collect();
    TopoList { list: petgraph::algo::tred::dag_to_toposorted_adjacency_list::<_, u32>(dag, &nodes).0 }
}

/// Relies on petgraph's `algo::tred::dag_transitive_reduction_closure`, given a list
/// in the form it asks for: its first result, the transitive reduction, keeps some of
/// the edges, at most one per edge of the input, and the same reachability; and it is
/// minimal: no kept edge `i -> j` has a kept edge `i -> k`, `k != j`, with `k`
/// reaching `j`, since the neighbours of `i` are taken in increasing order and all
/// that an earlier one reaches is marked before `j` comes.
#[verifier::external_body]
fn reduce_list(l: &TopoList) -> (r: TopoList)
    requires
        sorted_edges(list_edges(*l)),
        forward_edges(list_edges(*l)),
    ensures
        list_edges(r).len() <= list_edges(*l).len(),
        forall|e: (usize, usize)| #[trigger] list_edges(r).contains(e) ==> list_edges(*l).contains(e),
        forall|u: usize, v: usize| #[trigger]
            reaches(list_edges(r), u, v) <==> reaches(list_edges(*l), u, v),
        forall|i: usize, j: usize, k: usize|
            #[trigger] list_edges(r).contains((i, j)) && #[trigger] list_edges(r).contains((i, k)) && j != k
                ==> !reaches(list_edges(r), k, j),
{
    TopoList { list: petgraph::algo::tred::dag_transitive_reduction_closure(&l.list).0 }
}

/// Relies on petgraph's `edge_references` on a `List`: the edges, row after row.
#[verifier::external_body]
fn list_edge_pairs(l: &TopoList) -> (r: Vec<(usize, usize)>)
    ensures
        r@ == list_edges(*l),
{
    l.list.edge_references().map(|e| (e.source() as usize, e.target() as usize)).collect()
}

/// `rank` numbers the nodes of `di` along the reverse post order of a depth-first
/// search from the root; `r` keeps every edge out of the root and every back edge
/// (one whose target does not rank after its source, and so reaches its source).
pub open spec fn tred_ranked(di: DepInfos, r: DepInfos, rank: Seq<usize>) -> bool {
    let n = di.nodes().len();
    &&& rank.len() == n
    &&& forall|v: int| 0 <= v < n ==> #[trigger] rank[v] < n
    &&& forall|u: int, v: int| 0 <= u < n && 0 <= v < n && #[trigger] rank[u] == #[trigger] rank[v] ==> u == v
    &&& forall|u: usize, v: usize|
        #[trigger] di.edges().contains((u, v)) && rank[u as int] >= rank[v as int] ==> reaches(di.edges(), v, u)
    &&& forall|u: usize, v: usize|
        #[trigger] di.edges().contains((u, v)) && (u == di.root || rank[u as int] >= rank[v as int])
            ==> r.edges().contains((u, v))
}

/// Removes the edges that a longer path makes redundant, keeping reachability.
///
/// Back edges of a depth-first search from the root are set aside first, the
/// reduction is made on the acyclic rest, and the back edges are put back, so the
/// result need not be minimal where there are cycles. The edges out of the root are
/// all kept.
pub fn transitive_reduction(di: DepInfos) -> (r: DepInfos)
    requires
        di.wf(),
        di.connected(),
        di.has_room(0, di.edges().len() as int),
    ensures
        r.wf(),
        r.root == di.root,
        r.metadata == di.metadata,
        r.nodes() == di.nodes(),
        forall|e: (usize, usize)| #[trigger] r.edges().contains(e) ==> di.edges().contains(e),
        forall|u: usize, v: usize| #[trigger]
            reaches(r.edges(), u, v) <==> reaches(di.edges(), u, v),
        forall|v: usize| #[trigger]
            di.edges().contains((di.root, v)) ==> r.edges().contains((di.root, v)),
        acyclic(di.edges()) ==> acyclic(r.edges()),
        no_incoming(di.edges(), di.root) ==> no_incoming(r.edges(), r.root),
        exists|rank: Seq<usize>| #[trigger] tred_ranked(di, r, rank),
        acyclic(di.edges()) ==> forall|u: usize, v: usize, w: usize|
            #[trigger] r.edges().contains((u, v)) && #[trigger] r.edges().contains((u, w)) && u != r.root
                && w != v ==> !reaches(r.edges(), w, v),
{
    let ghost ns = di.nodes();
    let ghost es = di.edges();
    let DepInfos { graph: mut graph, root, metadata } = di;
    let n = node_count(&graph);
    let post = dfs_post_order(&graph, root);
    proof {
        assert forall|v: usize| v < n implies #[trigger] post@.contains(v) by {
            assert(reaches(es, root, v));
        }
        lemma_distinct_covering(post@, n as int);
    }
    // a topological order of the acyclic part: the reverse of the post order
    let mut topo: Vec<usize> = Vec::new();
    let mut i: usize = 0;
    while i < n
        invariant
            post@.len() == n,
            i <= n,
            topo@.len() == i,
            forall|j: int| 0 <= j < i ==> #[trigger] topo@[j] == post@[n - 1 - j],
        decreases n - i,
    {
        topo.push(post[n - 1 - i]);
        i += 1;
    }
    proof {
        assert forall|a: int, b: int| 0 <= a < b < n implies topo@[a] != topo@[b] by {
            assert(topo@[a] == post@[n - 1 - a] && topo@[b] == post@[n - 1 - b]);
        }
        assert forall|v: usize| v < n implies #[trigger] topo@.contains(v) by {
            assert(post@.contains(v));
            let w = choose|w: int| 0 <= w < n && post@[w] == v;
            assert(topo@[n - 1 - w] == v);
        }
        assert forall|j: int| 0 <= j < n implies #[trigger] topo@[j] < n by {
            assert(topo@[j] == post@[n - 1 - j]);
        }
    }
    // rank[v] is the position of v in topo
    let mut rank: Vec<usize> = Vec::new();
    let mut i: usize = 0;
    while i < n
        invariant
            i <= n,
            rank@.len() == i,
            forall|j: int| 0 <= j < i ==> #[trigger] rank@[j] == 0,
        decreases n - i,
    {
        rank.push(0);
        i += 1;
    }
    let mut i: usize = 0;
    while i < n
        invariant
            i <= n,
            rank@.len() == n,
            topo@.len() == n,
            topo@.no_duplicates(),
            forall|j: int| 0 <= j < n ==> #[trigger] topo@[j] < n,
            forall|j: int| 0 <= j < i ==> rank@[#[trigger] topo@[j] as int] == j,
        decreases n - i,
    {
        let v = topo[i];
        rank.set(v, i);
        proof {
            assert forall|j: int| 0 <= j < i + 1 implies rank@[#[trigger] topo@[j] as int] == j by {
                if j < i {
                    assert(topo@[j] != topo@[i as int]);
                }
            }
        }
        i += 1;
    }
    proof {
        assert forall|v: int| 0 <= v < n implies #[trigger] rank@[v] < n && topo@[rank@[v] as int] == v by {
            assert(topo@.contains(v as usize));
            let w = choose|w: int| 0 <= w < n && topo@[w] == v as usize;
            assert(rank@[topo@[w] as int] == w);
        }
    }
    // the forward edges
    let ecount = edge_count(&graph);
    let mut dag = new_graph();
    let mut i: usize = 0;
    while i < n
        invariant
            i <= n,
            n < MAX_INDEX,
            graph_nodes(dag).len() == i,
            graph_edges(dag) == Seq::<(usize, usize)>::empty(),
        decreases n - i,
    {
        add_node(&mut dag, DepNode::dummy());
        i += 1;
    }
    let mut k: usize = 0;
    while k < ecount
        invariant
            ecount == es.len(),
            graph_edges(graph) == es,
            graph_wf(ns, es),
            n == ns.len(),
            rank@.len() == n,
            k <= ecount,
            graph_nodes(dag).len() == n,
            graph_edges(dag).len() <= k,
            edges_in_range(graph_edges(dag), n as int),
            forall|a: usize, b: usize| #[trigger]
                graph_edges(dag).contains((a, b)) <==> (es.subrange(0, k as int).contains((a, b))
                    && rank@[a as int] < rank@[b as int]),
        decreases ecount - k,
    {
        let (a, b) = edge_at(&graph, k);
        let ghost before = graph_edges(dag);
        proof {
            assert(es[k as int].0 < n && es[k as int].1 < n);
        }
        if rank[a] < rank[b] {
            add_edge(&mut dag, a, b);
        }
        proof {
            lemma_prefix_step(es, k as int);
            assert forall|x: usize, y: usize| #[trigger]
                graph_edges(dag).contains((x, y)) <==> (es.subrange(0, k + 1).contains((x, y))
                    && rank@[x as int] < rank@[y as int]) by {
                lemma_push_or_same(before, graph_edges(dag), (a, b), (x, y));
            }
        }
        k += 1;
    }
    proof {
        assert(es.subrange(0, ecount as int) =~= es);
        assert forall|i: int, j: int|
            0 <= i < n && 0 <= j < n && #[trigger] graph_edges(dag).contains((topo@[i], topo@[j])) implies i < j by {
            assert(rank@[topo@[i] as int] == i);
            assert(rank@[topo@[j] as int] == j);
        }
    }
    let l = toposorted_adjacency(&dag, &topo);
    let t = reduce_list(&l);
    let pairs = list_edge_pairs(&t);
    // the same nodes
    let mut new = new_graph();
    let mut i: usize = 0;
    while i < n
        invariant
            i <= n,
            n == ns.len(),
            n < MAX_INDEX,
            graph_nodes(graph).len() == n,
            graph_edges(graph) == es,
            forall|j: int| i <= j < n ==> #[trigger] graph_nodes(graph)[j] == ns[j],
            graph_nodes(new) == ns.subrange(0, i as int),
            graph_edges(new) == Seq::<(usize, usize)>::empty(),
        decreases n - i,
    {
        let w = replace_node(&mut graph, i, DepNode::dummy());
        add_node(&mut new, w);
        proof {
            assert(ns.subrange(0, i + 1) =~= ns.subrange(0, i as int).push(w));
        }
        i += 1;
    }
    proof {
        assert(ns.subrange(0, n as int) =~= ns);
    }
    // the back edges and the edges out of the root
    let mut k: usize = 0;
    while k < ecount
        invariant
            ecount == es.len(),
            graph_edges(graph) == es,
            graph_wf(ns, es),
            n == ns.len(),
            rank@.len() == n,
            k <= ecount,
            graph_nodes(new) == ns,
            graph_edges(new).len() <= k,
            edges_in_range(graph_edges(new), n as int),
            forall|a: usize, b: usize| #[trigger]
                graph_edges(new).contains((a, b)) <==> (es.subrange(0, k as int).contains((a, b))
                    && (rank@[a as int] >= rank@[b as int] || a == root)),
        decreases ecount - k,
    {
        let (a, b) = edge_at(&graph, k);
        let ghost before = graph_edges(new);
        proof {
            assert(es[k as int].0 < n && es[k as int].1 < n);
        }
        if rank[a] >= rank[b] || a == root {
            add_edge(&mut new, a, b);
        }
        proof {
            lemma_prefix_step(es, k as int);
            assert forall|x: usize, y: usize| #[trigger]
                graph_edges(new).contains((x, y)) <==> (es.subrange(0, k + 1).contains((x, y))
                    && (rank@[x as int] >= rank@[y as int] || x == root)) by {
                lemma_push_or_same(before, graph_edges(new), (a, b), (x, y));
            }
        }
        k += 1;
    }
    proof {
        assert(es.subrange(0, ecount as int) =~= es);
    }
    let ghost kept = graph_edges(new);
    let ghost te = list_edges(t);
    // the edges of the reduction
    let mut q: usize = 0;
    while q < pairs.len()
        invariant
            pairs@ == te,
            te.len() <= list_edges(l).len(),
            list_edges(l).len() == graph_edges(dag).len(),
            graph_edges(dag).len() <= es.len(),
            es.len() + es.len() < MAX_INDEX,
            kept.len() <= es.len(),
            forall|e: (usize, usize)| #[trigger] te.contains(e) ==> list_edges(l).contains(e),
            forall|i: usize, j: usize| #[trigger]
                list_edges(l).contains((i, j)) ==> (i < n && j < n),
            topo@.len() == n,
            forall|j: int| 0 <= j < n ==> #[trigger] topo@[j] < n,
            n == ns.len(),
            q <= te.len(),
            graph_nodes(new) == ns,
            graph_edges(new).len() <= kept.len() + q,
            edges_in_range(graph_edges(new), n as int),
            forall|a: usize, b: usize| #[trigger]
                graph_edges(new).contains((a, b)) <==> (kept.contains((a, b)) || exists|w: int|
                    0 <= w < q && topo@[#[trigger] te[w].0 as int] == a && topo@[te[w].1 as int] == b),
        decreases te.len() - q,
    {
        let (i, j) = pairs[q];
        let ghost before = graph_edges(new);
        proof {
            assert(te.contains(te[q as int]));
            assert(list_edges(l).contains((i, j)));
        }
        add_edge(&mut new, topo[i], topo[j]);
        proof {
            assert forall|a: usize, b: usize| #[trigger]
                graph_edges(new).contains((a, b)) <==> (kept.contains((a, b)) || exists|w: int|
                    0 <= w < q + 1 && topo@[#[trigger] te[w].0 as int] == a && topo@[te[w].1 as int] == b) by {
                lemma_push_or_same(before, graph_edges(new), (topo@[i as int], topo@[j as int]), (a, b));
                if exists|w: int|
                    0 <= w < q + 1 && topo@[#[trigger] te[w].0 as int] == a && topo@[te[w].1 as int] == b {
                    let w = choose|w: int|
                        0 <= w < q + 1 && topo@[#[trigger] te[w].0 as int] == a && topo@[te[w].1 as int] == b;
                    if w == q {
                        assert((a, b) == (topo@[i as int], topo@[j as int]));
                    }
                }
            }
        }
        q += 1;
    }
    let ghost ne = graph_edges(new);
    proof {
        // each edge of the result is an edge of the input
        assert forall|e: (usize, usize)| #[trigger] ne.contains(e) implies es.contains(e) by {
            if kept.contains(e) {
                let w = choose|w: int| 0 <= w < es.len() && es.subrange(0, es.len() as int)[w] == e;
                assert(es[w] == e);
            } else {
                let w = choose|w: int|
                    0 <= w < q && topo@[#[trigger] te[w].0 as int] == e.0 && topo@[te[w].1 as int] == e.1;
                assert(te.contains(te[w]));
                assert(list_edges(l).contains((te[w].0, te[w].1)));
                assert(graph_edges(dag).contains((topo@[te[w].0 as int], topo@[te[w].1 as int])));
                let x = choose|x: int| 0 <= x < es.len() && es.subrange(0, es.len() as int)[x] == (
                    topo@[te[w].0 as int],
                    topo@[te[w].1 as int],
                );
                assert(es[x] == e);
            }
        }
        // the result reaches what the input reaches
        let f = |x: usize| if x < n { topo@[x as int] } else { x };
        assert forall|x: usize, y: usize| #[trigger] te.contains((x, y)) implies ne.contains((f(x), f(y))) by {
            assert(list_edges(l).contains((x, y)));
            let w = choose|w: int| 0 <= w < te.len() && te[w] == (x, y);
            assert(topo@[te[w].0 as int] == f(x));
        }
        assert forall|a: usize, b: usize| #[trigger] es.contains((a, b)) implies reaches(ne, a, b) by {
            let w = choose|w: int| 0 <= w < es.len() && es[w] == (a, b);
            assert(es[w].0 < n && es[w].1 < n);
            assert(es.subrange(0, es.len() as int)[w] == (a, b));
            if rank@[a as int] >= rank@[b as int] || a == root {
                assert(kept.contains((a, b)));
                lemma_reach_edge(ne, a, b);
            } else {
                assert(graph_edges(dag).contains((a, b)));
                let ra = rank@[a as int];
                let rb = rank@[b as int];
                assert(topo@[ra as int] == a && topo@[rb as int] == b);
                assert(list_edges(l).contains((ra, rb)));
                lemma_reach_edge(list_edges(l), ra, rb);
                assert(reaches(te, ra, rb));
                lemma_reach_map(te, ne, f, ra, rb);
            }
        }
        assert forall|a: usize, b: usize| #[trigger] ne.contains((a, b)) implies reaches(es, a, b) by {
            lemma_reach_edge(es, a, b);
        }
        assert forall|u: usize, v: usize| #[trigger] reaches(ne, u, v) <==> reaches(es, u, v) by {
            if reaches(ne, u, v) {
                lemma_reach_lift(ne, es, u, v);
            }
            if reaches(es, u, v) {
                lemma_reach_lift(es, ne, u, v);
            }
        }
        assert forall|v: usize| #[trigger] es.contains((root, v)) implies ne.contains((root, v)) by {
            assert(es.subrange(0, es.len() as int) =~= es);
        }
        if acyclic(es) {
            assert forall|u: usize, v: usize| #[trigger] ne.contains((u, v)) implies !reaches(ne, v, u) by {
                assert(es.contains((u, v)));
            }
        }
        if no_incoming(es, root) {
            assert forall|a: usize| !#[trigger] ne.contains((a, root)) by {
                if ne.contains((a, root)) {
                    assert(es.contains((a, root)));
                }
            }
        }
        // back edges close cycles
        assert forall|u: usize, v: usize|
            #[trigger] es.contains((u, v)) && rank@[u as int] >= rank@[v as int] implies reaches(es, v, u) by {
            let w = choose|w: int| 0 <= w < es.len() && es[w] == (u, v);
            assert(es[w].0 < n && es[w].1 < n);
            let pu = n - 1 - rank@[u as int];
            let pv = n - 1 - rank@[v as int];
            assert(topo@[rank@[u as int] as int] == u);
            assert(topo@[rank@[v as int] as int] == v);
            assert(post@[pu] == u && post@[pv] == v);
        }
        assert forall|u: int, v: int| 0 <= u < n && 0 <= v < n && #[trigger] rank@[u] == #[trigger] rank@[v] implies u == v by {
            assert(topo@[rank@[u] as int] == u && topo@[rank@[v] as int] == v);
        }
        assert forall|u: usize, v: usize|
            #[trigger] es.contains((u, v)) && (u == root || rank@[u as int] >= rank@[v as int]) implies ne.contains((u, v)) by {
            let w = choose|w: int| 0 <= w < es.len() && es[w] == (u, v);
            assert(es[w].0 < n && es[w].1 < n);
            assert(es.subrange(0, es.len() as int)[w] == (u, v));
            assert(kept.contains((u, v)));
        }
        // minimality on an acyclic input
        assert(tred_ranked(di, DepInfos { graph: new, root, metadata }, rank@));
        if acyclic(es) {
            let g = |x: usize| if x < n { rank@[x as int] } else { x };
            assert forall|a: usize, b: usize| #[trigger] ne.contains((a, b)) implies reaches(te, g(a), g(b)) by {
                assert(es.contains((a, b)));
                let w = choose|w: int| 0 <= w < es.len() && es[w] == (a, b);
                assert(es[w].0 < n && es[w].1 < n);
                if rank@[a as int] >= rank@[b as int] {
                    assert(reaches(es, b, a));
                } else if kept.contains((a, b)) {
                    assert(es.subrange(0, es.len() as int)[w] == (a, b));
                    assert(graph_edges(dag).contains((a, b)));
                    assert(topo@[rank@[a as int] as int] == a && topo@[rank@[b as int] as int] == b);
                    assert(list_edges(l).contains((rank@[a as int], rank@[b as int])));
                    lemma_reach_edge(list_edges(l), rank@[a as int], rank@[b as int]);
                } else {
                    let x = choose|x: int|
                        0 <= x < q && topo@[#[trigger] te[x].0 as int] == a && topo@[te[x].1 as int] == b;
                    assert(te.contains(te[x]));
                    assert(list_edges(l).contains((te[x].0, te[x].1)));
                    assert(rank@[topo@[te[x].0 as int] as int] == te[x].0);
                    assert(rank@[topo@[te[x].1 as int] as int] == te[x].1);
                    lemma_reach_edge(te, te[x].0, te[x].1);
                }
            }
            assert forall|u: usize, v: usize, w: usize|
                #[trigger] ne.contains((u, v)) && #[trigger] ne.contains((u, w)) && u != root && w != v
                    implies !reaches(ne, w, v) by {
                if reaches(ne, w, v) {
                    lemma_reach_lift_map(ne, te, g, w, v);
                    assert forall|y: usize| #[trigger] ne.contains((u, y)) implies te.contains((rank@[u as int], rank@[y as int]))
                        && u < n && y < n by {
                        assert(es.contains((u, y)));
                        let e = choose|e: int| 0 <= e < es.len() && es[e] == (u, y);
                        assert(es[e].0 < n && es[e].1 < n);
                        if kept.contains((u, y)) {
                            assert(rank@[u as int] >= rank@[y as int]);
                            assert(reaches(es, y, u));
                        } else {
                            let x = choose|x: int|
                                0 <= x < q && topo@[#[trigger] te[x].0 as int] == u && topo@[te[x].1 as int] == y;
                            assert(te.contains(te[x]));
                            assert(list_edges(l).contains((te[x].0, te[x].1)));
                            assert(rank@[topo@[te[x].0 as int] as int] == te[x].0);
                            assert(rank@[topo@[te[x].1 as int] as int] == te[x].1);
                            assert(te[x] == (rank@[u as int], rank@[y as int]));
                        }
                    }
                    assert(te.contains((rank@[u as int], rank@[v as int])));
                    assert(te.contains((rank@[u as int], rank@[w as int])));
                    assert(rank@[w as int] != rank@[v as int]);
                    assert(g(w) == rank@[w as int] && g(v) == rank@[v as int]);
                }
            }
        }
    }
    DepInfos { graph: new, root, metadata }
}

pub proof fn lemma_prefix_step(es: Seq<(usize, usize)>, k: int)
    requires
        0 <= k < es.len(),
    ensures
        forall|e: (usize, usize)| #[trigger]
            es.subrange(0, k + 1).contains(e) <==> (es.subrange(0, k).contains(e) || e == es[k]),
{
    assert forall|e: (usize, usize)| #[trigger]
        es.subrange(0, k + 1).contains(e) <==> (es.subrange(0, k).contains(e) || e == es[k]) by {
        let s0 = es.subrange(0, k);
        let s1 = es.subrange(0, k + 1);
        if s0.contains(e) {
            let w = choose|w: int| 0 <= w < s0.len() && s0[w] == e;
            assert(s1[w] == e);
        }
        if e == es[k] {
            assert(s1[k] == e);
        }
        if s1.contains(e) && e != es[k] {
            let w = choose|w: int| 0 <= w < s1.len() && s1[w] == e;
            assert(s0[w] == e);
        }
    }
}

/// `after` is `before` or `before` with `y` pushed.
pub proof fn lemma_push_or_same(
    before: Seq<(usize, usize)>,
    after: Seq<(usize, usize)>,
    y: (usize, usize),
    x: (usize, usize),
)
    ensures
        after == before ==> (after.contains(x) <==> before.contains(x)),
        after == before.push(y) ==> (after.contains(x) <==> (before.contains(x) || x == y)),
{
    if before.contains(x) {
        let w = choose|w: int| 0 <= w < before.len() && before[w] == x;
        assert(before.push(y)[w] == x);
    }
    if x == y {
        assert(before.push(y)[before.len() as int] == x);
    }
    if before.push(y).contains(x) && x != y {
        let w = choose|w: int| 0 <= w < before.len() + 1 && before.push(y)[w] == x;
        assert(before[w] == x);
    }
}

} // verus!
