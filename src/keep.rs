//! Filtering: keeping the nodes that a predicate selects and folding the others
//! into their kept ancestors.
use crate::condense::{lemma_reach_no_incoming, lemma_total_push, lemma_total_update, no_incoming};
use crate::graph::{
    acyclic, add_edge, add_node, edges_in_range, graph_edges, graph_nodes,
    is_topological_order, is_walk, lists_reachable, neighbors, new_graph, node_at,
    node_count, reaches, replace_node, toposort, total_prefix, total_size, DepGraph,
    MAX_INDEX,
};
use crate::paths::lemma_reach_lift;
use crate::infos::{graph_wf, DepInfos, Reachability, SizeMetadata};
use crate::model::{DepNode, NodeDescription};
use crate::sums::lemma_distinct_below;
use petgraph::visit::EdgeRef;
use vstd::prelude::*;

verus! {

/// The edges whose source `allowed` marks.
pub open spec fn edges_from(es: Seq<(usize, usize)>, allowed: Seq<bool>) -> Seq<(usize, usize)> {
    es.filter(|e: (usize, usize)| e.0 < allowed.len() && allowed[e.0 as int])
}

/// Whether the search may leave node `s`.
fn is_allowed(allowed: &Vec<bool>, s: usize) -> (r: bool)
    ensures
        r == (s < allowed@.len() && allowed@[s as int]),
{
    s < allowed.len() && allowed[s]
}

/// Relies on petgraph's `Dfs` over an `EdgeFiltered` view: the nodes that `start`
/// reaches along edges whose source `allowed` marks, each once, `start` first.
#[verifier::external_body]
fn filtered_dfs(g: &DepGraph, start: usize, allowed: &Vec<bool>) -> (r: Vec<usize>)
    requires
        start < graph_nodes(*g).len(),
        edges_in_range(graph_edges(*g), graph_nodes(*g).len() as int),
    ensures
        lists_reachable(edges_from(graph_edges(*g), allowed@), graph_nodes(*g).len() as int, start, r@),
        r@.len() > 0 && r@[0] == start,
{
    let view = petgraph::visit::EdgeFiltered::from_fn(
        g,
        |e: petgraph::graph::EdgeReference<()>| is_allowed(allowed, e.source().index()),
    );
    let mut dfs = petgraph::visit::Dfs::new(&view, petgraph::graph::NodeIndex::new(start));
    let mut r = Vec::new();
    while let Some(v) = dfs.next(&view) {
        r.push(v.index());
    }
    r
}

/// The new indices, with `old` given `old_id` once it is realised.
pub open spec fn virt_ids(ids: Seq<Option<usize>>, old: usize, old_id: Option<usize>) -> Seq<Option<usize>> {
    match old_id {
        Some(t) => ids.update(old as int, Some(t)),
        None => ids,
    }
}

/// A non-empty walk leads from `u` to `v`.
pub open spec fn step_reaches(es: Seq<(usize, usize)>, u: usize, v: usize) -> bool {
    exists|w: usize| #[trigger] es.contains((u, w)) && reaches(es, w, v)
}

/// The edge from `x` to `y` of the result stands for a non-empty walk of the input
/// between the nodes they carry.
pub open spec fn edge_ok(ids: Seq<Option<usize>>, es: Seq<(usize, usize)>, x: usize, y: usize) -> bool {
    exists|u: usize, v: usize|
        u < ids.len() && v < ids.len() && #[trigger] ids[u as int] == Some(x) && #[trigger] ids[v as int]
            == Some(y) && step_reaches(es, u, v)
}

proof fn lemma_step_from_reach(es: Seq<(usize, usize)>, u: usize, v: usize)
    requires
        reaches(es, u, v),
        u != v,
    ensures
        step_reaches(es, u, v),
{
    let p = choose|p: Seq<usize>| #[trigger] is_walk(es, p) && p[0] == u && p.last() == v;
    assert(p.len() > 1);
    let z: int = 0;
    assert(es.contains((p[z], p[z + 1])));
    let q = p.subrange(1, p.len() as int);
    assert forall|i: int| 0 <= i < q.len() - 1 implies #[trigger] es.contains((q[i], q[i + 1])) by {
        assert(es.contains((p[i + 1], p[i + 1 + 1])));
    }
    assert(is_walk(es, q) && q[0] == p[1] && q.last() == v);
}

proof fn lemma_walk_origins(
    ids: Seq<Option<usize>>,
    es: Seq<(usize, usize)>,
    e: Seq<(usize, usize)>,
    p: Seq<usize>,
    k: int,
)
    requires
        forall|x: usize, y: usize| #[trigger] e.contains((x, y)) ==> edge_ok(ids, es, x, y),
        forall|u: int, v: int|
            0 <= u < ids.len() && 0 <= v < ids.len() && (#[trigger] ids[u]).is_some() && ids[u] == #[trigger] ids[v] ==> u == v,
        is_walk(e, p),
        2 <= k <= p.len(),
    ensures
        exists|u: usize, v: usize|
            u < ids.len() && v < ids.len() && #[trigger] ids[u as int] == Some(p[0]) && #[trigger] ids[v as int]
                == Some(p[k - 1]) && reaches(es, u, v),
    decreases k,
{
    assert(e.contains((p[k - 2], p[k - 2 + 1])));
    assert(edge_ok(ids, es, p[k - 2], p[k - 1]));
    let (a, b) = choose|a: usize, b: usize|
        a < ids.len() && b < ids.len() && #[trigger] ids[a as int] == Some(p[k - 2]) && #[trigger] ids[b as int]
            == Some(p[k - 1]) && step_reaches(es, a, b);
    let w = choose|w: usize| #[trigger] es.contains((a, w)) && reaches(es, w, b);
    crate::paths::lemma_reach_edge(es, a, w);
    crate::paths::lemma_reach_trans(es, a, w, b);
    if k > 2 {
        lemma_walk_origins(ids, es, e, p, k - 1);
        let (u0, u1) = choose|u: usize, v: usize|
            u < ids.len() && v < ids.len() && #[trigger] ids[u as int] == Some(p[0]) && #[trigger] ids[v as int]
                == Some(p[k - 2]) && reaches(es, u, v);
        assert(u1 == a);
        crate::paths::lemma_reach_trans(es, u0, a, b);
    }
}

/// A walk that does not end at `f`, a node with no outgoing edge but the last one
/// pushed, uses the earlier edges only.
proof fn lemma_walk_avoids_sink(e0: Seq<(usize, usize)>, r0: usize, f: usize, p: Seq<usize>)
    requires
        is_walk(e0.push((r0, f)), p),
        p.last() != f,
        r0 != f,
        forall|y: usize| !#[trigger] e0.contains((f, y)),
    ensures
        is_walk(e0, p),
{
    let e = e0.push((r0, f));
    assert forall|i: int| 0 <= i < p.len() - 1 implies #[trigger] e0.contains((p[i], p[i + 1])) by {
        assert(e.contains((p[i], p[i + 1])));
        crate::tred::lemma_push_or_same(e0, e, (r0, f), (p[i], p[i + 1]));
        if (p[i], p[i + 1]) == (r0, f) {
            if i + 1 < p.len() - 1 {
                assert(e.contains((p[i + 1], p[i + 1 + 1])));
                crate::tred::lemma_push_or_same(e0, e, (r0, f), (p[i + 1], p[i + 2]));
            }
        }
    }
}

/// Takes the weight out of slot `i`.
fn take_slot(v: &mut Vec<Option<DepNode>>, i: usize) -> (r: Option<DepNode>)
    requires
        i < old(v)@.len(),
    ensures
        r == old(v)@[i as int],
        final(v)@ == old(v)@.update(i as int, None),
{
    let mut r: Option<DepNode> = None;
    std::mem::swap(&mut v[i], &mut r);
    r
}

/// Sum of the sizes of the weights set aside.
pub open spec fn stash_total(st: Seq<Option<DepNode>>, k: int) -> int
    decreases k,
{
    if k <= 0 {
        0
    } else {
        stash_total(st, k - 1) + match st[k - 1] {
            Some(w) => w.size as int,
            None => 0,
        }
    }
}

proof fn lemma_stash_update(st: Seq<Option<DepNode>>, j: int, x: Option<DepNode>, k: int)
    requires
        0 <= j < st.len(),
        0 <= k <= st.len(),
    ensures
        stash_total(st.update(j, x), k) == stash_total(st, k) + if j < k {
            (match x {
                Some(w) => w.size as int,
                None => 0,
            }) - (match st[j] {
                Some(w) => w.size as int,
                None => 0,
            })
        } else {
            0
        },
    decreases k,
{
    if k > 0 {
        lemma_stash_update(st, j, x, k - 1);
    }
}

proof fn lemma_stash_nonneg(st: Seq<Option<DepNode>>, j: int, k: int)
    requires
        0 <= k <= st.len(),
    ensures
        0 <= stash_total(st, k),
        0 <= j < k && st[j].is_some() ==> st[j].unwrap().size <= stash_total(st, k),
    decreases k,
{
    if k > 0 {
        lemma_stash_nonneg(st, j, k - 1);
    }
}

proof fn lemma_total_nonneg(ns: Seq<DepNode>, j: int, k: int)
    requires
        0 <= k <= ns.len(),
    ensures
        0 <= total_prefix(ns, k),
        0 <= j < k ==> ns[j].size <= total_prefix(ns, k),
    decreases k,
{
    if k > 0 {
        lemma_total_nonneg(ns, j, k - 1);
    }
}

/// What the filter said of each node.
pub open spec fn kept_by<F: Fn(&DepNode) -> bool>(filter: F, ns: Seq<DepNode>, kept: Seq<bool>) -> bool {
    &&& kept.len() == ns.len()
    &&& forall|v: int| 0 <= v < ns.len() ==> #[trigger] call_ensures(filter, (&ns[v],), kept[v])
}

/// Node `v` is carried over: it is the root or the filter selects it.
pub open spec fn selected(root: usize, kept: Seq<bool>, v: int) -> bool {
    v == root || kept[v]
}

/// Node `v` reaches a node that the filter selects.
pub open spec fn reaches_kept(es: Seq<(usize, usize)>, kept: Seq<bool>, v: int) -> bool {
    exists|s: usize| s < kept.len() && kept[s as int] && #[trigger] reaches(es, v as usize, s)
}

/// Node `v` may stand in the result: it is selected, or it is a child of the root
/// that reaches a selected node.
pub open spec fn admissible(es: Seq<(usize, usize)>, root: usize, kept: Seq<bool>, v: int) -> bool {
    selected(root, kept, v) || (es.contains((root, v as usize)) && reaches_kept(es, kept, v))
}

/// Some node was given the new index `j`.
pub open spec fn has_origin(ids: Seq<Option<usize>>, j: int) -> bool {
    exists|v: int| 0 <= v < ids.len() && #[trigger] ids[v] == Some(j as usize)
}

/// What `keep` leaves, given what the filter said of each node: every selected node,
/// and every child of the root reaching a selected one, is there; and every node
/// there is one of these or the `FilteredOut` node.
pub open spec fn kept_result(di: DepInfos, r: DepInfos, kept: Seq<bool>) -> bool {
    &&& forall|v: int| 0 <= v < di.nodes().len() && admissible(di.edges(), di.root, kept, v) ==> exists|j: int|
        0 <= j < r.nodes().len() && #[trigger] r.nodes()[j].description == di.nodes()[v].description
    &&& forall|j: int| 0 <= j < r.nodes().len() ==> (#[trigger] r.nodes()[j]).description
        == NodeDescription::FilteredOut || exists|v: int|
        0 <= v < di.nodes().len() && admissible(di.edges(), di.root, kept, v)
            && r.nodes()[j].description == di.nodes()[v].description
}

/// How the nodes of `r` stand for those of `di`: node `v` at index `ids[v]`; every
/// edge of `r` but the one into the `FilteredOut` node stands for a non-empty walk of
/// `di` between the nodes its ends carry; and every walk of `di` from a node with a
/// place to another, through nodes without one, gives an edge of `r`, as does every
/// edge from the root to a child with a place.
pub open spec fn keep_links(di: DepInfos, r: DepInfos, ids: Seq<Option<usize>>) -> bool {
    &&& ids.len() == di.nodes().len()
    &&& ids[di.root as int] == Some(r.root)
    &&& forall|v: int|
        0 <= v < ids.len() && (#[trigger] ids[v]).is_some() ==> ids[v].unwrap() < r.nodes().len()
            && r.nodes()[ids[v].unwrap() as int].description == di.nodes()[v].description
    &&& forall|u: int, v: int|
        0 <= u < ids.len() && 0 <= v < ids.len() && (#[trigger] ids[u]).is_some() && ids[u] == #[trigger] ids[v] ==> u == v
    &&& forall|x: usize, y: usize| #[trigger] r.edges().contains((x, y)) ==> edge_ok(ids, di.edges(), x, y) || (x
        == r.root && r.nodes()[y as int].description == NodeDescription::FilteredOut)
    &&& forall|v: usize| v < ids.len() && v != di.root ==> #[trigger] linked(di.edges(), ids, r.edges(), v)
    &&& forall|c: usize| #[trigger] di.edges().contains((di.root, c)) && ids[c as int].is_some() ==> r.edges().contains(
        (r.root, ids[c as int].unwrap()),
    )
}

/// A walk of one edge or more whose inner nodes have no place in the result.
pub open spec fn open_walk(es: Seq<(usize, usize)>, ids: Seq<Option<usize>>, p: Seq<usize>) -> bool {
    &&& is_walk(es, p)
    &&& p.len() >= 2
    &&& forall|i: int| 0 < i < p.len() - 1 ==> (#[trigger] ids[p[i] as int]).is_none()
}

/// Every open walk from `x` to a node with a place gives an edge of the result.
pub open spec fn linked(es: Seq<(usize, usize)>, ids: Seq<Option<usize>>, ne: Seq<(usize, usize)>, x: usize) -> bool {
    forall|p: Seq<usize>|
        #[trigger] open_walk(es, ids, p) && p[0] == x && ids[x as int].is_some() && ids[p.last() as int].is_some()
            ==> ne.contains((ids[x as int].unwrap(), ids[p.last() as int].unwrap()))
}

/// The position of `v` in `order`.
pub open spec fn pos_in(order: Seq<usize>, v: usize) -> int {
    choose|i: int| 0 <= i < order.len() && order[i] == v
}

proof fn lemma_walk_forward(es: Seq<(usize, usize)>, order: Seq<usize>, n: int, p: Seq<usize>, k: int)
    requires
        is_topological_order(es, n, order),
        edges_in_range(es, n),
        is_walk(es, p),
        p[0] < n,
        2 <= k <= p.len(),
    ensures
        pos_in(order, p[0]) < pos_in(order, p[k - 1]),
        order[pos_in(order, p[k - 1])] == p[k - 1],
    decreases k,
{
    assert(es.contains((p[k - 2], p[k - 2 + 1])));
    let e = choose|e: int| 0 <= e < es.len() && es[e] == (p[k - 2], p[k - 1]);
    assert(es[e].0 < n && es[e].1 < n);
    assert(order.contains(p[k - 2]) && order.contains(p[k - 1]));
    let a = pos_in(order, p[k - 2]);
    let b = pos_in(order, p[k - 1]);
    assert(es.contains((order[a], order[b])));
    if k > 2 {
        lemma_walk_forward(es, order, n, p, k - 1);
    } else {
        assert(order.contains(p[0]));
    }
}

/// A walk whose sources the search may leave is a walk of the edges it follows.
proof fn lemma_walk_allowed(es: Seq<(usize, usize)>, allowed: Seq<bool>, p: Seq<usize>)
    requires
        is_walk(es, p),
        forall|i: int| 0 <= i < p.len() - 1 ==> #[trigger] p[i] < allowed.len() && allowed[p[i] as int],
    ensures
        reaches(edges_from(es, allowed), p[0], p.last()),
{
    let pred = |e: (usize, usize)| e.0 < allowed.len() && allowed[e.0 as int];
    assert forall|i: int| 0 <= i < p.len() - 1 implies #[trigger] edges_from(es, allowed).contains((p[i], p[i + 1])) by {
        assert(es.contains((p[i], p[i + 1])));
        let e = choose|e: int| 0 <= e < es.len() && es[e] == (p[i], p[i + 1]);
        assert(pred(es[e]));
        es.lemma_filter_contains(pred, e);
    }
    assert(is_walk(edges_from(es, allowed), p));
}

/// The facts `keep` gathers tie its result to its input.
proof fn lemma_finish_links(di: DepInfos, r: DepInfos, ids: Seq<Option<usize>>, nn: Seq<DepNode>, e0: Seq<(usize, usize)>)
    requires
        ids.len() == di.nodes().len(),
        nn.len() < MAX_INDEX,
        ids[di.root as int] == Some(r.root),
        (r.nodes() == nn && r.edges() == e0) || (r.nodes() == nn.push(r.nodes().last())
            && r.nodes().last().description == NodeDescription::FilteredOut && r.edges() == e0.push(
            (r.root, nn.len() as usize),
        )),
        forall|v: int|
            0 <= v < ids.len() && (#[trigger] ids[v]).is_some() ==> ids[v].unwrap() < nn.len()
                && nn[ids[v].unwrap() as int].description == di.nodes()[v].description,
        forall|u: int, v: int|
            0 <= u < ids.len() && 0 <= v < ids.len() && (#[trigger] ids[u]).is_some() && ids[u] == #[trigger] ids[v] ==> u == v,
        forall|x: usize, y: usize| #[trigger] e0.contains((x, y)) ==> edge_ok(ids, di.edges(), x, y),
        forall|v: usize| v < ids.len() && v != di.root ==> #[trigger] linked(di.edges(), ids, r.edges(), v),
        forall|c: usize| #[trigger] di.edges().contains((di.root, c)) && ids[c as int].is_some() ==> r.edges().contains(
            (r.root, ids[c as int].unwrap()),
        ),
    ensures
        keep_links(di, r, ids),
{
    let rn = r.nodes();
    assert forall|x: usize, y: usize| #[trigger] r.edges().contains((x, y)) implies edge_ok(ids, di.edges(), x, y) || (x
        == r.root && rn[y as int].description == NodeDescription::FilteredOut) by {
        if r.edges() != e0 {
            crate::tred::lemma_push_or_same(e0, r.edges(), (r.root, nn.len() as usize), (x, y));
            assert(rn[nn.len() as int] == rn.last());
        }
    }
    assert forall|v: int| 0 <= v < ids.len() && (#[trigger] ids[v]).is_some() implies ids[v].unwrap() < rn.len()
        && rn[ids[v].unwrap() as int].description == di.nodes()[v].description by {
        assert(rn[ids[v].unwrap() as int] == nn[ids[v].unwrap() as int]);
    }
}

/// The facts `keep` gathers make its result reached from its root.
proof fn lemma_finish_connected(
    es: Seq<(usize, usize)>,
    order: Seq<usize>,
    n: int,
    ids: Seq<Option<usize>>,
    root: usize,
    new_root: usize,
    e_main: Seq<(usize, usize)>,
    e0: Seq<(usize, usize)>,
    re: Seq<(usize, usize)>,
    kept: Seq<bool>,
    children: Seq<usize>,
    m0: int,
    m: int,
)
    requires
        n <= usize::MAX,
        is_topological_order(es, n, order),
        edges_in_range(es, n),
        no_incoming(es, root),
        root < n,
        ids.len() == n,
        kept.len() == n,
        ids[root as int] == Some(new_root),
        forall|k: int| 0 <= k < n && order[n - 1 - k] != root ==> #[trigger] linked(es, ids, e_main, order[n - 1 - k]),
        forall|e: (usize, usize)| #[trigger] e_main.contains(e) ==> e0.contains(e),
        forall|v: usize| #[trigger] children.contains(v) <==> es.contains((root, v)),
        forall|i: int|
            0 <= i < children.len() && (#[trigger] ids[children[i] as int]).is_some() ==> e0.contains(
                (new_root, ids[children[i] as int].unwrap()),
            ),
        forall|c: usize| c < n ==> #[trigger] realised_if_needed(es, root, kept, ids, c),
        forall|v: int| 0 <= v < n && (#[trigger] ids[v]).is_some() ==> admissible(es, root, kept, v),
        forall|v: usize| v < n ==> #[trigger] reaches(es, root, v),
        forall|j: int| 0 <= j < m0 ==> #[trigger] has_origin(ids, j),
        m0 <= m <= m0 + 1,
        m == m0 + 1 ==> re.contains((new_root, m0 as usize)),
        re == e0 || re == e0.push((new_root, m0 as usize)),
    ensures
        forall|j: usize| j < m ==> #[trigger] reaches(re, new_root, j),
        forall|v: usize| v < n && v != root ==> #[trigger] linked(es, ids, re, v),
        forall|cc: usize| #[trigger] es.contains((root, cc)) && ids[cc as int].is_some() ==> re.contains(
            (new_root, ids[cc as int].unwrap()),
        ),
{
    assert forall|e: (usize, usize)| #[trigger] e0.contains(e) implies re.contains(e) by {
        if re != e0 {
            crate::tred::lemma_push_or_same(e0, re, (new_root, m0 as usize), e);
        }
    }
    assert forall|cc: usize| #[trigger] es.contains((root, cc)) && ids[cc as int].is_some() implies e0.contains(
        (new_root, ids[cc as int].unwrap()),
    ) by {
        assert(children.contains(cc));
        let i = choose|i: int| 0 <= i < children.len() && children[i] == cc;
    }
    assert forall|v: usize| v < n && v != root implies #[trigger] linked(es, ids, e0, v) by {
        assert(order.contains(v));
        let k2 = choose|k2: int| 0 <= k2 < order.len() && order[k2] == v;
        assert(order[n - 1 - (n - 1 - k2)] == v);
        assert(linked(es, ids, e_main, order[n - 1 - (n - 1 - k2)]));
        assert forall|pw: Seq<usize>|
            #[trigger] open_walk(es, ids, pw) && pw[0] == v && ids[v as int].is_some() && ids[pw.last() as int].is_some()
                implies e0.contains((ids[v as int].unwrap(), ids[pw.last() as int].unwrap())) by {}
    }
    assert forall|v: usize| v < n && v != root implies #[trigger] linked(es, ids, re, v) by {
        assert(linked(es, ids, e0, v));
        assert forall|pw: Seq<usize>|
            #[trigger] open_walk(es, ids, pw) && pw[0] == v && ids[v as int].is_some() && ids[pw.last() as int].is_some()
                implies re.contains((ids[v as int].unwrap(), ids[pw.last() as int].unwrap())) by {}
    }
    assert forall|j: usize| j < m implies #[trigger] reaches(re, new_root, j) by {
        if j < m0 {
            assert(has_origin(ids, j as int));
            let v = choose|v: int| 0 <= v < ids.len() && #[trigger] ids[v] == Some(j);
            lemma_keep_connected(es, order, n, ids, root, new_root, e0, kept, v as usize);
            assert forall|a: usize, b: usize| #[trigger] e0.contains((a, b)) implies reaches(re, a, b) by {
                crate::paths::lemma_reach_edge(re, a, b);
            }
            lemma_reach_lift(e0, re, new_root, j);
        } else {
            crate::paths::lemma_reach_edge(re, new_root, j);
        }
    }
}

/// The last node of a walk, before its end, that has a place.
proof fn lemma_last_place(ids: Seq<Option<usize>>, pw: Seq<usize>, j: int)
    requires
        0 <= j < pw.len() - 1,
        ids[pw[0] as int].is_some(),
        forall|i: int| j < i < pw.len() - 1 ==> (#[trigger] ids[pw[i] as int]).is_none(),
    ensures
        exists|k: int|
            0 <= k < pw.len() - 1 && (#[trigger] ids[pw[k] as int]).is_some() && forall|i: int|
                k < i < pw.len() - 1 ==> (#[trigger] ids[pw[i] as int]).is_none(),
    decreases j,
{
    if ids[pw[j] as int].is_none() {
        lemma_last_place(ids, pw, j - 1);
    }
}

/// Every node with a place is reached from the root of the result.
proof fn lemma_keep_connected(
    es: Seq<(usize, usize)>,
    order: Seq<usize>,
    n: int,
    ids: Seq<Option<usize>>,
    root: usize,
    new_root: usize,
    ne: Seq<(usize, usize)>,
    kept: Seq<bool>,
    d: usize,
)
    requires
        is_topological_order(es, n, order),
        edges_in_range(es, n),
        no_incoming(es, root),
        root < n,
        ids.len() == n,
        kept.len() == n,
        ids[root as int] == Some(new_root),
        forall|v: usize| v < n && v != root ==> #[trigger] linked(es, ids, ne, v),
        forall|c: usize| #[trigger] es.contains((root, c)) && ids[c as int].is_some() ==> ne.contains(
            (new_root, ids[c as int].unwrap()),
        ),
        forall|c: usize| c < n ==> #[trigger] realised_if_needed(es, root, kept, ids, c),
        forall|v: int| 0 <= v < n && (#[trigger] ids[v]).is_some() ==> admissible(es, root, kept, v),
        forall|v: usize| v < n ==> #[trigger] reaches(es, root, v),
        d < n,
        ids[d as int].is_some(),
    ensures
        reaches(ne, new_root, ids[d as int].unwrap()),
    decreases pos_in(order, d),
{
    if d == root {
        crate::paths::lemma_reach_refl(ne, new_root);
    } else {
        assert(reaches(es, root, d));
        let pw = choose|pw: Seq<usize>| #[trigger] is_walk(es, pw) && pw[0] == root && pw.last() == d;
        assert(pw.len() >= 2);
        lemma_last_place(ids, pw, pw.len() - 2);
        let k = choose|k: int|
            0 <= k < pw.len() - 1 && (#[trigger] ids[pw[k] as int]).is_some() && forall|i: int|
                k < i < pw.len() - 1 ==> (#[trigger] ids[pw[i] as int]).is_none();
        let sub = pw.subrange(k, pw.len() as int);
        assert forall|i: int| 0 <= i < sub.len() - 1 implies #[trigger] es.contains((sub[i], sub[i + 1])) by {
            assert(es.contains((pw[k + i], pw[k + i + 1])));
        }
        assert forall|i: int| 0 < i < sub.len() - 1 implies (#[trigger] ids[sub[i] as int]).is_none() by {
            assert(sub[i] == pw[k + i]);
        }
        assert(open_walk(es, ids, sub));
        let x = pw[k];
        assert(sub[0] == x && sub.last() == d);
        assert forall|i: int| 0 <= i < pw.len() implies #[trigger] pw[i] < n by {
            if i > 0 {
                assert(es.contains((pw[i - 1], pw[i - 1 + 1])));
                let e = choose|e: int| 0 <= e < es.len() && es[e] == (pw[i - 1], pw[i]);
            }
        }
        if x == root {
            if sub.len() == 2 {
                let z: int = 0;
                assert(es.contains((sub[z], sub[z + 1])));
                crate::paths::lemma_reach_edge(ne, new_root, ids[d as int].unwrap());
            } else {
                let c = sub[1];
                let z: int = 0;
                assert(es.contains((sub[z], sub[z + 1])));
                assert(c != root);
                assert(ids[c as int].is_none());
                let rest = sub.subrange(1, sub.len() as int);
                assert forall|i: int| 0 <= i < rest.len() - 1 implies #[trigger] es.contains((rest[i], rest[i + 1])) by {
                    assert(es.contains((sub[i + 1], sub[i + 1 + 1])));
                }
                assert(is_walk(es, rest) && rest[0] == c && rest.last() == d);
                assert(admissible(es, root, kept, d as int));
                assert(reaches(es, c, d));
                assert((c as int) as usize == c);
                if kept[d as int] {
                    assert(d < kept.len() && kept[d as int] && reaches(es, (c as int) as usize, d));
                    assert(reaches_kept(es, kept, c as int));
                } else {
                    let s0 = choose|s0: usize| s0 < kept.len() && kept[s0 as int] && #[trigger] reaches(es, d, s0);
                    crate::paths::lemma_reach_trans(es, c, d, s0);
                    assert(s0 < kept.len() && kept[s0 as int] && reaches(es, (c as int) as usize, s0));
                    assert(reaches_kept(es, kept, c as int));
                }
                assert(realised_if_needed(es, root, kept, ids, c));
            }
        } else {
            assert(linked(es, ids, ne, x));
            assert(ne.contains((ids[x as int].unwrap(), ids[d as int].unwrap())));
            lemma_walk_forward(es, order, n, sub, sub.len() as int);
            assert(order.contains(x));
            assert(0 <= pos_in(order, x) < pos_in(order, d));
            lemma_keep_connected(es, order, n, ids, root, new_root, ne, kept, x);
            crate::paths::lemma_reach_extend(ne, new_root, ids[x as int].unwrap(), ids[d as int].unwrap());
        }
    }
}

/// A child of the root that reaches a selected node has a place in the result.
pub open spec fn realised_if_needed(
    es: Seq<(usize, usize)>,
    root: usize,
    kept: Seq<bool>,
    ids: Seq<Option<usize>>,
    c: usize,
) -> bool {
    es.contains((root, c)) && c != root && reaches_kept(es, kept, c as int) ==> ids[c as int].is_some()
}

/// A walk from a node without a place to one with a place meets, along edges the
/// search may take, a first node with a place.
proof fn lemma_meets_retained(
    es: Seq<(usize, usize)>,
    allowed: Seq<bool>,
    ids: Seq<Option<usize>>,
    p: Seq<usize>,
    k: int,
)
    requires
        is_walk(es, p),
        1 <= k <= p.len(),
        allowed.len() == ids.len(),
        forall|i: int| 0 <= i < p.len() ==> #[trigger] p[i] < ids.len(),
        allowed[p[0] as int],
        forall|v: int| 0 <= v < ids.len() && v != p[0] ==> #[trigger] allowed[v] == ids[v].is_none(),
        ids[p[0] as int].is_none(),
        ids[p[p.len() - 1] as int].is_some(),
        forall|i: int| 0 < i < k ==> (#[trigger] ids[p[i] as int]).is_none(),
    ensures
        exists|x: usize| x != p[0] && (#[trigger] ids[x as int]).is_some() && reaches(edges_from(es, allowed), p[0], x),
    decreases p.len() - k,
{
    if ids[p[k] as int].is_some() {
        let q = p.subrange(0, k + 1);
        let pred = |e: (usize, usize)| e.0 < allowed.len() && allowed[e.0 as int];
        assert forall|i: int| 0 <= i < q.len() - 1 implies #[trigger] edges_from(es, allowed).contains((q[i], q[i + 1])) by {
            assert(es.contains((p[i], p[i + 1])));
            let e = choose|e: int| 0 <= e < es.len() && es[e] == (p[i], p[i + 1]);
            assert(q[i] == p[i] && q[i + 1] == p[i + 1]);
            if i > 0 && p[i] != p[0] {
                assert(ids[p[i] as int].is_none());
            }
            assert(pred(es[e]));
            es.lemma_filter_contains(pred, e);
        }
        assert(is_walk(edges_from(es, allowed), q) && q[0] == p[0] && q.last() == p[k]);
        assert(p[k] != p[0]);
    } else {
        lemma_meets_retained(es, allowed, ids, p, k + 1);
    }
}

/// The bookkeeping of `keep` between its phases.
pub open spec fn keep_state(
    ns0: Seq<DepNode>,
    es: Seq<(usize, usize)>,
    root: usize,
    kept: Seq<bool>,
    cur: Seq<DepNode>,
    newn: Seq<DepNode>,
    ids: Seq<Option<usize>>,
    stash: Seq<Option<DepNode>>,
) -> bool {
    let n = ns0.len();
    &&& cur.len() == n && ids.len() == n && stash.len() == n && kept.len() == n
    &&& root < n
    &&& total_size(newn) + total_size(cur) + stash_total(stash, n as int) == total_size(ns0)
    &&& forall|v: int|
        0 <= v < n && (#[trigger] ids[v]).is_some() ==> ids[v].unwrap() < newn.len()
            && newn[ids[v].unwrap() as int].description == ns0[v].description && admissible(es, root, kept, v)
    &&& forall|v: int| 0 <= v < n && selected(root, kept, v) ==> (#[trigger] ids[v]).is_some()
    &&& forall|u: int, v: int|
        0 <= u < n && 0 <= v < n && (#[trigger] ids[u]).is_some() && ids[u] == #[trigger] ids[v] ==> u == v
    &&& forall|v: int|
        0 <= v < n && (#[trigger] stash[v]).is_some() ==> stash[v].unwrap().description == ns0[v].description
            && es.contains((root, v as usize)) && ids[v].is_none()
    &&& forall|j: int| 0 <= j < newn.len() ==> #[trigger] has_origin(ids, j)
    &&& forall|v: int|
        0 <= v < n && (#[trigger] ids[v]).is_none() && stash[v].is_none() ==> cur[v].description
            == ns0[v].description
    &&& ids[root as int].is_some() ==> newn[ids[root as int].unwrap() as int] == ns0[root as int]
}

/// The nodes of `r` past the first `m0` ones: none, when the first `m0` hold the
/// whole size of `di`; or one `FilteredOut` child of the root holding the rest.
pub open spec fn filtered_tail(di: DepInfos, r: DepInfos, m0: int) -> bool {
    &&& 0 <= m0 <= r.nodes().len() <= m0 + 1
    &&& r.root < m0
    &&& r.nodes().len() == m0 ==> total_prefix(r.nodes(), m0) == total_size(di.nodes())
    &&& r.nodes().len() == m0 + 1 ==> {
        &&& r.nodes()[m0].description == NodeDescription::FilteredOut
        &&& r.nodes()[m0].size > 0
        &&& r.nodes()[m0].size == total_size(di.nodes()) - total_prefix(r.nodes(), m0)
        &&& r.edges().contains((r.root, m0 as usize))
    }
}

/// Creates a new graph retaining the nodes that `filter` selects, and the root.
///
/// A dropped node gives its size to a kept ancestor (the nearest one along the
/// order of a topological sort) and its edges to kept descendants become edges of
/// that ancestor. A child of the root that the filter drops is kept anyway when a
/// kept node lies below it; the sizes left with the other ones, and any size that
/// no kept ancestor took, go to one `FilteredOut` child of the root. `filter` is
/// called once per node.
#[verifier::rlimit(100)]
#[verifier::spinoff_prover]
pub fn keep<F: Fn(&DepNode) -> bool>(di: DepInfos, filter: F) -> (r: DepInfos)
    requires
        di.wf(),
        di.connected(),
        acyclic(di.edges()),
        no_incoming(di.edges(), di.root),
        di.metadata.reachable == Reachability::Connected,
        forall|d: &DepNode| #[trigger] call_requires(filter, (d,)),
        (di.nodes().len() + 1) * (di.nodes().len() + 1) + di.edges().len() < MAX_INDEX,
    ensures
        r.wf(),
        total_size(r.nodes()) == total_size(di.nodes()),
        r.nodes()[r.root as int].description == di.nodes()[di.root as int].description,
        r.metadata == (SizeMetadata { reachable: Reachability::Connected, ..di.metadata }),
        no_incoming(r.edges(), r.root),
        acyclic(r.edges()),
        r.connected(),
        r.nodes()[r.root as int] == di.nodes()[di.root as int],
        exists|m0: int| #[trigger] filtered_tail(di, r, m0),
        exists|ids: Seq<Option<usize>>| #[trigger] keep_links(di, r, ids),
        exists|kept: Seq<bool>| #[trigger] kept_by(filter, di.nodes(), kept) && kept_result(di, r, kept),
{
    let ghost ns0 = di.nodes();
    let ghost es = di.edges();
    let DepInfos { graph: mut graph, root, metadata } = di;
    let n = node_count(&graph);
    // the selected nodes go first into the new graph
    let mut new = new_graph();
    let mut ids: Vec<Option<usize>> = Vec::new();
    let mut stash: Vec<Option<DepNode>> = Vec::new();
    let ghost mut kept: Seq<bool> = Seq::empty();
    let mut i: usize = 0;
    while i < n
        invariant
            graph_wf(ns0, es),
            n == ns0.len(),
            root < n,
            forall|d: &DepNode| #[trigger] call_requires(filter, (d,)),
            i <= n,
            graph_edges(graph) == es,
            graph_nodes(graph).len() == n,
            forall|v: int| i <= v < n ==> #[trigger] graph_nodes(graph)[v] == ns0[v],
            kept.len() == i,
            forall|v: int| 0 <= v < i ==> #[trigger] call_ensures(filter, (&ns0[v],), kept[v]),
            ids@.len() == i,
            stash@.len() == i,
            forall|v: int| 0 <= v < i ==> (#[trigger] stash@[v]).is_none(),
            forall|v: int| 0 <= v < i && (#[trigger] ids@[v]).is_none() ==> graph_nodes(graph)[v] == ns0[v],
            i > root ==> ids@[root as int].is_some() && graph_nodes(new)[ids@[root as int].unwrap() as int]
                == ns0[root as int],
            graph_edges(new) == Seq::<(usize, usize)>::empty(),
            total_size(graph_nodes(new)) + total_size(graph_nodes(graph)) == total_size(ns0),
            graph_nodes(new).len() <= i,
            forall|v: int|
                0 <= v < i && (#[trigger] ids@[v]).is_some() ==> ids@[v].unwrap() < graph_nodes(new).len()
                    && graph_nodes(new)[ids@[v].unwrap() as int].description == ns0[v].description
                    && selected(root, kept, v),
            forall|v: int| 0 <= v < i && selected(root, kept, v) ==> (#[trigger] ids@[v]).is_some(),
            forall|u: int, v: int|
                0 <= u < i && 0 <= v < i && (#[trigger] ids@[u]).is_some() && ids@[u] == #[trigger] ids@[v] ==> u == v,
            forall|j: int| 0 <= j < graph_nodes(new).len() ==> #[trigger] has_origin(ids@, j),
        decreases n - i,
    {
        let keep_it = filter(node_at(&graph, i));
        proof {
            kept = kept.push(keep_it);
        }
        let ghost before_new = graph_nodes(new);
        let ghost before_cur = graph_nodes(graph);
        let ghost before_ids = ids@;
        if i == root || keep_it {
            let w = replace_node(&mut graph, i, DepNode::dummy());
            let id = add_node(&mut new, w);
            ids.push(Some(id));
            proof {
                crate::condense::lemma_total_push(before_new, w);
                lemma_total_update(before_cur, i as int, DepNode { description: NodeDescription::Dummy, size: 0 }, n as int);
                assert forall|j: int| 0 <= j < graph_nodes(new).len() implies #[trigger] has_origin(ids@, j) by {
                    if j == id {
                        assert(ids@[i as int] == Some(j as usize));
                    } else {
                        assert(has_origin(before_ids, j));
                        let v = choose|v: int| 0 <= v < i && #[trigger] before_ids[v] == Some(j as usize);
                        assert(ids@[v] == Some(j as usize));
                    }
                }
            }
        } else {
            ids.push(None);
            proof {
                assert forall|j: int| 0 <= j < graph_nodes(new).len() implies #[trigger] has_origin(ids@, j) by {
                    assert(has_origin(before_ids, j));
                    let v = choose|v: int| 0 <= v < i && #[trigger] before_ids[v] == Some(j as usize);
                    assert(ids@[v] == Some(j as usize));
                }
            }
        }
        stash.push(None);
        i += 1;
    }
    proof {
        assert(kept_by(filter, ns0, kept));
        assert(keep_state(ns0, es, root, kept, graph_nodes(graph), graph_nodes(new), ids@, stash@)) by {
            lemma_stash_zero(stash@, n as int);
        }
    }
    // the children of the root that the filter drops are set aside
    let children = neighbors(&graph, root);
    proof {
        assert forall|i: int| 0 <= i < children@.len() implies #[trigger] children@[i] < n by {
            assert(children@.contains(children@[i]));
            let w = choose|w: int| 0 <= w < es.len() && es[w] == (root, children@[i]);
            assert(es[w].1 < n);
        }
    }
    let mut c: usize = 0;
    while c < children.len()
        invariant
            n == ns0.len(),
            graph_wf(ns0, es),
            kept_by(filter, ns0, kept),
            keep_state(ns0, es, root, kept, graph_nodes(graph), graph_nodes(new), ids@, stash@),
            graph_edges(graph) == es,
            graph_edges(new) == Seq::<(usize, usize)>::empty(),
            forall|v: usize| #[trigger] children@.contains(v) <==> es.contains((root, v)),
            forall|i: int| 0 <= i < children@.len() ==> #[trigger] children@[i] < n,
            c <= children@.len(),
            graph_nodes(new).len() <= n,
            forall|i: int| 0 <= i < c ==> ids@[#[trigger] children@[i] as int].is_some() || stash@[children@[i] as int].is_some(),
        decreases children@.len() - c,
    {
        let v = children[c];
        proof {
            assert(children@.contains(v));
        }
        if ids[v].is_none() && stash[v].is_none() {
            let ghost cur = graph_nodes(graph);
            let ghost st = stash@;
            let w = replace_node(&mut graph, v, DepNode::dummy());
            stash.set(v, Some(w));
            proof {
                lemma_total_update(cur, v as int, DepNode { description: NodeDescription::Dummy, size: 0 }, n as int);
                lemma_stash_update(st, v as int, Some(w), n as int);
            }
        }
        c += 1;
    }
    proof {
        assert forall|c: usize|
            c < n && #[trigger] es.contains((root, c)) && c != root && ids@[c as int].is_none() implies stash@[c as int].is_some() by {
            assert(children@.contains(c));
            let i = choose|i: int| 0 <= i < children@.len() && children@[i] == c;
            assert(ids@[children@[i] as int].is_some() || stash@[children@[i] as int].is_some());
        }
    }
    let order = match toposort(&graph) {
        Some(o) => o,
        None => {
            proof {
                assert(false);
            }
            Vec::new()
        },
    };
    // the nodes a search may go through: those not carried over
    let mut open: Vec<bool> = Vec::new();
    let mut i: usize = 0;
    while i < n
        invariant
            i <= n,
            ids@.len() == n,
            open@.len() == i,
            forall|s: int| 0 <= s < i ==> #[trigger] open@[s] == ids@[s].is_none(),
        decreases n - i,
    {
        open.push(ids[i].is_none());
        i += 1;
    }
    let mut p: usize = 0;
    while p < n
        invariant
            n == ns0.len(),
            graph_wf(ns0, es),
            (n + 1) * (n + 1) + es.len() < MAX_INDEX,
            no_incoming(es, root),
            kept_by(filter, ns0, kept),
            graph_nodes(new).len() <= n + p,
            keep_state(ns0, es, root, kept, graph_nodes(graph), graph_nodes(new), ids@, stash@),
            graph_edges(graph) == es,
            is_topological_order(es, n as int, order@),
            open@.len() == n,
            forall|s: int| 0 <= s < n ==> #[trigger] open@[s] == ids@[s].is_none(),
            p <= n,
            edges_in_range(graph_edges(new), graph_nodes(new).len() as int),
            graph_edges(new).len() <= p * n,
            acyclic(es),
            forall|x: usize, y: usize| #[trigger] graph_edges(new).contains((x, y)) ==> edge_ok(ids@, es, x, y),
            forall|a: usize| !#[trigger] graph_edges(new).contains((a, ids@[root as int].unwrap())),
            forall|c: usize|
                c < n && #[trigger] es.contains((root, c)) && c != root && ids@[c as int].is_none() ==> stash@[c as int].is_some(),
            forall|k: int| 0 <= k < p ==> #[trigger] realised_if_needed(es, root, kept, ids@, order@[n - 1 - k]),
            forall|k: int| 0 <= k < p && order@[n - 1 - k] != root ==> #[trigger] linked(es, ids@, graph_edges(new), order@[n - 1 - k]),
        decreases n - p,
    {
        let old = order[n - 1 - p];
        let ghost ids_start = ids@;
        let ghost stash_start = stash@;
        let ghost ne_start = graph_edges(new);
        proof {
            assert(order@[n - 1 - p] < n);
            assert((p + 1) * n == p * n + n) by (nonlinear_arith);
        }
        if old != root && (ids[old].is_some() || stash[old].is_some()) {
            let was_open = open[old];
            open.set(old, true);
            let reached = filtered_dfs(&graph, old, &open);
            let ghost allowed = open@;
            open.set(old, was_open);
            proof {
                lemma_distinct_below(reached@, n as int);
                assert(open@ =~= allowed.update(old as int, was_open));
            }
            let mut old_id: Option<usize> = None;
            let ghost e_start = graph_edges(new);
            let mut q: usize = 1;
            while q < reached.len()
                invariant
                    n == ns0.len(),
                    graph_wf(ns0, es),
                    (n + 1) * (n + 1) + es.len() < MAX_INDEX,
                    no_incoming(es, root),
                    graph_nodes(new).len() <= n + p + if old_id.is_some() { 1int } else { 0int },
                    old_id.is_some() ==> stash@[old as int].is_none(),
                    old < n,
                    old != root,
                    keep_state(
                        ns0,
                        es,
                        root,
                        kept,
                        graph_nodes(graph),
                        graph_nodes(new),
                        virt_ids(ids@, old, old_id),
                        stash@,
                    ),
                    p < n,
                    old_id.is_some() ==> ids@[old as int].is_none(),
                    ids@.len() == n,
                    stash@.len() == n,
                    old_id.is_some() || ids@[old as int].is_some() || stash@[old as int].is_some(),
                    graph_edges(graph) == es,
                    lists_reachable(edges_from(es, allowed), n as int, old, reached@),
                    reached@.len() <= n,
                    reached@[0] == old,
                    1 <= q <= reached@.len(),
                    edges_in_range(graph_edges(new), graph_nodes(new).len() as int),
                    graph_edges(new).len() <= p * n + q,
                    forall|x: usize, y: usize| #[trigger] graph_edges(new).contains((x, y)) ==> edge_ok(
                        virt_ids(ids@, old, old_id),
                        es,
                        x,
                        y,
                    ),
                    forall|a: usize| !#[trigger] graph_edges(new).contains((a, ids@[root as int].unwrap())),
                    forall|c: usize|
                        c < n && #[trigger] es.contains((root, c)) && c != root && virt_ids(ids@, old, old_id)[c as int].is_none()
                            ==> stash@[c as int].is_some(),
                    (exists|w: int| 1 <= w < q && (#[trigger] ids@[reached@[w] as int]).is_some()) ==> old_id.is_some()
                        || ids@[old as int].is_some(),
                    forall|e: (usize, usize)| #[trigger] e_start.contains(e) ==> graph_edges(new).contains(e),
                    forall|w2: int|
                        1 <= w2 < q && (#[trigger] ids@[reached@[w2] as int]).is_some() ==> virt_ids(ids@, old, old_id)[old as int].is_some()
                            && graph_edges(new).contains((virt_ids(ids@, old, old_id)[old as int].unwrap(), ids@[reached@[w2] as int].unwrap())),
                    p < n,
                    old == order@[n - 1 - p],
                decreases reached@.len() - q,
            {
                let idx = reached[q];
                let ghost virt = virt_ids(ids@, old, old_id);
                proof {
                    assert(reached@[q as int] < n);
                    assert(idx != old) by {
                        assert(reached@[0] != reached@[q as int]);
                    }
                    assert(ids@.len() == n);
                    assert(idx < n);
                    if old_id.is_some() {
                        assert(virt == ids@.update(old as int, Some(old_id.unwrap())));
                    } else {
                        assert(virt == ids@);
                    }
                    assert(virt[idx as int] == ids@[idx as int]);
                    assert(idx != root) by {
                        if idx == root {
                            assert(reached@.contains(idx));
                            assert forall|a: usize, b: usize| #[trigger] edges_from(es, allowed).contains((a, b))
                                implies reaches(es, a, b) by {
                                es.lemma_filter_contains_rev(|e: (usize, usize)| e.0 < allowed.len() && allowed[e.0 as int], (a, b));
                                crate::paths::lemma_reach_edge(es, a, b);
                            }
                            lemma_reach_lift(edges_from(es, allowed), es, old, root);
                            lemma_reach_no_incoming(es, root, old);
                        }
                    }
                }
                let ghost cur = graph_nodes(graph);
                let ghost nn = graph_nodes(new);
                let ghost st = stash@;
                proof {
                    lemma_stash_nonneg(st, old as int, n as int);
                    lemma_total_nonneg(cur, idx as int, n as int);
                    lemma_total_nonneg(nn, 0, nn.len() as int);
                }
                match ids[idx] {
                    Some(new2) => {
                        let src: usize;
                        if stash[old].is_some() {
                            // a kept node lies below this child of the root: it stays
                            let w = take_slot(&mut stash, old).unwrap();
                            proof {
                                // what lies below a kept node lies below `old`
                                assert(reached@.contains(idx));
                                assert forall|a: usize, b: usize| #[trigger] edges_from(es, allowed).contains((a, b))
                                    implies reaches(es, a, b) by {
                                    es.lemma_filter_contains_rev(|e: (usize, usize)| e.0 < allowed.len() && allowed[e.0 as int], (a, b));
                                    crate::paths::lemma_reach_edge(es, a, b);
                                }
                                lemma_reach_lift(edges_from(es, allowed), es, old, idx);
                                assert(virt[idx as int] == ids@[idx as int]);
                                assert(admissible(es, root, kept, idx as int));
                                if kept[idx as int] {
                                    crate::paths::lemma_reach_refl(es, idx);
                                    assert(reaches(es, idx, idx));
                                    assert(reaches(es, old, idx));
                                } else {
                                    let s0 = choose|s0: usize| s0 < kept.len() && kept[s0 as int] && #[trigger] reaches(es, idx, s0);
                                    crate::paths::lemma_reach_trans(es, old, idx, s0);
                                }
                                assert(reaches_kept(es, kept, old as int));
                                assert(n + p + 1 <= (n + 1) * (n + 1)) by (nonlinear_arith)
                                    requires
                                        p < n,
                                ;
                            }
                            let t = add_node(&mut new, w);
                            proof {
                                lemma_stash_update(st, old as int, None, n as int);
                                lemma_total_push(nn, w);
                                let v2 = ids@.update(old as int, Some(t));
                                assert forall|j: int| 0 <= j < graph_nodes(new).len() implies #[trigger] has_origin(v2, j) by {
                                    if j == t {
                                        assert(v2[old as int] == Some(j as usize));
                                    } else {
                                        assert(has_origin(ids@, j));
                                        let v = choose|v: int| 0 <= v < ids@.len() && #[trigger] ids@[v] == Some(j as usize);
                                        assert(v2[v] == Some(j as usize));
                                    }
                                }
                                assert forall|u: int, v: int|
                                    0 <= u < n && 0 <= v < n && (#[trigger] v2[u]).is_some() && v2[u] == #[trigger] v2[v] implies u == v by {
                                    if u != old as int && v != old as int {
                                        assert(ids@[u] == v2[u] && ids@[v] == v2[v]);
                                    } else if u != old as int {
                                        assert(ids@[u].unwrap() < nn.len());
                                    } else if v != old as int {
                                        assert(ids@[v].unwrap() < nn.len());
                                    }
                                }
                            }
                            proof {
                                let v2 = ids@.update(old as int, Some(t));
                                assert forall|x: usize, y: usize| #[trigger] graph_edges(new).contains((x, y))
                                    implies edge_ok(v2, es, x, y) by {
                                    assert(edge_ok(ids@, es, x, y));
                                    let (u, v) = choose|u: usize, v: usize|
                                        u < ids@.len() && v < ids@.len() && #[trigger] ids@[u as int] == Some(x)
                                            && #[trigger] ids@[v as int] == Some(y) && step_reaches(es, u, v);
                                    assert(v2[u as int] == Some(x) && v2[v as int] == Some(y));
                                }
                            }
                            old_id = Some(t);
                            src = t;
                        } else {
                            src = match old_id {
                                Some(t) => t,
                                None => ids[old].unwrap(),
                            };
                        }
                        proof {
                            assert(src < graph_nodes(new).len());
                            assert(new2 < graph_nodes(new).len());
                            assert((p * n + q) + 1 < (n + 1) * (n + 1) + es.len()) by (nonlinear_arith)
                                requires
                                    p < n,
                                    q < n,
                            ;
                        }
                        let ghost ebefore = graph_edges(new);
                        add_edge(&mut new, src, new2);
                        proof {
                            let v3 = virt_ids(ids@, old, old_id);
                            assert(reached@.contains(idx));
                            assert forall|a: usize, b: usize| #[trigger] edges_from(es, allowed).contains((a, b))
                                implies reaches(es, a, b) by {
                                es.lemma_filter_contains_rev(|e: (usize, usize)| e.0 < allowed.len() && allowed[e.0 as int], (a, b));
                                crate::paths::lemma_reach_edge(es, a, b);
                            }
                            lemma_reach_lift(edges_from(es, allowed), es, old, idx);
                            lemma_step_from_reach(es, old, idx);
                            assert(v3[old as int] == Some(src));
                            assert(v3[idx as int] == Some(new2));
                            assert forall|x: usize, y: usize| #[trigger] graph_edges(new).contains((x, y))
                                implies edge_ok(v3, es, x, y) by {
                                crate::tred::lemma_push_or_same(ebefore, graph_edges(new), (src, new2), (x, y));
                            }
                            assert forall|e: (usize, usize)| #[trigger] ebefore.contains(e) implies graph_edges(new).contains(e) by {
                                crate::tred::lemma_push_or_same(ebefore, graph_edges(new), (src, new2), e);
                            }
                            assert(graph_edges(new).contains((src, new2))) by {
                                crate::tred::lemma_push_or_same(ebefore, graph_edges(new), (src, new2), (src, new2));
                            }
                            assert forall|a: usize| !#[trigger] graph_edges(new).contains((a, ids@[root as int].unwrap())) by {
                                crate::tred::lemma_push_or_same(ebefore, graph_edges(new), (src, new2), (a, ids@[root as int].unwrap()));
                                if new2 == ids@[root as int].unwrap() {
                                    let v3 = virt_ids(ids@, old, old_id);
                                    assert(v3[root as int] == ids@[root as int]);
                                    assert(v3[idx as int] == ids@[idx as int]);
                                    assert(selected(root, kept, root as int));
                                    assert(v3[root as int].is_some());
                                    assert(v3[idx as int] == v3[root as int]);
                                }
                            }
                        }
                    },
                    None => {
                        // a dropped node: its size goes to `old`
                        let w = replace_node(&mut graph, idx, DepNode::dummy());
                        let size = w.size;
                        let zeroed = DepNode { description: w.description, size: 0 };
                        let _ = replace_node(&mut graph, idx, zeroed);
                        proof {
                            lemma_total_update(cur, idx as int, zeroed, n as int);
                            assert(graph_nodes(graph) == cur.update(idx as int, zeroed));
                        }
                        if stash[old].is_some() {
                            let mut w2 = take_slot(&mut stash, old).unwrap();
                            w2.size = w2.size + size;
                            stash.set(old, Some(w2));
                            proof {
                                lemma_stash_update(st, old as int, Some(w2), n as int);
                                assert(stash@ == st.update(old as int, Some(w2)));
                            }
                        } else {
                            let j = match old_id {
                                Some(t) => t,
                                None => ids[old].unwrap(),
                            };
                            proof {
                                lemma_total_nonneg(nn, j as int, nn.len() as int);
                            }
                            let mut w2 = replace_node(&mut new, j, DepNode::dummy());
                            w2.size = w2.size + size;
                            let _ = replace_node(&mut new, j, w2);
                            proof {
                                assert(graph_nodes(new) == nn.update(j as int, w2));
                                lemma_total_update(nn, j as int, w2, nn.len() as int);
                            }
                        }
                    },
                }
                proof {
                    let v2 = virt_ids(ids@, old, old_id);
                    let cur2 = graph_nodes(graph);
                    let nn2 = graph_nodes(new);
                    assert(cur2.len() == n && v2.len() == n && stash@.len() == n);
                    assert(total_size(nn2) + total_size(cur2) + stash_total(stash@, n as int) == total_size(ns0));
                    assert(forall|v: int|
                        0 <= v < n && (#[trigger] v2[v]).is_some() ==> v2[v].unwrap() < nn2.len()
                            && nn2[v2[v].unwrap() as int].description == ns0[v].description && admissible(es, root, kept, v));
                    assert(forall|v: int| 0 <= v < n && selected(root, kept, v) ==> (#[trigger] v2[v]).is_some());
                    assert(forall|v: int|
                        0 <= v < n && (#[trigger] stash@[v]).is_some() ==> stash@[v].unwrap().description == ns0[v].description
                            && es.contains((root, v as usize)) && v2[v].is_none());
                    assert(forall|j: int| 0 <= j < nn2.len() ==> #[trigger] has_origin(v2, j));
                    assert(forall|v: int|
                        0 <= v < n && (#[trigger] v2[v]).is_none() && stash@[v].is_none() ==> cur2[v].description
                            == ns0[v].description);
                }
                q += 1;
            }
            let ghost ids_before = ids@;
            match old_id {
                Some(t) => {
                    ids.set(old, Some(t));
                    open.set(old, false);
                },
                None => {},
            }
            proof {
                assert(ids@ =~= virt_ids(ids_before, old, old_id));
                assert(ids_before == ids_start);
                assert forall|v: int| 0 <= v < n && (#[trigger] ids_start[v]).is_some() implies ids@[v] == ids_start[v] by {}
                assert forall|v: int| 0 <= v < n && v != old implies #[trigger] ids@[v] == ids_start[v] by {}
                let idsf = ids@;
                let nef = graph_edges(new);
                assert forall|pw: Seq<usize>|
                    #[trigger] open_walk(es, idsf, pw) && pw[0] == old && idsf[old as int].is_some() && idsf[pw.last() as int].is_some()
                        implies nef.contains((idsf[old as int].unwrap(), idsf[pw.last() as int].unwrap())) by {
                    let d = pw.last();
                    lemma_walk_forward(es, order@, n as int, pw, pw.len() as int);
                    assert forall|i: int| 0 <= i < pw.len() - 1 implies #[trigger] pw[i] < allowed.len() && allowed[pw[i] as int] by {
                        if i > 0 {
                            assert(es.contains((pw[i - 1], pw[i - 1 + 1])));
                            let e = choose|e: int| 0 <= e < es.len() && es[e] == (pw[i - 1], pw[i]);
                            assert(es[e].1 < n);
                            assert(idsf[pw[i] as int].is_none());
                            if pw[i] != old {
                                assert(ids_start[pw[i] as int].is_none());
                            }
                        }
                    }
                    lemma_walk_allowed(es, allowed, pw);
                    assert(reached@.contains(d));
                    let w = choose|w: int| 0 <= w < reached@.len() && reached@[w] == d;
                    assert(d != old) by {
                        assert(order@.contains(old));
                    }
                    assert(w != 0);
                    assert(ids_start[d as int].is_some());
                    assert(ids_before[reached@[w] as int].is_some());
                }
                assert(linked(es, ids@, graph_edges(new), old));
                if es.contains((root, old)) && reaches_kept(es, kept, old as int) && ids_start[old as int].is_none() {
                    let s0 = choose|s0: usize| s0 < kept.len() && kept[s0 as int] && #[trigger] reaches(es, old, s0);
                    assert(selected(root, kept, s0 as int));
                    let path = choose|path: Seq<usize>| #[trigger] is_walk(es, path) && path[0] == old && path.last() == s0;
                    assert forall|i: int| 0 <= i < path.len() implies #[trigger] path[i] < n by {
                        if i > 0 {
                            assert(es.contains((path[i - 1], path[i - 1 + 1])));
                            let e = choose|e: int| 0 <= e < es.len() && es[e] == (path[i - 1], path[i]);
                            assert(es[e].1 < n);
                        }
                    }
                    assert forall|v: int| 0 <= v < n && v != path[0] implies #[trigger] allowed[v] == ids_start[v].is_none() by {}
                    lemma_meets_retained(es, allowed, ids_start, path, 1);
                    let x = choose|x: usize| x != path[0] && (#[trigger] ids_start[x as int]).is_some()
                        && reaches(edges_from(es, allowed), path[0], x);
                    assert(reached@.contains(x));
                    let w = choose|w: int| 0 <= w < reached@.len() && reached@[w] == x;
                    assert(w != 0);
                    assert(ids_before[reached@[w] as int].is_some());
                }
            }
        }
        else {
            proof {
                if old != root {
                    assert(ids@[old as int].is_none()) by {
                        if ids@[old as int].is_some() {
                            assert(stash@[old as int].is_none());
                        }
                    }
                    assert(linked(es, ids@, graph_edges(new), old));
                }
                assert(ids@ == ids_start);
            }
        }
        proof {
            let ne2 = graph_edges(new);
            let ids2 = ids@;
            assert(old == root || linked(es, ids2, ne2, old));
            assert(forall|v: int| 0 <= v < n && (#[trigger] ids_start[v]).is_some() ==> ids2[v] == ids_start[v]);
            assert(forall|v: int| 0 <= v < n && v != old ==> #[trigger] ids2[v] == ids_start[v]);
            assert forall|e: (usize, usize)| #[trigger] ne_start.contains(e) implies ne2.contains(e) by {}
            assert forall|k: int| 0 <= k < p + 1 && order@[n - 1 - k] != root implies #[trigger] linked(es, ids2, ne2, order@[n - 1 - k]) by {
                let x = order@[n - 1 - k];
                assert forall|pw: Seq<usize>|
                    #[trigger] open_walk(es, ids2, pw) && pw[0] == x && ids2[x as int].is_some() && ids2[pw.last() as int].is_some()
                        implies ne2.contains((ids2[x as int].unwrap(), ids2[pw.last() as int].unwrap())) by {
                    assert(x < n);
                    lemma_walk_forward(es, order@, n as int, pw, pw.len() as int);
                    let d = pw.last();
                    assert(pos_in(order@, x) == n - 1 - k) by {
                        let i = pos_in(order@, x);
                        assert(order@.contains(x));
                        assert(order@[i] == order@[n - 1 - k]);
                    }
                    if k < p {
                        assert(x != old) by {
                            assert(order@[n - 1 - k] != order@[n - 1 - p]);
                        }
                        assert(ids_start[x as int].is_some());
                        if d == old {
                            assert(pos_in(order@, d) == n - 1 - p) by {
                                let i = pos_in(order@, d);
                                assert(order@.contains(d));
                                assert(order@[i] == order@[n - 1 - p]);
                            }
                            assert(pos_in(order@, pw[0]) < pos_in(order@, pw[pw.len() - 1]));
                            assert(false);
                        } else {
                            assert(open_walk(es, ids_start, pw)) by {
                                assert forall|i: int| 0 < i < pw.len() - 1 implies (#[trigger] ids_start[pw[i] as int]).is_none() by {
                                    assert(ids2[pw[i] as int].is_none());
                                    assert(es.contains((pw[i - 1], pw[i - 1 + 1])));
                                    let e = choose|e: int| 0 <= e < es.len() && es[e] == (pw[i - 1], pw[i]);
                                    assert(es[e].1 < n);
                                }
                            }
                            assert(ids_start[d as int] == ids2[d as int]) by {
                                assert(es.contains((pw[pw.len() - 2], pw[pw.len() - 2 + 1])));
                                let e = choose|e: int| 0 <= e < es.len() && es[e] == (pw[pw.len() - 2], d);
                                assert(es[e].1 < n);
                            }
                            assert(linked(es, ids_start, ne_start, x));
                            assert(ids2[x as int] == ids_start[x as int]);
                            assert(ids2[d as int].is_some());
                            assert(ids_start[pw.last() as int].is_some());
                            assert(open_walk(es, ids_start, pw) && pw[0] == x && ids_start[x as int].is_some());
                            assert(ne_start.contains((ids_start[x as int].unwrap(), ids_start[d as int].unwrap())));
                        }
                    } else {
                        assert(x == old);
                        assert(linked(es, ids2, ne2, old));
                    }
                }
            }
            assert forall|k: int| 0 <= k < p + 1 implies #[trigger] realised_if_needed(es, root, kept, ids@, order@[n - 1 - k]) by {
                let c = order@[n - 1 - k];
                assert(c < n);
                if ids_start[c as int].is_some() {
                    assert(ids@[c as int].is_some());
                } else if k == p && es.contains((root, c)) && c != root {
                    assert(stash_start[c as int].is_some());
                } else if k < p {
                    assert(realised_if_needed(es, root, kept, ids_start, c));
                }
            }
        }
        p += 1;
    }
    proof {
        assert(selected(root, kept, root as int));
        assert forall|c: usize| c < n implies #[trigger] realised_if_needed(es, root, kept, ids@, c) by {
            assert(order@.contains(c));
            let k2 = choose|k2: int| 0 <= k2 < order@.len() && order@[k2] == c;
            assert(order@[n - 1 - (n - 1 - k2)] == c);
            assert(realised_if_needed(es, root, kept, ids@, order@[n - 1 - (n - 1 - k2)]));
        }
    }
    let new_root = ids[root].unwrap();
    let ghost e_main = graph_edges(new);
    proof {
        assert(n * n + 2 * n + 1 == (n + 1) * (n + 1)) by (nonlinear_arith);
    }
    // the kept children of the root stay its children
    let mut c: usize = 0;
    while c < children.len()
        invariant
            n == ns0.len(),
            graph_wf(ns0, es),
            (n + 1) * (n + 1) + es.len() < MAX_INDEX,
            n * n + 2 * n + 1 == (n + 1) * (n + 1),
            root < n,
            no_incoming(es, root),
            keep_state(ns0, es, root, kept, graph_nodes(graph), graph_nodes(new), ids@, stash@),
            graph_nodes(new).len() <= n + n,
            forall|v: usize| #[trigger] children@.contains(v) <==> es.contains((root, v)),
            forall|i: int| 0 <= i < children@.len() ==> #[trigger] children@[i] < n,
            children@.len() <= es.len(),
            c <= children@.len(),
            ids@[root as int] == Some(new_root),
            edges_in_range(graph_edges(new), graph_nodes(new).len() as int),
            graph_edges(new).len() <= n * n + c,
            forall|a: usize| !#[trigger] graph_edges(new).contains((a, new_root)),
            acyclic(es),
            forall|x: usize, y: usize| #[trigger] graph_edges(new).contains((x, y)) ==> edge_ok(ids@, es, x, y),
            forall|e: (usize, usize)| #[trigger] e_main.contains(e) ==> graph_edges(new).contains(e),
            forall|i: int|
                0 <= i < c && (#[trigger] ids@[children@[i] as int]).is_some() ==> graph_edges(new).contains(
                    (new_root, ids@[children@[i] as int].unwrap()),
                ),
        decreases children@.len() - c,
    {
        let v = children[c];
        proof {
            assert(children@.contains(v));
            assert(v != root) by {
                if v == root {
                    assert(es.contains((root, root)));
                }
            }
        }
        match ids[v] {
            Some(nid) => {
                let ghost ebefore = graph_edges(new);
                proof {
                    assert(n * n + c + 1 < MAX_INDEX);
                }
                add_edge(&mut new, new_root, nid);
                proof {
                    crate::paths::lemma_reach_refl(es, v);
                    assert(es.contains((root, v)) && reaches(es, v, v));
                    assert(step_reaches(es, root, v));
                    assert(ids@[root as int] == Some(new_root) && ids@[v as int] == Some(nid));
                    assert forall|x: usize, y: usize| #[trigger] graph_edges(new).contains((x, y))
                        implies edge_ok(ids@, es, x, y) by {
                        crate::tred::lemma_push_or_same(ebefore, graph_edges(new), (new_root, nid), (x, y));
                    }
                    assert forall|e: (usize, usize)| #[trigger] ebefore.contains(e) implies graph_edges(new).contains(e) by {
                        crate::tred::lemma_push_or_same(ebefore, graph_edges(new), (new_root, nid), e);
                    }
                    assert(graph_edges(new).contains((new_root, nid))) by {
                        crate::tred::lemma_push_or_same(ebefore, graph_edges(new), (new_root, nid), (new_root, nid));
                    }
                    assert forall|a: usize| !#[trigger] graph_edges(new).contains((a, new_root)) by {
                        crate::tred::lemma_push_or_same(ebefore, graph_edges(new), (new_root, nid), (a, new_root));
                        if nid == new_root {
                            assert(ids@[v as int] == ids@[root as int]);
                        }
                    }
                }
            },
            None => {},
        }
        c += 1;
    }
    // what no kept node took goes to one more child of the root
    let ghost cur = graph_nodes(graph);
    let ghost st = stash@;
    let mut left: u64 = 0;
    let mut i: usize = 0;
    proof {
        lemma_stash_nonneg(st, 0, n as int);
        lemma_total_nonneg(graph_nodes(new), 0, graph_nodes(new).len() as int);
    }
    while i < n
        invariant
            n == ns0.len(),
            i <= n,
            cur == graph_nodes(graph),
            cur.len() == n,
            st == stash@,
            st.len() == n,
            left == stash_total(st, i as int) + total_prefix(cur, i as int),
            stash_total(st, n as int) + total_size(cur) <= total_size(ns0),
            total_size(ns0) <= u64::MAX,
        decreases n - i,
    {
        proof {
            lemma_stash_monotone(st, i as int + 1, n as int);
            crate::infos::lemma_total_prefix_monotone(cur, i as int + 1, n as int);
            lemma_stash_nonneg(st, 0, i as int + 1);
            lemma_total_nonneg(cur, 0, i as int + 1);
        }
        match &stash[i] {
            Some(w) => {
                left = left + w.size;
            },
            None => {},
        }
        left = left + node_at(&graph, i).size;
        i += 1;
    }
    let ghost nn = graph_nodes(new);
    let ghost e0 = graph_edges(new);
    if left > 0 {
        proof {
            assert(n * n + 2 * n + 1 == (n + 1) * (n + 1)) by (nonlinear_arith);
        }
        let f = add_node(&mut new, DepNode { description: NodeDescription::FilteredOut, size: left });
        let ghost ebefore = graph_edges(new);
        add_edge(&mut new, new_root, f);
        proof {
            assert(f == nn.len());
            let ee = graph_edges(new);
            assert(ee[ee.len() - 1] == (new_root, f));
            assert(ee.contains((new_root, nn.len() as usize)));
            lemma_total_push(nn, DepNode { description: NodeDescription::FilteredOut, size: left });
            assert forall|a: usize| !#[trigger] graph_edges(new).contains((a, new_root)) by {
                crate::tred::lemma_push_or_same(ebefore, graph_edges(new), (new_root, f), (a, new_root));
            }
        }
    }
    let r = DepInfos {
        graph: new,
        root: new_root,
        metadata: SizeMetadata { reachable: Reachability::Connected, ..metadata },
    };
    proof {
        let rn = r.nodes();
        assert(n * n + 2 * n + 1 == (n + 1) * (n + 1)) by (nonlinear_arith);
        assert forall|v: int| 0 <= v < n && admissible(es, root, kept, v) implies exists|j: int|
            0 <= j < rn.len() && #[trigger] rn[j].description == ns0[v].description by {
            if !selected(root, kept, v) {
                assert(realised_if_needed(es, root, kept, ids@, v as usize));
            }
            let j = ids@[v].unwrap() as int;
            assert(rn[j] == nn[j]);
        }
        assert forall|j: int| 0 <= j < rn.len() implies (#[trigger] rn[j]).description
            == NodeDescription::FilteredOut || exists|v: int|
            0 <= v < n && admissible(es, root, kept, v) && rn[j].description == ns0[v].description by {
            if j < nn.len() {
                assert(has_origin(ids@, j));
                let v = choose|v: int| 0 <= v < ids@.len() && #[trigger] ids@[v] == Some(j as usize);
                assert(rn[j] == nn[j]);
            }
        }
        assert(kept_by(filter, di.nodes(), kept));
        assert(kept_result(di, r, kept));
        crate::reduction::lemma_total_prefix_same(nn, rn, nn.len() as int);
        assert(keep_state(ns0, es, root, kept, cur, nn, ids@, st));
        assert(total_size(nn) + total_size(cur) + stash_total(st, n as int) == total_size(ns0));
        assert(left as int == stash_total(st, n as int) + total_size(cur));
        assert(total_prefix(rn, nn.len() as int) == total_size(nn));
        assert(r.root < nn.len());
        assert(total_size(di.nodes()) == total_size(ns0));
        if left > 0 {
            assert(rn.len() == nn.len() + 1);
            assert(rn[nn.len() as int].size == left);
            assert(rn[nn.len() as int].description == NodeDescription::FilteredOut);
            assert(r.edges().contains((r.root, nn.len() as usize)));
        } else {
            assert(rn == nn);
        }
        assert(filtered_tail(di, r, nn.len() as int));
        lemma_keep_acyclic(ids@, es, e0, r.edges(), nn.len() as usize, new_root);
        // everything is reached from the root
        lemma_finish_connected(
            es, order@, n as int, ids@, root, new_root, e_main, e0, r.edges(), kept, children@, nn.len() as int,
            rn.len() as int,
        );
        lemma_finish_links(di, r, ids@, nn, e0);
    }
    r
}

/// Edges that stand for non-empty walks of an acyclic graph, and perhaps one more
/// edge into a fresh node `f`, make no cycle.
proof fn lemma_keep_acyclic(
    ids: Seq<Option<usize>>,
    es: Seq<(usize, usize)>,
    e0: Seq<(usize, usize)>,
    e: Seq<(usize, usize)>,
    f: usize,
    r0: usize,
)
    requires
        acyclic(es),
        forall|x: usize, y: usize| #[trigger] e0.contains((x, y)) ==> edge_ok(ids, es, x, y),
        forall|u: int, v: int|
            0 <= u < ids.len() && 0 <= v < ids.len() && (#[trigger] ids[u]).is_some() && ids[u] == #[trigger] ids[v] ==> u == v,
        forall|u: int| 0 <= u < ids.len() && (#[trigger] ids[u]).is_some() ==> ids[u].unwrap() < f,
        r0 < f,
        e == e0 || e == e0.push((r0, f)),
    ensures
        acyclic(e),
{
    assert forall|y: usize| !#[trigger] e0.contains((f, y)) by {
        if e0.contains((f, y)) {
            assert(edge_ok(ids, es, f, y));
            let (u, v) = choose|u: usize, v: usize|
                u < ids.len() && v < ids.len() && #[trigger] ids[u as int] == Some(f) && #[trigger] ids[v as int]
                    == Some(y) && step_reaches(es, u, v);
        }
    }
    assert forall|x: usize, y: usize| #[trigger] e.contains((x, y)) implies !reaches(e, y, x) by {
        if reaches(e, y, x) {
            let p = choose|p: Seq<usize>| #[trigger] is_walk(e, p) && p[0] == y && p.last() == x;
            if e == e0.push((r0, f)) && (x, y) == (r0, f) {
                // a walk out of f has no first edge
                if p.len() > 1 {
                    let z: int = 0;
                    assert(e.contains((p[z], p[z + 1])));
                    crate::tred::lemma_push_or_same(e0, e, (r0, f), (p[z], p[z + 1]));
                }
            } else {
                if e == e0.push((r0, f)) {
                    crate::tred::lemma_push_or_same(e0, e, (r0, f), (x, y));
                }
                assert(e0.contains((x, y)));
                assert(edge_ok(ids, es, x, y));
                let (a, b) = choose|a: usize, b: usize|
                    a < ids.len() && b < ids.len() && #[trigger] ids[a as int] == Some(x) && #[trigger] ids[b as int]
                        == Some(y) && step_reaches(es, a, b);
                let w = choose|w: usize| #[trigger] es.contains((a, w)) && reaches(es, w, b);
                if e == e0.push((r0, f)) {
                    lemma_walk_avoids_sink(e0, r0, f, p);
                }
                assert(is_walk(e0, p));
                if p.len() == 1 {
                    assert(ids[a as int] == ids[b as int]);
                    assert(a == b);
                } else {
                    lemma_walk_origins(ids, es, e0, p, p.len() as int);
                    let (u0, u1) = choose|u: usize, v: usize|
                        u < ids.len() && v < ids.len() && #[trigger] ids[u as int] == Some(p[0]) && #[trigger] ids[v as int]
                            == Some(p[p.len() - 1]) && reaches(es, u, v);
                    assert(u0 == b);
                    assert(u1 == a);
                    crate::paths::lemma_reach_trans(es, w, b, a);
                }
                assert(reaches(es, w, a));
            }
        }
    }
}

proof fn lemma_stash_monotone(st: Seq<Option<DepNode>>, a: int, b: int)
    requires
        0 <= a <= b <= st.len(),
    ensures
        stash_total(st, a) <= stash_total(st, b),
    decreases b - a,
{
    if a < b {
        lemma_stash_monotone(st, a, b - 1);
    }
}

proof fn lemma_stash_zero(st: Seq<Option<DepNode>>, k: int)
    requires
        0 <= k <= st.len(),
        forall|v: int| 0 <= v < k ==> (#[trigger] st[v]).is_none(),
    ensures
        stash_total(st, k) == 0,
    decreases k,
{
    if k > 0 {
        lemma_stash_zero(st, k - 1);
    }
}

/// `s` is in increasing order.
pub open spec fn sorted_sizes(s: Seq<u64>) -> bool {
    forall|i: int, j: int| 0 <= i <= j < s.len() ==> #[trigger] s[i] <= #[trigger] s[j]
}

/// Relies on std's `slice::sort_unstable`: the same values, in increasing order.
#[verifier::external_body]
fn sort_sizes(v: &mut Vec<u64>)
    ensures
        sorted_sizes(final(v)@),
        final(v)@.to_multiset() == old(v)@.to_multiset(),
{
    v.sort_unstable();
}

/// The size threshold that keeps about the `count` largest nodes: the `count`-th
/// largest node size, counting equal sizes apart.
pub fn count_threshold(di: &DepInfos, count: usize) -> (r: u64)
    requires
        0 < count < di.nodes().len(),
    ensures
        exists|s: Seq<u64>|
            #[trigger] sorted_sizes(s) && s.to_multiset() == di.nodes().map_values(|d: DepNode| d.size).to_multiset()
                && r == s[s.len() - count],
{
    let n = node_count(&di.graph);
    let mut sizes: Vec<u64> = Vec::new();
    let mut i: usize = 0;
    while i < n
        invariant
            n == di.nodes().len(),
            i <= n,
            sizes@ == di.nodes().subrange(0, i as int).map_values(|d: DepNode| d.size),
        decreases n - i,
    {
        sizes.push(node_at(&di.graph, i).size);
        proof {
            assert(di.nodes().subrange(0, i + 1).map_values(|d: DepNode| d.size) =~= di.nodes().subrange(
                0,
                i as int,
            ).map_values(|d: DepNode| d.size).push(di.nodes()[i as int].size));
        }
        i += 1;
    }
    proof {
        assert(di.nodes().subrange(0, n as int) =~= di.nodes());
    }
    let ghost before = sizes@;
    sort_sizes(&mut sizes);
    proof {
        assert(sizes@.len() == before.len()) by {
            sizes@.to_multiset_ensures();
            before.to_multiset_ensures();
        }
    }
    sizes[n - count]
}

} // verus!
