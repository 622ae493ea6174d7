//! Two passes over the dependency graph: trimming it to what the root reaches, and
//! merging the transient roots under one node.
use crate::graph::{
    acyclic, add_edge, add_node, dfs_order, edge_at, edge_count, find_edge, graph_edges,
    graph_nodes, is_walk, listed_total, lists_reachable, new_graph, node_at, node_count,
    reachable_total, reaches, remove_edge, replace_node, sum_where, total_prefix,
    total_size,
};
use crate::infos::{graph_wf, lemma_sum_where_bounded, DepInfos, Reachability, SizeMetadata};
use crate::model::{transient_kind, DepNode, NodeDescription, NodeKind};
use crate::sums::{lemma_distinct_below, lemma_listed_is_sum_where};
use crate::condense::no_incoming;
use crate::paths::{lemma_reach_edge, lemma_reach_lift, lemma_reach_lift_map, lemma_reach_refl, lemma_reach_trans};
use vstd::prelude::*;

verus! {

/// `(ns2, es2)` is the subgraph of `(ns, es)` made of the nodes listed in `o`, node
/// `j` of it standing for node `o[j]`.
pub open spec fn induced(
    ns: Seq<DepNode>,
    es: Seq<(usize, usize)>,
    o: Seq<usize>,
    ns2: Seq<DepNode>,
    es2: Seq<(usize, usize)>,
) -> bool {
    &&& ns2.len() == o.len()
    &&& forall|j: int| 0 <= j < o.len() ==> #[trigger] ns2[j] == ns[o[j] as int]
    &&& forall|a: usize, b: usize| #[trigger]
        es2.contains((a, b)) <==> (a < o.len() && b < o.len() && es.contains((o[a as int], o[b as int])))
}

pub proof fn lemma_total_of_listed(ns: Seq<DepNode>, o: Seq<usize>, ns2: Seq<DepNode>, k: int)
    requires
        0 <= k <= o.len(),
        ns2.len() == o.len(),
        forall|j: int| 0 <= j < o.len() ==> #[trigger] ns2[j] == ns[o[j] as int],
    ensures
        total_prefix(ns2, k) == listed_total(ns, o, k),
    decreases k,
{
    if k > 0 {
        lemma_total_of_listed(ns, o, ns2, k - 1);
    }
}

/// The subgraph induced by the nodes that the root reaches is reached from the root.
proof fn lemma_induced_connected(
    ns: Seq<DepNode>,
    es: Seq<(usize, usize)>,
    root: usize,
    o: Seq<usize>,
    ns2: Seq<DepNode>,
    es2: Seq<(usize, usize)>,
)
    requires
        lists_reachable(es, ns.len() as int, root, o),
        o.len() > 0 && o[0] == root,
        o.len() <= usize::MAX,
        induced(ns, es, o, ns2, es2),
    ensures
        forall|j: usize| j < o.len() ==> #[trigger] reaches(es2, 0, j),
{
    assert forall|j: usize| j < o.len() implies #[trigger] reaches(es2, 0, j) by {
        assert(o.contains(o[j as int]));
        let p = choose|p: Seq<usize>| #[trigger] is_walk(es, p) && p[0] == root && p.last() == o[j as int];
        lemma_walk_into_induced(es, root, o, es2, p, p.len() as int);
        let i = choose|i: usize| i < o.len() && o[i as int] == p[p.len() - 1] && reaches(es2, 0, i);
        assert(o[i as int] == o[j as int]);
    }
}

proof fn lemma_walk_into_induced(
    es: Seq<(usize, usize)>,
    root: usize,
    o: Seq<usize>,
    es2: Seq<(usize, usize)>,
    p: Seq<usize>,
    k: int,
)
    requires
        o.no_duplicates(),
        o.len() <= usize::MAX,
        forall|v: usize| #[trigger] o.contains(v) <==> reaches(es, root, v),
        o.len() > 0 && o[0] == root,
        forall|a: usize, b: usize| #[trigger]
            es2.contains((a, b)) <==> (a < o.len() && b < o.len() && es.contains((o[a as int], o[b as int]))),
        is_walk(es, p),
        p[0] == root,
        1 <= k <= p.len(),
    ensures
        exists|i: usize| i < o.len() && o[i as int] == p[k - 1] && #[trigger] reaches(es2, 0, i),
    decreases k,
{
    if k == 1 {
        crate::paths::lemma_reach_refl(es2, 0);
        assert(o[0int] == p[k - 1] && reaches(es2, 0, 0usize));
    } else {
        lemma_walk_into_induced(es, root, o, es2, p, k - 1);
        let a = choose|i: usize| i < o.len() && o[i as int] == p[k - 2] && #[trigger] reaches(es2, 0, i);
        crate::paths::lemma_walk_prefix(es, p, k - 1);
        assert(o.contains(p[k - 1]));
        let b = choose|i: int| 0 <= i < o.len() && o[i] == p[k - 1];
        assert(es.contains((p[k - 2], p[k - 2 + 1])));
        let bu = b as usize;
        assert(o[bu as int] == p[k - 1]);
        assert(o[a as int] == p[k - 2]);
        assert(es.contains((o[a as int], o[bu as int])));
        assert(es2.contains((a, bu)));
        crate::paths::lemma_reach_extend(es2, 0, a, bu);
        assert(bu < o.len() && o[bu as int] == p[k - 1] && reaches(es2, 0, bu));
    }
}

/// The edges among `es`'s first `k` whose ends both have a new index, in order, with
/// their ends renumbered.
pub open spec fn carried_edges(es: Seq<(usize, usize)>, ids: Seq<Option<usize>>, k: int) -> Seq<(usize, usize)>
    decreases k,
{
    if k <= 0 {
        Seq::empty()
    } else {
        let prev = carried_edges(es, ids, k - 1);
        let (a, b) = es[k - 1];
        if ids[a as int].is_some() && ids[b as int].is_some() {
            prev.push((ids[a as int].unwrap(), ids[b as int].unwrap()))
        } else {
            prev
        }
    }
}

/// `r` holds the nodes of `di` that its root reaches, node `v` at index `ids[v]`, and
/// one edge for each edge of `di` between them, in the same order.
pub open spec fn carries(di: DepInfos, r: DepInfos, ids: Seq<Option<usize>>) -> bool {
    &&& ids.len() == di.nodes().len()
    &&& forall|v: int|
        0 <= v < ids.len() ==> ((#[trigger] ids[v]).is_some() == reaches(di.edges(), di.root, v as usize))
    &&& forall|v: int|
        0 <= v < ids.len() && (#[trigger] ids[v]).is_some() ==> ids[v].unwrap() < r.nodes().len()
            && r.nodes()[ids[v].unwrap() as int] == di.nodes()[v]
    &&& ids[di.root as int] == Some(r.root)
    &&& r.edges() == carried_edges(di.edges(), ids, di.edges().len() as int)
}

/// `n` fresh slots, all empty.
fn empty_slots(n: usize) -> (r: Vec<Option<usize>>)
    ensures
        r@.len() == n,
        forall|j: int| 0 <= j < n ==> #[trigger] r@[j] == None::<usize>,
{
    let mut r: Vec<Option<usize>> = Vec::new();
    let mut i: usize = 0;
    while i < n
        invariant
            i <= n,
            r@.len() == i,
            forall|j: int| 0 <= j < i ==> #[trigger] r@[j] == None::<usize>,
        decreases n - i,
    {
        r.push(None);
        i += 1;
    }
    r
}

/// Creates a new graph retaining only the nodes reachable from the root, and the
/// edges between them.
pub fn keep_reachable(di: DepInfos) -> (r: DepInfos)
    requires
        di.wf(),
    ensures
        r.wf(),
        r.root == 0,
        exists|o: Seq<usize>|
            {
                &&& lists_reachable(di.edges(), di.nodes().len() as int, di.root, o)
                &&& o.len() > 0 && o[0] == di.root
                &&& #[trigger] induced(di.nodes(), di.edges(), o, r.nodes(), r.edges())
            },
        r.metadata == (SizeMetadata { reachable: Reachability::Connected, ..di.metadata }),
        r.connected(),
        r.reachable_size_spec() == di.reachable_size_spec(),
        r.nodes()[r.root as int].description == di.nodes()[di.root as int].description,
        no_incoming(di.edges(), di.root) ==> no_incoming(r.edges(), r.root),
        acyclic(di.edges()) ==> acyclic(r.edges()),
        exists|ids: Seq<Option<usize>>| #[trigger] carries(di, r, ids),
{
    let ghost ns = di.nodes();
    let ghost es = di.edges();
    let DepInfos { graph: mut old_graph, root: old_root, metadata } = di;
    let n = node_count(&old_graph);
    let order = dfs_order(&old_graph, old_root);
    let ghost o = order@;
    let mut new_graph = new_graph();
    let mut new_ids = empty_slots(n);
    let mut i: usize = 0;
    while i < order.len()
        invariant
            n == ns.len(),
            n < crate::graph::MAX_INDEX,
            lists_reachable(es, n as int, old_root, o),
            o.len() > 0 && o[0] == old_root,
            o == order@,
            i <= o.len(),
            graph_edges(old_graph) == es,
            graph_nodes(old_graph).len() == n,
            forall|j: int| i <= j < o.len() ==> #[trigger] graph_nodes(old_graph)[o[j] as int] == ns[o[j] as int],
            graph_nodes(new_graph).len() == i,
            forall|j: int| 0 <= j < i ==> #[trigger] graph_nodes(new_graph)[j] == ns[o[j] as int],
            graph_edges(new_graph) == Seq::<(usize, usize)>::empty(),
            new_ids@.len() == n,
            forall|v: int|
                0 <= v < n && (#[trigger] new_ids@[v]).is_some() ==> new_ids@[v].unwrap() < i
                    && o[new_ids@[v].unwrap() as int] == v,
            forall|j: int| 0 <= j < i ==> new_ids@[#[trigger] o[j] as int] == Some(j as usize),
        decreases o.len() - i,
    {
        let idx = order[i];
        proof {
            lemma_distinct_below(o, n as int);
        }
        let w = replace_node(&mut old_graph, idx, DepNode::dummy());
        let nid = add_node(&mut new_graph, w);
        new_ids.set(idx, Some(nid));
        proof {
            assert forall|j: int| i + 1 <= j < o.len() implies #[trigger] graph_nodes(old_graph)[o[j] as int] == ns[o[j] as int] by {
                assert(o[j] != o[i as int]);
            }
        }
        i += 1;
    }
    let m = node_count(&new_graph);
    let ecount = edge_count(&old_graph);
    let mut k: usize = 0;
    while k < ecount
        invariant
            ecount == es.len(),
            graph_edges(old_graph) == es,
            es.len() < crate::graph::MAX_INDEX,
            crate::graph::edges_in_range(es, n as int),
            n == ns.len(),
            m == o.len(),
            k <= ecount,
            graph_nodes(new_graph).len() == m,
            forall|j: int| 0 <= j < m ==> #[trigger] graph_nodes(new_graph)[j] == ns[o[j] as int],
            graph_edges(new_graph).len() <= k,
            new_ids@.len() == n,
            forall|v: int|
                0 <= v < n && (#[trigger] new_ids@[v]).is_some() ==> new_ids@[v].unwrap() < m
                    && o[new_ids@[v].unwrap() as int] == v,
            forall|j: int| 0 <= j < m ==> new_ids@[#[trigger] o[j] as int] == Some(j as usize),
            o.len() > 0 && o[0] == old_root,
            lists_reachable(es, n as int, old_root, o),
            total_size(ns) <= u64::MAX,
            forall|a: usize, b: usize| #[trigger]
                graph_edges(new_graph).contains((a, b)) <==> (a < m && b < m && es.subrange(
                    0,
                    k as int,
                ).contains((o[a as int], o[b as int]))),
            graph_edges(new_graph) == carried_edges(es, new_ids@, k as int),
        decreases ecount - k,
    {
        let (a, b) = edge_at(&old_graph, k);
        let ghost before = graph_edges(new_graph);
        proof {
            lemma_distinct_below(o, n as int);
        }
        match (new_ids[a], new_ids[b]) {
            (Some(na), Some(nb)) => {
                add_edge(&mut new_graph, na, nb);
            },
            _ => {},
        }
        proof {
            assert forall|x: usize, y: usize| #[trigger]
                graph_edges(new_graph).contains((x, y)) <==> (x < m && y < m && es.subrange(
                    0,
                    k + 1,
                ).contains((o[x as int], o[y as int]))) by {
                let sub = es.subrange(0, k as int);
                let sub1 = es.subrange(0, k + 1);
                assert(sub1 =~= sub.push(es[k as int]));
                if x < m && y < m && sub1.contains((o[x as int], o[y as int])) {
                    if !sub.contains((o[x as int], o[y as int])) {
                        assert(es[k as int] == (o[x as int], o[y as int]));
                        assert(new_ids@[o[x as int] as int] == Some(x));
                        assert(new_ids@[o[y as int] as int] == Some(y));
                        assert(graph_edges(new_graph).last() == (x, y));
                    } else {
                        assert(before.contains((x, y)));
                        let w = choose|w: int| 0 <= w < before.len() && before[w] == (x, y);
                        assert(graph_edges(new_graph)[w] == (x, y));
                    }
                }
                if graph_edges(new_graph).contains((x, y)) {
                    let w = choose|w: int|
                        0 <= w < graph_edges(new_graph).len() && graph_edges(new_graph)[w] == (
                            x,
                            y,
                        );
                    if w < before.len() {
                        assert(before[w] == (x, y));
                        assert(before.contains((x, y)));
                        let w2 = choose|w2: int|
                            0 <= w2 < sub.len() && sub[w2] == (o[x as int], o[y as int]);
                        assert(sub1[w2] == (o[x as int], o[y as int]));
                    } else {
                        assert(sub1[k as int] == (o[x as int], o[y as int]));
                    }
                }
            }
        }
        k += 1;
    }
    proof {
        assert(es.subrange(0, ecount as int) =~= es);
        lemma_total_of_listed(ns, o, graph_nodes(new_graph), m as int);
        lemma_listed_is_sum_where(ns, o, n as int);
        lemma_sum_where_bounded(ns, |v: usize| o.contains(v), n as int);
        assert(induced(ns, es, o, graph_nodes(new_graph), graph_edges(new_graph)));
        assert(lists_reachable(es, n as int, old_root, o));
        lemma_distinct_below(o, n as int);
        let es2 = graph_edges(new_graph);
        assert forall|q: int| 0 <= q < es2.len() implies (#[trigger] es2[q]).0 < m && es2[q].1 < m by {
            assert(es2.contains((es2[q].0, es2[q].1)));
        }
    }
    let new_root = new_ids[old_root].unwrap();
    let ghost ids = new_ids@;
    let r = DepInfos {
        graph: new_graph,
        root: new_root,
        metadata: SizeMetadata { reachable: Reachability::Connected, ..metadata },
    };
    proof {
        assert(es.subrange(0, ecount as int) =~= es);
        assert forall|v: int| 0 <= v < n implies (#[trigger] ids[v]).is_some() == reaches(es, old_root, v as usize) by {
            if ids[v].is_some() {
                assert(o.contains(o[ids[v].unwrap() as int]));
            }
            if reaches(es, old_root, v as usize) {
                assert(o.contains(v as usize));
                let w = choose|w: int| 0 <= w < o.len() && o[w] == v as usize;
            }
        }
        assert(carries(di, r, ids));
        assert(induced(di.nodes(), di.edges(), o, r.nodes(), r.edges()));
        let ns2 = r.nodes();
        let es2 = r.edges();
        lemma_induced_connected(ns, es, old_root, o, ns2, es2);
        assert(new_root == 0);
        let reached_new = |v: usize| reaches(es2, 0, v);
        crate::sums::lemma_sum_where_all(ns2, reached_new, m as int);
        crate::sums::lemma_sum_where_congruent(ns, |v: usize| o.contains(v), |v: usize| reaches(es, old_root, v), n as int);
        if no_incoming(es, old_root) {
            assert forall|a: usize| !#[trigger] es2.contains((a, 0)) by {
                if es2.contains((a, 0)) {
                    assert(es.contains((o[a as int], old_root)));
                }
            }
        }
        if acyclic(es) {
            let f = |j: usize| if j < o.len() { o[j as int] } else { j };
            assert forall|a: usize, b: usize| #[trigger] es2.contains((a, b)) implies !reaches(es2, b, a) by {
                if reaches(es2, b, a) {
                    assert forall|x: usize, y: usize| #[trigger] es2.contains((x, y)) implies es.contains((f(x), f(y))) by {}
                    crate::paths::lemma_reach_map(es2, es, f, b, a);
                    assert(es.contains((f(a), f(b))));
                }
            }
        }
    }
    r
}

} // verus!

verus! {

/// The edges after the transient children of `root` have been moved under `t`.
pub open spec fn merged_edges(
    ns: Seq<DepNode>,
    es: Seq<(usize, usize)>,
    root: usize,
    t: usize,
    es2: Seq<(usize, usize)>,
) -> bool {
    forall|a: usize, b: usize| #[trigger]
        es2.contains((a, b)) <==> {
            ||| es.contains((a, b)) && !(a == root && is_transient_node(ns, b))
            ||| a == root && b == t
            ||| a == t && es.contains((root, b)) && is_transient_node(ns, b)
        }
}

pub open spec fn is_transient_node(ns: Seq<DepNode>, v: usize) -> bool {
    v < ns.len() && transient_kind(ns[v as int].description.kind_of())
}

/// Whether the root is a synthetic dummy with at least one transient child.
pub open spec fn has_transient_roots(di: DepInfos) -> bool {
    &&& di.nodes()[di.root as int].description == NodeDescription::Dummy
    &&& exists|v: usize| #[trigger] di.edges().contains((di.root, v)) && is_transient_node(di.nodes(), v)
}

proof fn lemma_push_contains(s: Seq<(usize, usize)>, y: (usize, usize), x: (usize, usize))
    ensures
        s.push(y).contains(x) <==> (s.contains(x) || x == y),
{
    if s.contains(x) {
        let w = choose|w: int| 0 <= w < s.len() && s[w] == x;
        assert(s.push(y)[w] == x);
    }
    if x == y {
        assert(s.push(y)[s.len() as int] == x);
    }
    if s.push(y).contains(x) && x != y {
        let w = choose|w: int| 0 <= w < s.len() + 1 && s.push(y)[w] == x;
        assert(s[w] == x);
    }
}

proof fn lemma_total_push_zero(ns: Seq<DepNode>)
    ensures
        total_size(ns.push(DepNode { description: NodeDescription::Transient, size: 0 }))
            == total_size(ns),
{
    let ns2 = ns.push(DepNode { description: NodeDescription::Transient, size: 0 });
    lemma_total_prefix_same(ns, ns2, ns.len() as int);
}

pub proof fn lemma_total_prefix_same(ns: Seq<DepNode>, ns2: Seq<DepNode>, k: int)
    requires
        0 <= k <= ns.len(),
        k <= ns2.len(),
        forall|i: int| 0 <= i < k ==> #[trigger] ns[i].size == ns2[i].size,
    ensures
        total_prefix(ns, k) == total_prefix(ns2, k),
    decreases k,
{
    if k > 0 {
        lemma_total_prefix_same(ns, ns2, k - 1);
    }
}

proof fn lemma_swap_remove_contains(s: Seq<(usize, usize)>, k: int, x: (usize, usize))
    requires
        0 <= k < s.len(),
    ensures
        x != s[k] ==> (s.update(k, s.last()).drop_last().contains(x) <==> s.contains(x)),
        s.update(k, s.last()).drop_last().contains(x) ==> s.contains(x),
{
    let s2 = s.update(k, s.last()).drop_last();
    if s2.contains(x) {
        let w = choose|w: int| 0 <= w < s2.len() && s2[w] == x;
        if w == k {
            assert(s[s.len() - 1] == x);
        } else {
            assert(s[w] == x);
        }
    }
    if x != s[k] && s.contains(x) {
        let w = choose|w: int| 0 <= w < s.len() && s[w] == x;
        if w == s.len() - 1 {
            assert(s2[k] == x);
        } else {
            assert(s2[w] == x);
        }
    }
}

proof fn lemma_merge_reach(
    ns: Seq<DepNode>,
    es: Seq<(usize, usize)>,
    root: usize,
    t: usize,
    es2: Seq<(usize, usize)>,
)
    requires
        merged_edges(ns, es, root, t, es2),
        t == ns.len(),
        root < t,
        crate::graph::edges_in_range(es, t as int),
    ensures
        forall|v: usize| v < t ==> (#[trigger] reaches(es2, root, v) <==> reaches(es, root, v)),
{
    assert forall|a: usize, b: usize| #[trigger] es.contains((a, b)) implies reaches(es2, a, b) by {
        if a == root && is_transient_node(ns, b) {
            assert(es2.contains((root, t)));
            assert(es2.contains((t, b)));
            lemma_reach_edge(es2, root, t);
            lemma_reach_edge(es2, t, b);
            lemma_reach_trans(es2, root, t, b);
        } else {
            lemma_reach_edge(es2, a, b);
        }
    }
    let f = |x: usize| if x == t { root } else { x };
    assert forall|a: usize, b: usize| #[trigger] es2.contains((a, b)) implies reaches(es, f(a), f(b)) by {
        if es.contains((a, b)) && !(a == root && is_transient_node(ns, b)) {
            let w = choose|w: int| 0 <= w < es.len() && es[w] == (a, b);
            assert(es[w].0 < t && es[w].1 < t);
            lemma_reach_edge(es, a, b);
        } else if a == root && b == t {
            lemma_reach_refl(es, root);
        } else {
            let w = choose|w: int| 0 <= w < es.len() && es[w] == (root, b);
            assert(es[w].1 < t);
            lemma_reach_edge(es, root, b);
        }
    }
    assert forall|v: usize| v < t implies (#[trigger] reaches(es2, root, v) <==> reaches(es, root, v)) by {
        if reaches(es, root, v) {
            lemma_reach_lift(es, es2, root, v);
        }
        if reaches(es2, root, v) {
            lemma_reach_lift_map(es2, es, f, root, v);
        }
    }
}

proof fn lemma_merge_acyclic(
    ns: Seq<DepNode>,
    es: Seq<(usize, usize)>,
    root: usize,
    t: usize,
    es2: Seq<(usize, usize)>,
)
    requires
        merged_edges(ns, es, root, t, es2),
        t == ns.len(),
        root < t,
        crate::graph::edges_in_range(es, t as int),
        acyclic(es),
        no_incoming(es, root),
        no_incoming(es2, root),
    ensures
        acyclic(es2),
{
    let f = |x: usize| if x == t { root } else { x };
    assert forall|a: usize, b: usize| #[trigger] es2.contains((a, b)) implies reaches(es, f(a), f(b)) by {
        if es.contains((a, b)) && !(a == root && is_transient_node(ns, b)) {
            let w = choose|w: int| 0 <= w < es.len() && es[w] == (a, b);
            assert(es[w].0 < t && es[w].1 < t);
            lemma_reach_edge(es, a, b);
        } else if a == root && b == t {
            lemma_reach_refl(es, root);
        } else {
            let w = choose|w: int| 0 <= w < es.len() && es[w] == (root, b);
            assert(es[w].1 < t);
            lemma_reach_edge(es, root, b);
        }
    }
    assert forall|a: usize, b: usize| #[trigger] es2.contains((a, b)) implies !reaches(es2, b, a) by {
        if reaches(es2, b, a) {
            lemma_reach_lift_map(es2, es, f, b, a);
            if es.contains((a, b)) && !(a == root && is_transient_node(ns, b)) {
                let w = choose|w: int| 0 <= w < es.len() && es[w] == (a, b);
                assert(es[w].0 < t && es[w].1 < t);
                assert(f(a) == a && f(b) == b);
            } else if a == root && b == t {
                crate::condense::lemma_reach_no_incoming(es2, root, t);
            } else {
                let w = choose|w: int| 0 <= w < es.len() && es[w] == (root, b);
                assert(es[w].1 < t);
                assert(f(b) == b && f(a) == root);
                crate::condense::lemma_reach_no_incoming(es, root, b);
            }
        }
    }
}

/// Merges all the memory and temporary roots under one `Transient` root. Does nothing
/// when the root is not a dummy or when it has no such child.
pub fn merge_transient_roots(di: DepInfos) -> (r: DepInfos)
    requires
        di.wf(),
        di.has_room(1, 1),
    ensures
        r.wf(),
        r.root == di.root,
        r.metadata == di.metadata,
        !has_transient_roots(di) ==> r.nodes() == di.nodes() && r.edges() == di.edges(),
        has_transient_roots(di) ==> {
            &&& r.nodes() == di.nodes().push(
                DepNode { description: NodeDescription::Transient, size: 0 },
            )
            &&& merged_edges(di.nodes(), di.edges(), di.root, di.nodes().len() as usize, r.edges())
        },
        r.reachable_size_spec() == di.reachable_size_spec(),
        r.nodes()[r.root as int].description == di.nodes()[di.root as int].description,
        no_incoming(di.edges(), di.root) ==> no_incoming(r.edges(), r.root),
        acyclic(di.edges()) && no_incoming(di.edges(), di.root) ==> acyclic(r.edges()),
{
    let ghost ns = di.nodes();
    let ghost es = di.edges();
    if node_at(&di.graph, di.root).kind() != NodeKind::Dummy {
        return di;
    }
    let children = di.roots();
    let DepInfos { mut graph, root, metadata } = di;
    let mut targets: Vec<usize> = Vec::new();
    let mut i: usize = 0;
    while i < children.len()
        invariant
            graph_wf(ns, es),
            root < ns.len(),
            ns == graph_nodes(graph),
            es == graph_edges(graph),
            i <= children@.len(),
            forall|v: usize| #[trigger] children@.contains(v) <==> es.contains((root, v)),
            forall|v: usize| #[trigger]
                targets@.contains(v) <==> (children@.subrange(0, i as int).contains(v)
                    && is_transient_node(ns, v)),
        decreases children@.len() - i,
    {
        let v = children[i];
        proof {
            assert(children@.contains(v));
            let w = choose|w: int| 0 <= w < es.len() && es[w] == (root, v);
            assert(es[w].1 < ns.len());
        }
        let ghost before = targets@;
        if node_at(&graph, v).kind().is_transient() {
            targets.push(v);
        }
        proof {
            let sub = children@.subrange(0, i as int);
            let sub1 = children@.subrange(0, i + 1);
            assert(sub1 =~= sub.push(v));
            assert forall|x: usize| #[trigger]
                targets@.contains(x) <==> (sub1.contains(x) && is_transient_node(ns, x)) by {
                if sub1.contains(x) && x != v {
                    let w = choose|w: int| 0 <= w < sub1.len() && sub1[w] == x;
                    assert(sub[w] == x);
                }
                if sub.contains(x) {
                    let w = choose|w: int| 0 <= w < sub.len() && sub[w] == x;
                    assert(sub1[w] == x);
                }
                if targets@.contains(x) && x != v {
                    let w = choose|w: int| 0 <= w < targets@.len() && targets@[w] == x;
                    assert(before[w] == x);
                }
                if before.contains(x) {
                    let w = choose|w: int| 0 <= w < before.len() && before[w] == x;
                    assert(targets@[w] == x);
                }
                if x == v && is_transient_node(ns, x) {
                    assert(targets@.last() == x);
                }
                if x == v {
                    assert(sub1[i as int] == v);
                }
            }
        }
        i += 1;
    }
    proof {
        assert(children@.subrange(0, i as int) =~= children@);
    }
    if targets.len() == 0 {
        proof {
            assert forall|v: usize| #[trigger] es.contains((root, v)) implies !is_transient_node(ns, v) by {
                assert(children@.contains(v));
                if is_transient_node(ns, v) {
                    assert(targets@.contains(v));
                }
            }
        }
        return DepInfos { graph, root, metadata };
    }
    proof {
        assert(targets@.contains(targets@[0]));
    }
    let t = add_node(
        &mut graph,
        DepNode { description: NodeDescription::Transient, size: 0 },
    );
    add_edge(&mut graph, root, t);
    proof {
        assert forall|a: usize, b: usize| #[trigger]
            graph_edges(graph).contains((a, b)) <==> {
                ||| es.contains((a, b)) && !(a == root && targets@.subrange(0, 0).contains(b))
                ||| a == root && b == t
                ||| a == t && es.contains((root, b)) && targets@.subrange(0, 0).contains(b)
            } by {
            lemma_push_contains(es, (root, t), (a, b));
        }
        assert forall|v: usize| #[trigger]
            targets@.contains(v) <==> (es.contains((root, v)) && is_transient_node(ns, v)) by {
            assert(children@.contains(v) <==> es.contains((root, v)));
        }
    }
    let mut j: usize = 0;
    while j < targets.len()
        invariant
            ns.len() == t,
            root < t,
            graph_nodes(graph) == ns.push(
                DepNode { description: NodeDescription::Transient, size: 0 },
            ),
            graph_wf(ns, es),
            ns.len() + 1 < crate::graph::MAX_INDEX,
            es.len() + 1 < crate::graph::MAX_INDEX,
            graph_edges(graph).len() <= es.len() + 1,
            j <= targets@.len(),
            forall|v: usize| #[trigger]
                targets@.contains(v) <==> (es.contains((root, v)) && is_transient_node(ns, v)),
            forall|a: usize, b: usize| #[trigger]
                graph_edges(graph).contains((a, b)) <==> {
                    ||| es.contains((a, b)) && !(a == root && targets@.subrange(0, j as int).contains(b))
                    ||| a == root && b == t
                    ||| a == t && es.contains((root, b)) && targets@.subrange(0, j as int).contains(b)
                },
        decreases targets@.len() - j,
    {
        let v = targets[j];
        proof {
            assert(targets@.contains(v));
        }
        let ghost start = graph_edges(graph);
        let mut removed = false;
        loop
            invariant
                ns.len() == t,
                root < t,
                v < t,
                graph_nodes(graph) == ns.push(
                    DepNode { description: NodeDescription::Transient, size: 0 },
                ),
                graph_edges(graph).len() <= start.len(),
                removed ==> graph_edges(graph).len() < start.len(),
                removed ==> start.contains((root, v)),
                !removed ==> graph_edges(graph) == start,
                forall|x: (usize, usize)|
                    x != (root, v) ==> (#[trigger] graph_edges(graph).contains(x)
                        <==> start.contains(x)),
            ensures
                !graph_edges(graph).contains((root, v)),
                graph_edges(graph).len() <= start.len(),
                removed ==> graph_edges(graph).len() < start.len(),
                removed ==> start.contains((root, v)),
                !removed ==> graph_edges(graph) == start,
                forall|x: (usize, usize)|
                    x != (root, v) ==> (#[trigger] graph_edges(graph).contains(x)
                        <==> start.contains(x)),
            decreases graph_edges(graph).len(),
        {
            match find_edge(&graph, root, v) {
                Some(e) => {
                    let ghost cur = graph_edges(graph);
                    remove_edge(&mut graph, e);
                    proof {
                        assert(start.contains((root, v))) by {
                            if !removed {
                                assert(cur[e as int] == (root, v));
                            }
                        }
                        assert forall|x: (usize, usize)|
                            x != (root, v) implies (#[trigger] graph_edges(graph).contains(x)
                            <==> start.contains(x)) by {
                            lemma_swap_remove_contains(cur, e as int, x);
                        }
                    }
                    removed = true;
                },
                None => {
                    break ;
                },
            }
        }
        let ghost cur = graph_edges(graph);
        if removed {
            add_edge(&mut graph, t, v);
        }
        proof {
            let sub = targets@.subrange(0, j as int);
            let sub1 = targets@.subrange(0, j + 1);
            assert(sub1 =~= sub.push(v));
            let e2 = graph_edges(graph);
            assert forall|a: usize, b: usize| #[trigger]
                graph_edges(graph).contains((a, b)) <==> {
                    ||| es.contains((a, b)) && !(a == root && sub1.contains(b))
                    ||| a == root && b == t
                    ||| a == t && es.contains((root, b)) && sub1.contains(b)
                } by {
                if sub1.contains(b) && b != v {
                    let w = choose|w: int| 0 <= w < sub1.len() && sub1[w] == b;
                    assert(sub[w] == b);
                }
                if sub.contains(b) {
                    let w = choose|w: int| 0 <= w < sub.len() && sub[w] == b;
                    assert(sub1[w] == b);
                }
                if b == v {
                    assert(sub1[j as int] == v);
                }
                if (a, b) != (t, v) && removed {
                    lemma_push_contains(cur, (t, v), (a, b));
                }
                if (a, b) == (t, v) {
                    if removed {
                        assert(e2[e2.len() - 1] == (t, v));
                    } else {
                        assert(es.contains((root, v)));
                        if !sub.contains(v) {
                            assert(start.contains((root, v)));
                        }
                    }
                }
                if (a, b) == (root, v) && removed {
                    lemma_push_contains(cur, (t, v), (a, b));
                }
            }
        }
        j += 1;
    }
    proof {
        assert(targets@.subrange(0, j as int) =~= targets@);
        let e2 = graph_edges(graph);
        assert(merged_edges(ns, es, root, t, e2));
        lemma_merge_reach(ns, es, root, t, e2);
        let ns2 = ns.push(DepNode { description: NodeDescription::Transient, size: 0 });
        let reached_old = |v: usize| reaches(es, root, v);
        let reached_new = |v: usize| reaches(e2, root, v);
        crate::sums::lemma_sum_where_congruent(ns, reached_old, reached_new, t as int);
        crate::sums::lemma_sum_where_same_nodes(ns, ns2, reached_new, t as int);
        assert(reachable_total(ns2, e2, root) == sum_where(ns2, reached_new, t + 1));
        if no_incoming(es, root) {
            assert forall|a: usize| !#[trigger] e2.contains((a, root)) by {
                if e2.contains((a, root)) {
                    assert(es.contains((a, root)) || es.contains((root, root)));
                }
            }
            if acyclic(es) {
                lemma_merge_acyclic(ns, es, root, t, e2);
            }
        }
        assert forall|a: usize, b: usize| #[trigger] e2.contains((a, b)) <==> {
            ||| es.contains((a, b)) && !(a == root && is_transient_node(ns, b))
            ||| a == root && b == t
            ||| a == t && es.contains((root, b)) && is_transient_node(ns, b)
        } by {}
        let ns2 = graph_nodes(graph);
        assert forall|q: int| 0 <= q < e2.len() implies (#[trigger] e2[q]).0 < ns2.len() && e2[q].1 < ns2.len() by {
            assert(e2.contains((e2[q].0, e2[q].1)));
            if es.contains((e2[q].0, e2[q].1)) {
                let w = choose|w: int| 0 <= w < es.len() && es[w] == (e2[q].0, e2[q].1);
                assert(es[w].0 < ns.len());
            }
            if es.contains((root, e2[q].1)) {
                let w = choose|w: int| 0 <= w < es.len() && es[w] == (root, e2[q].1);
                assert(es[w].1 < ns.len());
            }
        }
        lemma_total_push_zero(ns);
    }
    DepInfos { graph, root, metadata }
}

} // verus!
