//! Condensation: the quotient of the graph by "reached by the same roots".
use crate::graph::{
    sum_where,
    is_walk, add_node, bfs_order, edge_at, edge_count, edges_in_range, graph_edges, graph_nodes,
    listed_total, lists_reachable, new_graph, node_at, node_count, reaches, replace_node,
    total_prefix, total_size, update_edge, DepGraph, };
use crate::hashing::{hash, hash_node, hash_spec, node_seed};
use crate::infos::{graph_wf, lemma_sum_where_bounded, DepInfos, Reachability, SizeMetadata};
use crate::model::DepNode;
use crate::sums::{lemma_distinct_below, lemma_listed_is_sum_where, lemma_sum_where_congruent};
use std::collections::BTreeMap;
use vstd::prelude::*;

verus! {

broadcast use vstd::std_specs::btree::group_btree_axioms, vstd::laws_cmp::group_laws_cmp;

/// The label of `v` once the first `k` roots of `rts` are mixed in: each root that
/// reaches `v` is hashed into it, in the order of `rts`.
pub open spec fn label(
    seed: u128,
    rts: Seq<usize>,
    es: Seq<(usize, usize)>,
    v: usize,
    k: int,
) -> u128
    decreases k,
{
    if k <= 0 {
        seed
    } else {
        let s = label(seed, rts, es, v, k - 1);
        if reaches(es, rts[k - 1], v) {
            s ^ hash_spec(s, rts[k - 1] as u64)
        } else {
            s
        }
    }
}

/// Nodes reached by the same roots among the first `k` of `rts` get the same label.
pub proof fn lemma_label_same(
    seed: u128,
    rts: Seq<usize>,
    es: Seq<(usize, usize)>,
    u: usize,
    v: usize,
    k: int,
)
    requires
        k <= rts.len(),
        forall|j: int| 0 <= j < k ==> (reaches(es, #[trigger] rts[j], u) <==> reaches(es, rts[j], v)),
    ensures
        label(seed, rts, es, u, k) == label(seed, rts, es, v, k),
    decreases k,
{
    if k > 0 {
        lemma_label_same(seed, rts, es, u, v, k - 1);
    }
}

/// A node that none of the first `k` roots reaches keeps the seed as its label.
pub proof fn lemma_label_seed(seed: u128, rts: Seq<usize>, es: Seq<(usize, usize)>, v: usize, k: int)
    requires
        k <= rts.len(),
        forall|j: int| 0 <= j < k ==> !reaches(es, #[trigger] rts[j], v),
    ensures
        label(seed, rts, es, v, k) == seed,
    decreases k,
{
    if k > 0 {
        lemma_label_seed(seed, rts, es, v, k - 1);
    }
}

/// Relies on petgraph's `Graph::neighbors`, as `DepInfos::roots` does.
fn neighbors_of_root(g: &DepGraph, root: usize) -> (r: Vec<usize>)
    requires
        edges_in_range(graph_edges(*g), graph_nodes(*g).len() as int),
    ensures
        forall|v: usize| #[trigger] r@.contains(v) <==> graph_edges(*g).contains((root, v)),
        forall|i: int| 0 <= i < r@.len() ==> #[trigger] r@[i] < graph_nodes(*g).len(),
{
    let r = crate::graph::neighbors(g, root);
    proof {
        assert forall|i: int| 0 <= i < r@.len() implies #[trigger] r@[i] < graph_nodes(*g).len() by {
            assert(r@.contains(r@[i]));
            let es = graph_edges(*g);
            let w = choose|w: int| 0 <= w < es.len() && es[w] == (root, r@[i]);
            assert(es[w].1 < graph_nodes(*g).len());
        }
    }
    r
}

/// Labels every node with the hash of the set of children of `root` that reach it.
fn root_labels(g: &DepGraph, root: usize, rts: &Vec<usize>, seed: u128) -> (r: Vec<u128>)
    requires
        graph_wf(graph_nodes(*g), graph_edges(*g)),
        root < graph_nodes(*g).len(),
        forall|i: int| 0 <= i < rts@.len() ==> #[trigger] rts@[i] < graph_nodes(*g).len(),
    ensures
        r@.len() == graph_nodes(*g).len(),
        forall|v: int|
            0 <= v < r@.len() ==> #[trigger] r@[v] == label(
                seed,
                rts@,
                graph_edges(*g),
                v as usize,
                rts@.len() as int,
            ),
{
    let ghost es = graph_edges(*g);
    let n = node_count(g);
    let mut classes: Vec<u128> = Vec::new();
    let mut i: usize = 0;
    while i < n
        invariant
            i <= n,
            classes@.len() == i,
            forall|v: int| 0 <= v < i ==> #[trigger] classes@[v] == seed,
        decreases n - i,
    {
        classes.push(seed);
        i += 1;
    }
    let mut k: usize = 0;
    while k < rts.len()
        invariant
            n == graph_nodes(*g).len(),
            graph_wf(graph_nodes(*g), es),
            es == graph_edges(*g),
            forall|i: int| 0 <= i < rts@.len() ==> #[trigger] rts@[i] < n,
            k <= rts@.len(),
            classes@.len() == n,
            forall|v: int|
                0 <= v < n ==> #[trigger] classes@[v] == label(seed, rts@, es, v as usize, k as int),
        decreases rts@.len() - k,
    {
        let r = rts[k];
        proof {
            assert(rts@[k as int] < n);
        }
        let order = bfs_order(g, r);
        let mut q: usize = 0;
        while q < order.len()
            invariant
                n == graph_nodes(*g).len(),
                es == graph_edges(*g),
                r == rts@[k as int],
                k < rts@.len(),
                lists_reachable(es, n as int, r, order@),
                q <= order@.len(),
                classes@.len() == n,
                forall|v: int|
                    0 <= v < n ==> #[trigger] classes@[v] == if (exists|w: int|
                        0 <= w < q && #[trigger] order@[w] == v as usize) {
                        label(seed, rts@, es, v as usize, k + 1)
                    } else {
                        label(seed, rts@, es, v as usize, k as int)
                    },
            decreases order@.len() - q,
        {
            let v = order[q];
            proof {
                assert(order@.contains(v));
                assert(order@[q as int] < n);
            }
            let c = classes[v];
            classes.set(v, c ^ hash(c, r as u64));
            proof {
                assert forall|x: int| 0 <= x < n implies #[trigger] classes@[x] == if (exists|w: int|
                    0 <= w < q + 1 && #[trigger] order@[w] == x as usize) {
                    label(seed, rts@, es, x as usize, k + 1)
                } else {
                    label(seed, rts@, es, x as usize, k as int)
                } by {
                    if x == v {
                        assert(order@[q as int] == x as usize);
                        assert(!(exists|w: int| 0 <= w < q && #[trigger] order@[w] == x as usize))
                            by {
                            if exists|w: int| 0 <= w < q && #[trigger] order@[w] == x as usize {
                                let w = choose|w: int| 0 <= w < q && #[trigger] order@[w] == x as usize;
                                assert(order@[w] == order@[q as int]);
                            }
                        }
                        assert(reaches(es, r, v));
                    } else {
                        if exists|w: int| 0 <= w < q + 1 && #[trigger] order@[w] == x as usize {
                            let w = choose|w: int| 0 <= w < q + 1 && #[trigger] order@[w] == x as usize;
                            assert(w != q);
                        }
                    }
                }
            }
            q += 1;
        }
        proof {
            assert forall|v: int|
                0 <= v < n implies #[trigger] classes@[v] == label(seed, rts@, es, v as usize, k + 1) by {
                if exists|w: int| 0 <= w < q && #[trigger] order@[w] == v as usize {
                    let w = choose|w: int| 0 <= w < q && #[trigger] order@[w] == v as usize;
                    assert(order@.contains(v as usize));
                } else {
                    if reaches(es, r, v as usize) {
                        assert(order@.contains(v as usize));
                        let w = choose|w: int| 0 <= w < order@.len() && order@[w] == v as usize;
                        assert(order@[w] == v as usize);
                    }
                }
            }
        }
        k += 1;
    }
    classes
}

/// No edge ends at `root`.
pub open spec fn no_incoming(es: Seq<(usize, usize)>, root: usize) -> bool {
    forall|a: usize| !#[trigger] es.contains((a, root))
}

pub proof fn lemma_reach_step(es: Seq<(usize, usize)>, a: usize, b: usize, v: usize)
    requires
        es.contains((a, b)),
        reaches(es, b, v),
    ensures
        reaches(es, a, v),
{
    crate::paths::lemma_reach_edge(es, a, b);
    crate::paths::lemma_reach_trans(es, a, b, v);
}

/// Only `root` itself reaches a root with no incoming edge.
pub proof fn lemma_reach_no_incoming(es: Seq<(usize, usize)>, root: usize, u: usize)
    requires
        no_incoming(es, root),
        reaches(es, u, root),
    ensures
        u == root,
{
    let p = choose|p: Seq<usize>| #[trigger] is_walk(es, p) && p[0] == u && p.last() == root;
    if p.len() > 1 {
        assert(es.contains((p[p.len() - 2], p[p.len() - 2 + 1])));
    }
}

pub proof fn lemma_total_push(ns: Seq<DepNode>, x: DepNode)
    ensures
        total_size(ns.push(x)) == total_size(ns) + x.size,
{
    crate::reduction::lemma_total_prefix_same(ns, ns.push(x), ns.len() as int);
}

pub proof fn lemma_total_update(ns: Seq<DepNode>, j: int, x: DepNode, k: int)
    requires
        0 <= j < ns.len(),
        0 <= k <= ns.len(),
    ensures
        total_prefix(ns.update(j, x), k) == total_prefix(ns, k) + if j < k {
            x.size - ns[j].size
        } else {
            0
        },
    decreases k,
{
    if k > 0 {
        lemma_total_update(ns, j, x, k - 1);
    }
}

pub proof fn lemma_elem_le_total(ns: Seq<DepNode>, j: int, k: int)
    requires
        0 <= j < k <= ns.len(),
    ensures
        ns[j].size <= total_prefix(ns, k),
        total_prefix(ns, j) + ns[j].size <= total_prefix(ns, k),
    decreases k,
{
    if j < k - 1 {
        lemma_elem_le_total(ns, j, k - 1);
    } else {
        crate::infos::lemma_total_prefix_monotone(ns, 0, j);
    }
}

pub proof fn lemma_listed_monotone(ns: Seq<DepNode>, o: Seq<usize>, a: int, b: int)
    requires
        0 <= a <= b <= o.len(),
    ensures
        listed_total(ns, o, a) <= listed_total(ns, o, b),
    decreases b - a,
{
    if a < b {
        lemma_listed_monotone(ns, o, a, b - 1);
    }
}

fn lookup(m: &BTreeMap<u128, usize>, k: u128) -> (r: Option<usize>)
    ensures
        r == if m@.contains_key(k) {
            Some(m@[k])
        } else {
            None::<usize>
        },
{
    match m.get(&k) {
        Some(v) => Some(*v),
        None => None,
    }
}

/// How the nodes of a graph map to the classes of its condensation.
pub open spec fn class_edges(
    es: Seq<(usize, usize)>,
    root: usize,
    cls: Seq<usize>,
    root2: usize,
    es2: Seq<(usize, usize)>,
    upto: int,
) -> bool {
    forall|x: usize, y: usize| #[trigger]
        es2.contains((x, y)) <==> exists|k: int|
            0 <= k < upto && cls[#[trigger] es[k].0 as int] == x && cls[es[k].1 as int] == y && x
                != y && !(x == root2 && es[k].0 != root)
}

/// `r` is the condensation of `di`, with labels built from `seed` and the children
/// `rts` of the root: node `v` of `di` falls in class `cls[v]` of `r`.
pub open spec fn condensed_by(di: DepInfos, r: DepInfos, seed: u128, rts: Seq<usize>, cls: Seq<usize>) -> bool {
    &&& seed == node_seed(di.nodes(), di.nodes().len() as int)
    &&& forall|c: usize| #[trigger] rts.contains(c) <==> di.edges().contains((di.root, c))
    &&& cls.len() == di.nodes().len()
    &&& forall|v: int| 0 <= v < cls.len() ==> #[trigger] cls[v] < r.nodes().len()
    &&& cls[di.root as int] == r.root
    &&& forall|u: int, v: int|
        0 <= u < cls.len() && 0 <= v < cls.len() ==> (#[trigger] cls[u] == #[trigger] cls[v]
            <==> label(seed, rts, di.edges(), u as usize, rts.len() as int) == label(
            seed,
            rts,
            di.edges(),
            v as usize,
            rts.len() as int,
        ))
    &&& class_edges(di.edges(), di.root, cls, r.root, r.edges(), di.edges().len() as int)
    &&& forall|j: int| 0 <= j < r.nodes().len() ==> #[trigger] class_reached(di, cls, j)
    &&& total_size(r.nodes()) == di.reachable_size_spec()
}

/// Class `j` holds a node that the root reaches.
pub open spec fn class_reached(di: DepInfos, cls: Seq<usize>, j: int) -> bool {
    exists|v: usize| v < cls.len() && reaches(di.edges(), di.root, v) && #[trigger] cls[v as int] == j
}

/// Sum of the sizes of those of the first `k` nodes listed in `o` labelled `key`.
pub open spec fn class_sum(ns: Seq<DepNode>, o: Seq<usize>, lab: Seq<u128>, key: u128, k: int) -> int
    decreases k,
{
    if k <= 0 {
        0
    } else {
        class_sum(ns, o, lab, key, k - 1) + if lab[o[k - 1] as int] == key {
            ns[o[k - 1] as int].size as int
        } else {
            0
        }
    }
}

/// Position `w` of `o` is the first one labelled `key`.
pub open spec fn first_labelled(o: Seq<usize>, lab: Seq<u128>, key: u128, w: int) -> bool {
    &&& 0 <= w < o.len()
    &&& lab[o[w] as int] == key
    &&& forall|x: int| 0 <= x < w ==> lab[#[trigger] o[x] as int] != key
}

proof fn lemma_class_sum_none(ns: Seq<DepNode>, o: Seq<usize>, lab: Seq<u128>, key: u128, k: int)
    requires
        forall|w: int| 0 <= w < k ==> lab[#[trigger] o[w] as int] != key,
    ensures
        class_sum(ns, o, lab, key, k) == 0,
    decreases k,
{
    if k > 0 {
        lemma_class_sum_none(ns, o, lab, key, k - 1);
    }
}

/// Class `j` holds one of the nodes listed in `o`.
pub open spec fn has_member(ids: Map<u128, usize>, classes: Seq<u128>, o: Seq<usize>, j: int) -> bool {
    exists|w: int|
        0 <= w < o.len() && ids.contains_key(classes[#[trigger] o[w] as int]) && ids[classes[o[w] as int]]
            == j as usize
}

/// Gathers the nodes met by a search from `root`, in the order of `bfs`, into one
/// node per label; the first member met lends its weight, the others their sizes.
fn group_classes(
    graph: &mut DepGraph,
    root: usize,
    bfs: &Vec<usize>,
    classes: &Vec<u128>,
) -> (r: (BTreeMap<u128, usize>, DepGraph))
    requires
        graph_wf(graph_nodes(*old(graph)), graph_edges(*old(graph))),
        root < graph_nodes(*old(graph)).len(),
        lists_reachable(graph_edges(*old(graph)), graph_nodes(*old(graph)).len() as int, root, bfs@),
        bfs@.len() > 0 && bfs@[0] == root,
        classes@.len() == graph_nodes(*old(graph)).len(),
    ensures
        graph_edges(*final(graph)) == graph_edges(*old(graph)),
        graph_nodes(*final(graph)).len() == graph_nodes(*old(graph)).len(),
        graph_edges(r.1) == Seq::<(usize, usize)>::empty(),
        graph_nodes(r.1).len() <= bfs@.len(),
        forall|key: u128| #[trigger] r.0@.contains_key(key) ==> r.0@[key] < graph_nodes(r.1).len(),
        forall|k1: u128, k2: u128|
            #[trigger] r.0@.contains_key(k1) && #[trigger] r.0@.contains_key(k2) && r.0@[k1] == r.0@[k2]
                ==> k1 == k2,
        forall|w: int| 0 <= w < bfs@.len() ==> r.0@.contains_key(#[trigger] classes@[bfs@[w] as int]),
        total_size(graph_nodes(r.1)) == listed_total(graph_nodes(*old(graph)), bfs@, bfs@.len() as int),
        r.0@.contains_key(classes@[root as int]) && r.0@[classes@[root as int]] == 0,
        graph_nodes(r.1)[0].description == graph_nodes(*old(graph))[root as int].description,
        forall|j: int| 0 <= j < graph_nodes(r.1).len() ==> #[trigger] has_member(r.0@, classes@, bfs@, j),
        forall|key: u128| #[trigger] r.0@.contains_key(key) ==> graph_nodes(r.1)[r.0@[key] as int].size
            == class_sum(graph_nodes(*old(graph)), bfs@, classes@, key, bfs@.len() as int),
        forall|key: u128| #[trigger] r.0@.contains_key(key) ==> exists|w: int|
            #[trigger] first_labelled(bfs@, classes@, key, w) && graph_nodes(r.1)[r.0@[key] as int].description
                == graph_nodes(*old(graph))[bfs@[w] as int].description,
{
    let ghost ns = graph_nodes(*graph);
    let ghost es = graph_edges(*graph);
    let ghost o = bfs@;
    let n = node_count(graph);
    proof {
        lemma_distinct_below(o, n as int);
        lemma_listed_is_sum_where(ns, o, n as int);
        lemma_sum_where_bounded(ns, |v: usize| o.contains(v), n as int);
        lemma_listed_monotone(ns, o, 0, o.len() as int);
    }
    let mut new_ids: BTreeMap<u128, usize> = BTreeMap::new();
    let mut ng = new_graph();
    let mut i: usize = 0;
    while i < bfs.len()
        invariant
            n == ns.len(),
            graph_wf(ns, es),
            lists_reachable(es, n as int, root, o),
            o == bfs@,
            o.len() <= n,
            o.len() > 0 && o[0] == root,
            listed_total(ns, o, o.len() as int) <= u64::MAX,
            i <= o.len(),
            classes@.len() == n,
            graph_edges(*graph) == es,
            graph_nodes(*graph).len() == n,
            forall|w: int| i <= w < o.len() ==> #[trigger] graph_nodes(*graph)[o[w] as int] == ns[o[w] as int],
            graph_edges(ng) == Seq::<(usize, usize)>::empty(),
            graph_nodes(ng).len() <= i,
            forall|key: u128| #[trigger] new_ids@.contains_key(key) ==> new_ids@[key] < graph_nodes(ng).len(),
            forall|j: int| 0 <= j < graph_nodes(ng).len() ==> #[trigger] has_member(new_ids@, classes@, o.subrange(0, i as int), j),
            forall|k1: u128, k2: u128|
                #[trigger] new_ids@.contains_key(k1) && #[trigger] new_ids@.contains_key(k2) && new_ids@[k1]
                    == new_ids@[k2] ==> k1 == k2,
            forall|w: int| 0 <= w < i ==> new_ids@.contains_key(#[trigger] classes@[o[w] as int]),
            total_size(graph_nodes(ng)) == listed_total(ns, o, i as int),
            i >= 1 ==> new_ids@.contains_key(classes@[root as int]) && new_ids@[classes@[root as int]] == 0
                && graph_nodes(ng)[0].description == ns[root as int].description,
            forall|key: u128| #[trigger] new_ids@.contains_key(key) ==> graph_nodes(ng)[new_ids@[key] as int].size
                == class_sum(ns, o, classes@, key, i as int),
            forall|key: u128| #[trigger] new_ids@.contains_key(key) ==> exists|w: int|
                w < i && #[trigger] first_labelled(o, classes@, key, w) && graph_nodes(ng)[new_ids@[key] as int].description
                    == ns[o[w] as int].description,
        decreases o.len() - i,
    {
        let idx = bfs[i];
        proof {
            lemma_listed_monotone(ns, o, i + 1, o.len() as int);
            assert(o[i as int] < n);
        }
        let key = classes[idx];
        let s = node_at(graph, idx).size;
        let ghost before = graph_nodes(ng);
        let ghost old_ids = new_ids@;
        match lookup(&new_ids, key) {
            Some(id) => {
                let mut w = replace_node(&mut ng, id, DepNode::dummy());
                proof {
                    lemma_elem_le_total(before, id as int, before.len() as int);
                }
                w.size = w.size + s;
                let _ = replace_node(&mut ng, id, w);
                proof {
                    assert(graph_nodes(ng) == before.update(id as int, w));
                    lemma_total_update(before, id as int, w, before.len() as int);
                }
            },
            None => {
                let w = replace_node(graph, idx, DepNode::dummy());
                let id = add_node(&mut ng, w);
                new_ids.insert(key, id);
                proof {
                    lemma_total_push(before, w);
                }
            },
        }
        proof {
            assert forall|k2: u128| #[trigger] new_ids@.contains_key(k2) implies graph_nodes(ng)[new_ids@[k2] as int].size
                == class_sum(ns, o, classes@, k2, i + 1) by {
                if k2 != key {
                    assert(old_ids.contains_key(k2));
                    assert(new_ids@[k2] != new_ids@[key]);
                } else if !old_ids.contains_key(key) {
                    lemma_class_sum_none(ns, o, classes@, key, i as int);
                }
            }
            assert forall|k2: u128| #[trigger] new_ids@.contains_key(k2) implies exists|w: int|
                w < i + 1 && #[trigger] first_labelled(o, classes@, k2, w) && graph_nodes(ng)[new_ids@[k2] as int].description
                    == ns[o[w] as int].description by {
                if old_ids.contains_key(k2) {
                    let w = choose|w: int|
                        w < i && #[trigger] first_labelled(o, classes@, k2, w) && before[old_ids[k2] as int].description
                            == ns[o[w] as int].description;
                    if k2 != key {
                        assert(new_ids@[k2] != new_ids@[key]);
                    }
                    assert(first_labelled(o, classes@, k2, w));
                } else {
                    assert(k2 == key);
                    assert forall|x: int| 0 <= x < i implies classes@[#[trigger] o[x] as int] != key by {
                        assert(old_ids.contains_key(classes@[o[x] as int]));
                    }
                    assert(first_labelled(o, classes@, key, i as int));
                }
            }
            assert forall|j: int| 0 <= j < graph_nodes(ng).len() implies #[trigger] has_member(new_ids@, classes@, o.subrange(0, i + 1), j) by {
                if j < before.len() {
                    assert(has_member(old_ids, classes@, o.subrange(0, i as int), j));
                    let w = choose|w: int| 0 <= w < i
                        && old_ids.contains_key(classes@[#[trigger] o.subrange(0, i as int)[w] as int])
                        && old_ids[classes@[o.subrange(0, i as int)[w] as int]] == j as usize;
                    assert(o.subrange(0, i + 1)[w] == o.subrange(0, i as int)[w]);
                    assert(new_ids@.contains_key(classes@[o[w] as int]));
                } else {
                    assert(o.subrange(0, i + 1)[i as int] == idx);
                }
            }
            assert forall|w: int| i + 1 <= w < o.len() implies #[trigger] graph_nodes(*graph)[o[w] as int]
                == ns[o[w] as int] by {
                assert(o[w] != o[i as int]);
            }
            if i == 0 {
                assert(idx == root);
            }
        }
        i += 1;
    }
    proof {
        assert(o.subrange(0, o.len() as int) =~= o);
    }
    (new_ids, ng)
}

/// Computes the condensation of the graph: one node per set of children of the root
/// reaching it (told apart by a 128-bit hash of the set), holding the summed size of
/// its members, the weight of the member that a breadth-first search from the root
/// meets first, and an edge wherever an edge of the graph joins two classes.
pub fn condense(di: DepInfos) -> (r: DepInfos)
    requires
        di.wf(),
        no_incoming(di.edges(), di.root),
    ensures
        r.wf(),
        total_size(r.nodes()) == di.reachable_size_spec(),
        r.nodes()[r.root as int].description == di.nodes()[di.root as int].description,
        r.metadata == (SizeMetadata { reachable: Reachability::Connected, ..di.metadata }),
        exists|seed: u128, rts: Seq<usize>, cls: Seq<usize>, o: Seq<usize>|
            #![trigger condensed_by(di, r, seed, rts, cls), classes_from(di, r, cls, o)]
            condensed_by(di, r, seed, rts, cls) && classes_from(di, r, cls, o),
{
    let ghost ns = di.nodes();
    let ghost es = di.edges();
    let DepInfos { graph: mut graph, root, metadata } = di;
    let n = node_count(&graph);
    let mut seed: u128 = 0;
    let mut i: usize = 0;
    while i < n
        invariant
            n == graph_nodes(graph).len(),
            graph_nodes(graph) == ns,
            i <= n,
            seed == node_seed(ns, i as int),
        decreases n - i,
    {
        seed = hash_node(seed, node_at(&graph, i));
        i += 1;
    }
    let rts = neighbors_of_root(&graph, root);
    let classes = root_labels(&graph, root, &rts, seed);
    let ghost lab = |v: usize| label(seed, rts@, es, v, rts@.len() as int);
    let bfs = bfs_order(&graph, root);
    let ghost o = bfs@;
    proof {
        lemma_distinct_below(o, n as int);
        lemma_listed_is_sum_where(ns, o, n as int);
    }
    let (new_ids, mut ng) = group_classes(&mut graph, root, &bfs, &classes);
    let ghost ng_nodes = graph_nodes(ng);
    proof {
        lemma_sum_where_bounded(ns, |v: usize| o.contains(v), n as int);
    }
    let m = node_count(&ng);
    // every node falls in a class: the reachable ones were met by the search, and
    // the others are reached by no child of the root, like the root itself
    proof {
        assert forall|v: int| 0 <= v < n implies new_ids@.contains_key(#[trigger] classes@[v]) by {
            if reaches(es, root, v as usize) {
                assert(o.contains(v as usize));
                let w = choose|w: int| 0 <= w < o.len() && o[w] == v as usize;
                assert(new_ids@.contains_key(classes@[o[w] as int]));
            } else {
                assert forall|j: int| 0 <= j < rts@.len() implies !reaches(es, #[trigger] rts@[j], v as usize) by {
                    assert(rts@.contains(rts@[j]));
                    if reaches(es, rts@[j], v as usize) {
                        lemma_reach_step(es, root, rts@[j], v as usize);
                    }
                }
                lemma_label_seed(seed, rts@, es, v as usize, rts@.len() as int);
                assert forall|j: int| 0 <= j < rts@.len() implies !reaches(es, #[trigger] rts@[j], root) by {
                    if reaches(es, rts@[j], root) {
                        lemma_reach_no_incoming(es, root, rts@[j]);
                        assert(rts@.contains(rts@[j]));
                    }
                }
                lemma_label_seed(seed, rts@, es, root, rts@.len() as int);
            }
        }
    }
    let ghost cls = Seq::new(n as nat, |v: int| new_ids@[classes@[v]]);
    let new_root = match lookup(&new_ids, classes[root]) {
        Some(x) => x,
        None => 0,
    };
    let ecount = edge_count(&graph);
    let mut k: usize = 0;
    while k < ecount
        invariant
            ecount == es.len(),
            graph_wf(ns, es),
            graph_edges(graph) == es,
            n == ns.len(),
            classes@.len() == n,
            cls.len() == n,
            forall|v: int| 0 <= v < n ==> #[trigger] cls[v] == new_ids@[classes@[v]],
            forall|v: int| 0 <= v < n ==> new_ids@.contains_key(#[trigger] classes@[v]),
            forall|key: u128| #[trigger] new_ids@.contains_key(key) ==> new_ids@[key] < m,
            m == graph_nodes(ng).len(),
            graph_nodes(ng) == ng_nodes,
            m <= n,
            new_root == cls[root as int],
            root < n,
            k <= ecount,
            graph_edges(ng).len() <= k,
            class_edges(es, root, cls, new_root, graph_edges(ng), k as int),
            graph_edges(ng).no_duplicates(),
        decreases ecount - k,
    {
        let (a, b) = edge_at(&graph, k);
        let ghost before = graph_edges(ng);
        proof {
            assert(es[k as int].0 < n && es[k as int].1 < n);
        }
        let from = match lookup(&new_ids, classes[a]) {
            Some(x) => x,
            None => 0,
        };
        let to = match lookup(&new_ids, classes[b]) {
            Some(x) => x,
            None => 0,
        };
        let ghost eb = graph_edges(ng);
        if !(from == new_root && a != root) && from != to {
            update_edge(&mut ng, from, to);
        }
        proof {
            if graph_edges(ng) != eb {
                let e2 = graph_edges(ng);
                assert(!eb.contains((from, to)));
                assert forall|x: int, y: int| 0 <= x < y < e2.len() implies e2[x] != e2[y] by {
                    if y == e2.len() - 1 {
                        assert(e2[x] == eb[x]);
                    }
                }
            }
            assert forall|x: usize, y: usize| #[trigger]
                graph_edges(ng).contains((x, y)) <==> exists|kk: int|
                    0 <= kk < k + 1 && cls[#[trigger] es[kk].0 as int] == x && cls[es[kk].1 as int] == y
                        && x != y && !(x == new_root && es[kk].0 != root) by {
                let e2 = graph_edges(ng);
                if e2.contains((x, y)) && !before.contains((x, y)) {
                    if !before.contains((from, to)) {
                        let w = choose|w: int| 0 <= w < e2.len() && e2[w] == (x, y);
                        if w < before.len() {
                            assert(before[w] == (x, y));
                        }
                    }
                    assert((x, y) == (from, to));
                    assert(cls[es[k as int].0 as int] == x);
                }
                if before.contains((x, y)) {
                    let w = choose|w: int| 0 <= w < before.len() && before[w] == (x, y);
                    if !(!(from == new_root && a != root) && from != to) {
                        assert(e2 == before);
                    } else if !before.contains((from, to)) {
                        assert(e2[w] == (x, y));
                    }
                }
                if exists|kk: int|
                    0 <= kk < k + 1 && cls[#[trigger] es[kk].0 as int] == x && cls[es[kk].1 as int] == y
                        && x != y && !(x == new_root && es[kk].0 != root) {
                    let kk = choose|kk: int|
                        0 <= kk < k + 1 && cls[#[trigger] es[kk].0 as int] == x && cls[es[kk].1 as int] == y
                            && x != y && !(x == new_root && es[kk].0 != root);
                    if kk < k {
                        assert(before.contains((x, y)));
                        let w = choose|w: int| 0 <= w < before.len() && before[w] == (x, y);
                        if !(!(from == new_root && a != root) && from != to) {
                            assert(e2 == before);
                        } else if !before.contains((from, to)) {
                            assert(e2[w] == (x, y));
                        }
                    } else {
                        assert((x, y) == (from, to));
                        if !before.contains((from, to)) {
                            assert(e2[e2.len() - 1] == (x, y));
                        }
                    }
                }
            }
        }
        k += 1;
    }
    let r = DepInfos {
        graph: ng,
        root: new_root,
        metadata: SizeMetadata { reachable: Reachability::Connected, ..metadata },
    };
    proof {
        let es2 = graph_edges(r.graph);
        assert forall|q: int| 0 <= q < es2.len() implies (#[trigger] es2[q]).0 < m && es2[q].1 < m by {
            assert(es2.contains((es2[q].0, es2[q].1)));
            let kk = choose|kk: int|
                0 <= kk < ecount && cls[#[trigger] es[kk].0 as int] == es2[q].0 && cls[es[kk].1 as int] == es2[q].1
                    && es2[q].0 != es2[q].1 && !(es2[q].0 == new_root && es[kk].0 != root);
            assert(es[kk].0 < n && es[kk].1 < n);
        }
        lemma_sum_where_congruent(ns, |v: usize| o.contains(v), |v: usize| reaches(es, root, v), n as int);
        assert(total_size(r.nodes()) == listed_total(ns, o, o.len() as int));
        assert forall|u: int, v: int|
            0 <= u < cls.len() && 0 <= v < cls.len() implies (#[trigger] cls[u] == #[trigger] cls[v]
                <==> label(seed, rts@, es, u as usize, rts@.len() as int) == label(
                seed,
                rts@,
                es,
                v as usize,
                rts@.len() as int,
            )) by {
            assert(new_ids@.contains_key(classes@[u]));
            assert(new_ids@.contains_key(classes@[v]));
        }
        assert(class_edges(es, root, cls, r.root, r.edges(), es.len() as int));
        assert forall|j: int| 0 <= j < r.nodes().len() implies #[trigger] class_reached(di, cls, j) by {
            assert(has_member(new_ids@, classes@, o, j));
            let w = choose|w: int| 0 <= w < o.len() && new_ids@.contains_key(classes@[#[trigger] o[w] as int])
                && new_ids@[classes@[o[w] as int]] == j as usize;
            assert(o.contains(o[w]));
            assert(cls[o[w] as int] == j);
        }
        assert(condensed_by(di, r, seed, rts@, cls));
        assert forall|j: int| 0 <= j < r.nodes().len() implies #[trigger] class_weight(di, r, cls, o, j) by {
            assert(has_member(new_ids@, classes@, o, j));
            let w0 = choose|w: int| 0 <= w < o.len() && new_ids@.contains_key(classes@[#[trigger] o[w] as int])
                && new_ids@[classes@[o[w] as int]] == j as usize;
            let key = classes@[o[w0] as int];
            lemma_class_sum_is_sum_where(ns, o, classes@, key, n as int);
            assert forall|v: usize| v < n implies #[trigger] in_class(di, cls, j)(v) == (o.contains(v) && classes@[v as int] == key) by {
                assert(new_ids@.contains_key(classes@[v as int]));
            }
            lemma_sum_where_congruent(ns, in_class(di, cls, j), |v: usize| o.contains(v) && classes@[v as int] == key, n as int);
            let w = choose|w: int|
                #[trigger] first_labelled(o, classes@, key, w) && graph_nodes(ng)[new_ids@[key] as int].description
                    == ns[o[w] as int].description;
            assert forall|x: int| 0 <= x < w implies cls[#[trigger] o[x] as int] != j by {
                assert(classes@[o[x] as int] != key);
                assert(new_ids@.contains_key(classes@[o[x] as int]));
            }
        }
        assert(classes_from(di, r, cls, o));
    }
    r
}

/// The members of class `j` that the root reaches.
pub open spec fn in_class(di: DepInfos, cls: Seq<usize>, j: int) -> spec_fn(usize) -> bool {
    |v: usize| reaches(di.edges(), di.root, v) && v < cls.len() && cls[v as int] == j
}

/// Class `j` of `r` weighs what its members reached from the root weigh, and carries
/// the description of the member first met in `o`.
pub open spec fn class_weight(di: DepInfos, r: DepInfos, cls: Seq<usize>, o: Seq<usize>, j: int) -> bool {
    &&& r.nodes()[j].size == sum_where(di.nodes(), in_class(di, cls, j), di.nodes().len() as int)
    &&& exists|w: int|
        0 <= w < o.len() && cls[o[w] as int] == j && (forall|x: int| 0 <= x < w ==> cls[#[trigger] o[x] as int] != j)
            && r.nodes()[j].description == di.nodes()[o[w] as int].description
}

/// `o` is the order in which a breadth-first search from the root met the nodes;
/// each class of `r` is weighed and described from it, and `r` has no parallel
/// edges.
pub open spec fn classes_from(di: DepInfos, r: DepInfos, cls: Seq<usize>, o: Seq<usize>) -> bool {
    &&& lists_reachable(di.edges(), di.nodes().len() as int, di.root, o)
    &&& o.len() > 0 && o[0] == di.root
    &&& forall|j: int| 0 <= j < r.nodes().len() ==> #[trigger] class_weight(di, r, cls, o, j)
    &&& r.edges().no_duplicates()
}

proof fn lemma_class_sum_is_sum_where(ns: Seq<DepNode>, o: Seq<usize>, lab: Seq<u128>, key: u128, n: int)
    requires
        o.no_duplicates(),
        0 <= n <= ns.len(),
        n <= usize::MAX,
        lab.len() >= n,
        forall|i: int| 0 <= i < o.len() ==> #[trigger] o[i] < n,
    ensures
        class_sum(ns, o, lab, key, o.len() as int) == sum_where(
            ns,
            |v: usize| o.contains(v) && lab[v as int] == key,
            n,
        ),
{
    let ns2 = Seq::new(
        ns.len(),
        |v: int|
            if lab[v] == key {
                ns[v]
            } else {
                DepNode { description: ns[v].description, size: 0 }
            },
    );
    lemma_class_sum_zeroed(ns, ns2, o, lab, key, o.len() as int, n);
    lemma_listed_is_sum_where(ns2, o, n);
    lemma_sum_where_zeroed(ns, ns2, o, lab, key, n);
}

proof fn lemma_class_sum_zeroed(
    ns: Seq<DepNode>,
    ns2: Seq<DepNode>,
    o: Seq<usize>,
    lab: Seq<u128>,
    key: u128,
    k: int,
    n: int,
)
    requires
        0 <= k <= o.len(),
        n <= ns.len(),
        ns2.len() == ns.len(),
        lab.len() >= n,
        forall|i: int| 0 <= i < o.len() ==> #[trigger] o[i] < n,
        forall|v: int| 0 <= v < ns.len() ==> #[trigger] ns2[v].size == if lab[v] == key { ns[v].size } else { 0 },
    ensures
        class_sum(ns, o, lab, key, k) == listed_total(ns2, o, k),
    decreases k,
{
    if k > 0 {
        lemma_class_sum_zeroed(ns, ns2, o, lab, key, k - 1, n);
        assert(o[k - 1] < n);
    }
}

proof fn lemma_sum_where_zeroed(
    ns: Seq<DepNode>,
    ns2: Seq<DepNode>,
    o: Seq<usize>,
    lab: Seq<u128>,
    key: u128,
    k: int,
)
    requires
        0 <= k <= ns.len(),
        k <= usize::MAX,
        ns2.len() == ns.len(),
        lab.len() >= k,
        forall|v: int| 0 <= v < ns.len() ==> #[trigger] ns2[v].size == if lab[v] == key { ns[v].size } else { 0 },
    ensures
        sum_where(ns2, |v: usize| o.contains(v), k) == sum_where(
            ns,
            |v: usize| o.contains(v) && lab[v as int] == key,
            k,
        ),
    decreases k,
{
    if k > 0 {
        lemma_sum_where_zeroed(ns, ns2, o, lab, key, k - 1);
        assert(ns2[k - 1].size == if lab[k - 1] == key { ns[k - 1].size } else { 0 });
        assert(((k - 1) as usize) as int == k - 1);
    }
}

} // verus!
