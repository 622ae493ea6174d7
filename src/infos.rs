//! A rooted dependency graph together with the record of its sizes.
use crate::graph::{
    dfs_order, edges_in_range, graph_edges, graph_nodes, neighbors, node_at, node_count,
    reachable_total, reaches, sum_where, total_prefix, total_size, DepGraph, MAX_INDEX,
};
use crate::model::DepNode;
use vstd::prelude::*;

verus! {

/// Whether all nodes are reachable from the root.
#[derive(Debug, Clone, Copy, PartialEq, Eq, Structural)]
pub enum Reachability {
    Connected,
    Disconnected,
}

/// Whether sizes take hard-linked files into account.
#[derive(Debug, Clone, Copy, PartialEq, Eq, Structural)]
pub enum DedupAwareness {
    Aware,
    Unaware,
}

/// The totals recorded so far, by dedup awareness and then by reachability.
#[derive(Debug, Clone, Copy, PartialEq, Eq, Structural)]
pub struct SizeTable {
    pub aware_connected: Option<u64>,
    pub aware_disconnected: Option<u64>,
    pub unaware_connected: Option<u64>,
    pub unaware_disconnected: Option<u64>,
}

impl SizeTable {
    pub open spec fn entry(self, d: DedupAwareness, r: Reachability) -> Option<u64> {
        match (d, r) {
            (DedupAwareness::Aware, Reachability::Connected) => self.aware_connected,
            (DedupAwareness::Aware, Reachability::Disconnected) => self.aware_disconnected,
            (DedupAwareness::Unaware, Reachability::Connected) => self.unaware_connected,
            (DedupAwareness::Unaware, Reachability::Disconnected) => self.unaware_disconnected,
        }
    }

    /// A table with nothing recorded.
    pub fn empty() -> (r: SizeTable)
        ensures
            forall|d: DedupAwareness, x: Reachability| r.entry(d, x).is_none(),
    {
        SizeTable {
            aware_connected: None,
            aware_disconnected: None,
            unaware_connected: None,
            unaware_disconnected: None,
        }
    }

    pub fn get(&self, d: DedupAwareness, r: Reachability) -> (v: Option<u64>)
        ensures
            v == self.entry(d, r),
    {
        match (d, r) {
            (DedupAwareness::Aware, Reachability::Connected) => self.aware_connected,
            (DedupAwareness::Aware, Reachability::Disconnected) => self.aware_disconnected,
            (DedupAwareness::Unaware, Reachability::Connected) => self.unaware_connected,
            (DedupAwareness::Unaware, Reachability::Disconnected) => self.unaware_disconnected,
        }
    }

    pub fn set(&mut self, d: DedupAwareness, r: Reachability, v: Option<u64>)
        ensures
            final(self).entry(d, r) == v,
            forall|d2: DedupAwareness, r2: Reachability|
                (d2, r2) != (d, r) ==> final(self).entry(d2, r2) == old(self).entry(d2, r2),
    {
        match (d, r) {
            (DedupAwareness::Aware, Reachability::Connected) => self.aware_connected = v,
            (DedupAwareness::Aware, Reachability::Disconnected) => self.aware_disconnected = v,
            (DedupAwareness::Unaware, Reachability::Connected) => self.unaware_connected = v,
            (DedupAwareness::Unaware, Reachability::Disconnected) => self.unaware_disconnected = v,
        }
    }
}

/// What is known of a graph's sizes.
#[derive(Debug, Clone, Copy)]
pub struct SizeMetadata {
    pub reachable: Reachability,
    pub dedup: DedupAwareness,
    pub size: SizeTable,
}

/// A dependency graph with a distinguished root.
pub struct DepInfos {
    pub graph: DepGraph,
    pub root: usize,
    pub metadata: SizeMetadata,
}

/// A graph that the library can work on: indices fit, edges join nodes, and the sizes
/// of all nodes add up to a number of bytes that a `u64` holds.
pub open spec fn graph_wf(ns: Seq<DepNode>, es: Seq<(usize, usize)>) -> bool {
    &&& ns.len() < MAX_INDEX
    &&& es.len() < MAX_INDEX
    &&& edges_in_range(es, ns.len() as int)
    &&& total_size(ns) <= u64::MAX
}

impl DepInfos {
    pub open spec fn nodes(self) -> Seq<DepNode> {
        graph_nodes(self.graph)
    }

    pub open spec fn edges(self) -> Seq<(usize, usize)> {
        graph_edges(self.graph)
    }

    pub open spec fn wf(self) -> bool {
        &&& graph_wf(self.nodes(), self.edges())
        &&& self.root < self.nodes().len()
    }

    /// The graph can take `nodes` more nodes and `edges` more edges.
    pub open spec fn has_room(self, nodes: int, edges: int) -> bool {
        &&& self.nodes().len() + nodes < MAX_INDEX
        &&& self.edges().len() + edges < MAX_INDEX
    }

    /// Sum of the sizes of the nodes reachable from the root.
    pub open spec fn reachable_size_spec(self) -> int {
        reachable_total(self.nodes(), self.edges(), self.root)
    }

    /// Sum of the sizes of all nodes.
    pub open spec fn size_spec(self) -> int {
        total_size(self.nodes())
    }

    /// Every node is reachable from the root.
    pub open spec fn connected(self) -> bool {
        forall|v: usize| v < self.nodes().len() ==> #[trigger] reaches(self.edges(), self.root, v)
    }

    /// Returns the sum of the sizes of all the nodes reachable from the root.
    pub fn reachable_size(&self) -> (r: u64)
        requires
            self.wf(),
        ensures
            r == self.reachable_size_spec(),
    {
        let flags = reached_flags(&self.graph, self.root);
        let n = node_count(&self.graph);
        let ghost ns = self.nodes();
        let ghost es = self.edges();
        let ghost p = |v: usize| reaches(es, self.root, v);
        proof {
            lemma_sum_where_bounded(ns, p, n as int);
        }
        let mut sum: u64 = 0;
        let mut i: usize = 0;
        while i < n
            invariant
                n == ns.len(),
                ns == graph_nodes(self.graph),
                flags@.len() == n,
                forall|j: int| 0 <= j < n ==> flags@[j] == p(j as usize),
                i <= n,
                sum == sum_where(ns, p, i as int),
                sum_where(ns, p, n as int) <= total_size(ns),
                total_size(ns) <= u64::MAX,
            decreases n - i,
        {
            proof {
                lemma_sum_where_monotone(ns, p, i as int + 1, n as int);
            }
            if flags[i] {
                sum = sum + node_at(&self.graph, i).size;
            }
            i += 1;
        }
        sum
    }

    /// Returns the sum of the sizes of all the nodes.
    pub fn size(&self) -> (r: u64)
        requires
            self.wf(),
        ensures
            r == self.size_spec(),
    {
        let n = node_count(&self.graph);
        let ghost ns = self.nodes();
        let mut sum: u64 = 0;
        let mut i: usize = 0;
        while i < n
            invariant
                n == ns.len(),
                ns == graph_nodes(self.graph),
                i <= n,
                sum == total_prefix(ns, i as int),
                total_size(ns) <= u64::MAX,
            decreases n - i,
        {
            proof {
                lemma_total_prefix_monotone(ns, i as int + 1, n as int);
            }
            sum = sum + node_at(&self.graph, i).size;
            i += 1;
        }
        sum
    }

    /// Records the current sizes of the graph in its metadata, in the slots that
    /// apply and are still empty.
    pub fn record_metadata(&mut self)
        requires
            old(self).wf(),
        ensures
            final(self).graph == old(self).graph,
            final(self).root == old(self).root,
            final(self).metadata.reachable == old(self).metadata.reachable,
            final(self).metadata.dedup == old(self).metadata.dedup,
            ({
                let d = old(self).metadata.dedup;
                let t = old(self).metadata.size;
                let t2 = final(self).metadata.size;
                &&& t2.entry(d, Reachability::Connected) == if t.entry(
                    d,
                    Reachability::Connected,
                ).is_none() {
                    Some(old(self).reachable_size_spec() as u64)
                } else {
                    t.entry(d, Reachability::Connected)
                }
                &&& t2.entry(d, Reachability::Disconnected) == if old(self).metadata.reachable
                    == Reachability::Disconnected && t.entry(
                    d,
                    Reachability::Disconnected,
                ).is_none() {
                    Some(old(self).size_spec() as u64)
                } else {
                    t.entry(d, Reachability::Disconnected)
                }
                &&& forall|r: Reachability| #[trigger]
                    t2.entry(DedupAwareness::Aware, r) == t.entry(DedupAwareness::Aware, r)
                        || d == DedupAwareness::Aware
                &&& forall|r: Reachability| #[trigger]
                    t2.entry(DedupAwareness::Unaware, r) == t.entry(DedupAwareness::Unaware, r)
                        || d == DedupAwareness::Unaware
            }),
    {
        let dedup = self.metadata.dedup;
        if self.metadata.size.get(dedup, Reachability::Connected).is_none() {
            let s = self.reachable_size();
            self.metadata.size.set(dedup, Reachability::Connected, Some(s));
        }
        if self.metadata.reachable == Reachability::Disconnected && self.metadata.size.get(
            dedup,
            Reachability::Disconnected,
        ).is_none() {
            let s = self.size();
            self.metadata.size.set(dedup, Reachability::Disconnected, Some(s));
        }
    }

    /// The children of the root: the gc roots, or the direct references of the path
    /// that the analysis is restricted to.
    pub fn roots(&self) -> (r: Vec<usize>)
        ensures
            forall|v: usize| #[trigger] r@.contains(v) <==> self.edges().contains((self.root, v)),
            r@.len() <= self.edges().len(),
    {
        neighbors(&self.graph, self.root)
    }
}

/// For each node, whether `start` reaches it.
pub(crate) fn reached_flags(g: &DepGraph, start: usize) -> (r: Vec<bool>)
    requires
        start < graph_nodes(*g).len(),
        edges_in_range(graph_edges(*g), graph_nodes(*g).len() as int),
    ensures
        r@.len() == graph_nodes(*g).len(),
        forall|j: int|
            0 <= j < r@.len() ==> #[trigger] r@[j] == reaches(graph_edges(*g), start, j as usize),
{
    let order = dfs_order(g, start);
    let n = node_count(g);
    let mut flags: Vec<bool> = Vec::new();
    let mut i: usize = 0;
    while i < n
        invariant
            i <= n,
            flags@.len() == i,
            forall|j: int| 0 <= j < i ==> !#[trigger] flags@[j],
        decreases n - i,
    {
        flags.push(false);
        i += 1;
    }
    let mut k: usize = 0;
    while k < order.len()
        invariant
            n == graph_nodes(*g).len(),
            flags@.len() == n,
            k <= order@.len(),
            forall|i: int| 0 <= i < order@.len() ==> #[trigger] order@[i] < n,
            forall|j: int|
                0 <= j < n ==> #[trigger] flags@[j] == exists|w: int|
                    0 <= w < k && #[trigger] order@[w] == j as usize,
        decreases order@.len() - k,
    {
        let v = order[k];
        flags.set(v, true);
        proof {
            assert forall|j: int| 0 <= j < n implies #[trigger] flags@[j] == exists|w: int|
                0 <= w < k + 1 && #[trigger] order@[w] == j as usize by {
                if j == v {
                    assert(order@[k as int] == j as usize);
                }
            }
        }
        k += 1;
    }
    proof {
        assert forall|j: int| 0 <= j < n implies #[trigger] flags@[j] == reaches(
            graph_edges(*g),
            start,
            j as usize,
        ) by {
            if flags@[j] {
                let w = choose|w: int| 0 <= w < k && #[trigger] order@[w] == j as usize;
                assert(order@.contains(j as usize));
            }
            if order@.contains(j as usize) {
                let w = choose|w: int| 0 <= w < order@.len() && #[trigger] order@[w] == j as usize;
                assert(order@[w] == j as usize);
            }
        }
    }
    flags
}

pub proof fn lemma_total_prefix_monotone(ns: Seq<DepNode>, a: int, b: int)
    requires
        0 <= a <= b <= ns.len(),
    ensures
        total_prefix(ns, a) <= total_prefix(ns, b),
    decreases b - a,
{
    if a < b {
        lemma_total_prefix_monotone(ns, a, b - 1);
    }
}

pub proof fn lemma_sum_where_monotone(ns: Seq<DepNode>, p: spec_fn(usize) -> bool, a: int, b: int)
    requires
        0 <= a <= b <= ns.len(),
    ensures
        sum_where(ns, p, a) <= sum_where(ns, p, b),
    decreases b - a,
{
    if a < b {
        lemma_sum_where_monotone(ns, p, a, b - 1);
    }
}

pub proof fn lemma_sum_where_bounded(ns: Seq<DepNode>, p: spec_fn(usize) -> bool, k: int)
    requires
        0 <= k <= ns.len(),
    ensures
        sum_where(ns, p, k) <= total_prefix(ns, k),
        0 <= sum_where(ns, p, k),
    decreases k,
{
    if k > 0 {
        lemma_sum_where_bounded(ns, p, k - 1);
    }
}

} // verus!
