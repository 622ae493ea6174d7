//! Attributing hard-linked files: the bookkeeping that turns each sighting of an
//! inode into nodes, edges and sizes. Walking the filesystem is left to the caller,
//! which hands over one `(owner, inode, file size)` sighting at a time.
use crate::graph::{
    add_edge, add_node, edge_count, graph_edges, graph_nodes, node_at, node_count, replace_node,
    total_size, MAX_INDEX,
};
use crate::infos::{DedupAwareness, DepInfos, Reachability};
use crate::model::{name_of, DepNode, NodeDescription, NodeKind};
use crate::condense::{lemma_total_push, lemma_total_update};
use std::collections::HashMap;
use vstd::prelude::*;

verus! {

broadcast use vstd::std_specs::hash::group_hash_axioms;

/// Who holds an inode seen so far.
#[derive(Debug, Clone, Copy, PartialEq, Eq, Structural)]
pub enum Owner {
    /// Seen once, in the store path with this index.
    One(usize),
    /// Seen in several store paths, whose bytes went to this shared node.
    Several(usize),
}

impl Owner {
    pub open spec fn index(self) -> usize {
        match self {
            Owner::One(i) => i,
            Owner::Several(i) => i,
        }
    }
}

/// Why a sighting was refused.
#[derive(Debug, Clone, Copy, PartialEq, Eq, Structural)]
pub enum RefineError {
    /// The owner is not a node of the graph.
    NoSuchNode,
    /// The graph would outgrow its `u32` indices, or its total size a `u64`.
    TooLarge,
}

/// `a - b`, or zero when `b` is larger: a size never goes below zero.
pub open spec fn sat_sub(a: u64, b: u64) -> u64 {
    if a >= b {
        (a - b) as u64
    } else {
        0
    }
}

/// `d` with its size set to `s`.
pub open spec fn with_size(d: DepNode, s: u64) -> DepNode {
    DepNode { size: s, ..d }
}

/// `ns` with `s` taken from the size of node `i`.
pub open spec fn shrink(ns: Seq<DepNode>, i: int, s: u64) -> Seq<DepNode> {
    ns.update(i, with_size(ns[i], sat_sub(ns[i].size, s)))
}

/// A graph whose sizes are being corrected for hard links.
pub struct Refiner {
    di: DepInfos,
    owners: HashMap<u64, Owner>,
    total: u64,
}

impl Refiner {
    #[verifier::type_invariant]
    spec fn inv(self) -> bool {
        &&& self.di.wf()
        &&& self.total == total_size(self.di.nodes())
        &&& forall|k: u64| #[trigger] self.owners@.contains_key(k) ==> self.owners@[k].index()
            < self.di.nodes().len()
    }

    pub closed spec fn nodes(self) -> Seq<DepNode> {
        self.di.nodes()
    }

    pub closed spec fn edges(self) -> Seq<(usize, usize)> {
        self.di.edges()
    }

    pub closed spec fn owners(self) -> Map<u64, Owner> {
        self.owners@
    }

    pub closed spec fn infos(self) -> DepInfos {
        self.di
    }

    pub fn new(di: DepInfos) -> (r: Refiner)
        requires
            di.wf(),
        ensures
            r.infos() == di,
            r.owners() == Map::<u64, Owner>::empty(),
    {
        let total = di.size();
        Refiner { di, owners: HashMap::new(), total }
    }

    /// Takes in that the store path `owner` holds a file of `filesize` bytes with inode
    /// `ino`. On the second sighting of an inode a `Shared` node named after its first
    /// owner takes its bytes from both owners; later owners give their share to that
    /// node too.
    pub fn record(self, owner: usize, ino: u64, filesize: u64) -> (r: (Refiner, Result<(), RefineError>))
        ensures
            r.1.is_err() ==> r.0 == self,
            owner >= self.nodes().len() ==> r.1 == Err::<(), RefineError>(RefineError::NoSuchNode),
            owner < self.nodes().len() && !self.owners().contains_key(ino) ==> {
                &&& r.1.is_ok()
                &&& r.0.owners() == self.owners().insert(ino, Owner::One(owner))
                &&& r.0.infos() == self.infos()
            },
            owner < self.nodes().len() && self.owners().contains_key(ino) ==> match self.owners()[ino] {
                Owner::One(m) => {
                &&& r.1.is_ok() <==> {
                    &&& self.nodes().len() + 1 < MAX_INDEX
                    &&& self.edges().len() + 2 < MAX_INDEX
                    &&& total_size(shrink(shrink(self.nodes(), m as int, filesize), owner as int, filesize))
                        + filesize <= u64::MAX
                }
                &&& r.1.is_ok() ==> {
                    let s = self.nodes().len() as usize;
                    &&& r.0.owners() == self.owners().insert(ino, Owner::Several(s))
                    &&& r.0.nodes().len() == s + 1
                    &&& r.0.nodes().drop_last() == shrink(shrink(self.nodes(), m as int, filesize), owner as int, filesize)
                    &&& r.0.nodes()[s as int].description.kind_of() == NodeKind::Shared
                    &&& r.0.nodes()[s as int].description.payload() == Some(name_of(self.nodes()[m as int].description))
                    &&& r.0.nodes()[s as int].size == filesize
                    &&& r.0.edges() == self.edges().push((m, s)).push((owner, s))
                    &&& r.0.infos().root == self.infos().root
                    &&& r.0.infos().metadata == self.infos().metadata
                    &&& r.0.owners()[ino] == Owner::Several(s)
                }
                },
                Owner::Several(s) => {
                    &&& r.1.is_ok() <==> self.edges().len() + 1 < MAX_INDEX
                    &&& r.1.is_ok() ==> {
                        &&& r.0.owners() == self.owners()
                        &&& r.0.nodes() == shrink(self.nodes(), owner as int, self.nodes()[s as int].size)
                        &&& r.0.edges() == self.edges().push((owner, s))
                        &&& r.0.infos().root == self.infos().root
                        &&& r.0.infos().metadata == self.infos().metadata
                    }
                },
            },
    {
        proof {
            use_type_invariant(&self);
        }
        let n = node_count(&self.di.graph);
        if owner >= n {
            return (self, Err(RefineError::NoSuchNode));
        }
        let found = match self.owners.get(&ino) {
            Some(o) => Some(*o),
            None => None,
        };
        match found {
            None => {
                let Refiner { di, mut owners, total } = self;
                owners.insert(ino, Owner::One(owner));
                (Refiner { di, owners, total }, Ok(()))
            },
            Some(Owner::One(m)) => {
                let ghost ns = self.di.nodes();
                if n + 1 >= MAX_INDEX || edge_count(&self.di.graph) >= MAX_INDEX - 2 {
                    return (self, Err(RefineError::TooLarge));
                }
                let sm = node_at(&self.di.graph, m).size;
                let dm = if sm >= filesize { filesize } else { sm };
                proof {
                    crate::condense::lemma_elem_le_total(ns, m as int, ns.len() as int);
                    let x = with_size(ns[m as int], sat_sub(ns[m as int].size, filesize));
                    lemma_total_update(ns, m as int, x, ns.len() as int);
                    crate::condense::lemma_elem_le_total(ns.update(m as int, x), owner as int, ns.len() as int);
                }
                let t1 = self.total - dm;
                let so = if owner == m { sm - dm } else { node_at(&self.di.graph, owner).size };
                let dn = if so >= filesize { filesize } else { so };
                let t2 = t1 - dn;
                proof {
                    let x = with_size(ns[m as int], sat_sub(ns[m as int].size, filesize));
                    let na = ns.update(m as int, x);
                    assert(na == shrink(ns, m as int, filesize));
                    let y = with_size(na[owner as int], sat_sub(na[owner as int].size, filesize));
                    lemma_total_update(na, owner as int, y, na.len() as int);
                    assert(total_size(shrink(na, owner as int, filesize)) == t2);
                }
                if filesize > u64::MAX - t2 {
                    return (self, Err(RefineError::TooLarge));
                }
                let name = node_at(&self.di.graph, m).name();
                let Refiner { di, mut owners, total } = self;
                let DepInfos { mut graph, root, metadata } = di;
                let shared = DepNode { description: NodeDescription::Shared(name), size: filesize };
                let s = add_node(&mut graph, shared);
                let ghost ns1 = graph_nodes(graph);
                add_edge(&mut graph, m, s);
                shrink_node(&mut graph, m, filesize);
                let ghost ns2 = graph_nodes(graph);
                add_edge(&mut graph, owner, s);
                shrink_node(&mut graph, owner, filesize);
                owners.insert(ino, Owner::Several(s));
                let ghost ns3 = graph_nodes(graph);
                proof {
                    lemma_total_push(ns, shared);
                    lemma_total_update(ns1, m as int, with_size(ns1[m as int], sat_sub(ns1[m as int].size, filesize)), ns1.len() as int);
                    lemma_total_update(ns2, owner as int, with_size(ns2[owner as int], sat_sub(ns2[owner as int].size, filesize)), ns2.len() as int);
                    assert(ns3.drop_last() =~= shrink(shrink(ns, m as int, filesize), owner as int, filesize));
                    let es3 = graph_edges(graph);
                    assert forall|q: int| 0 <= q < es3.len() implies (#[trigger] es3[q]).0 < ns3.len() && es3[q].1 < ns3.len() by {
                        if q < es3.len() - 2 {
                            assert(es3[q] == self.di.edges()[q]);
                        }
                    }
                    assert forall|k: u64| #[trigger] owners@.contains_key(k) implies owners@[k].index() < ns3.len() by {
                        if k != ino {
                            assert(self.owners@.contains_key(k));
                        }
                    }
                }
                (Refiner { di: DepInfos { graph, root, metadata }, owners, total: t2 + filesize }, Ok(()))
            },
            Some(Owner::Several(s)) => {
                if edge_count(&self.di.graph) >= MAX_INDEX - 1 {
                    return (self, Err(RefineError::TooLarge));
                }
                let share = node_at(&self.di.graph, s).size;
                let so = node_at(&self.di.graph, owner).size;
                proof {
                    crate::condense::lemma_elem_le_total(self.di.nodes(), owner as int, self.di.nodes().len() as int);
                }
                let dn = if so >= share { share } else { so };
                let t = self.total - dn;
                let Refiner { di, owners, total } = self;
                let DepInfos { mut graph, root, metadata } = di;
                let ghost ns = graph_nodes(graph);
                add_edge(&mut graph, owner, s);
                shrink_node(&mut graph, owner, share);
                proof {
                    lemma_total_update(ns, owner as int, with_size(ns[owner as int], sat_sub(ns[owner as int].size, share)), ns.len() as int);
                    let es3 = graph_edges(graph);
                    assert forall|q: int| 0 <= q < es3.len() implies (#[trigger] es3[q]).0 < ns.len() && es3[q].1 < ns.len() by {
                        if q < es3.len() - 1 {
                            assert(es3[q] == self.di.edges()[q]);
                        }
                    }
                }
                (Refiner { di: DepInfos { graph, root, metadata }, owners, total: t }, Ok(()))
            },
        }
    }

    /// The graph with its sizes corrected, its totals recorded.
    pub fn finish(self) -> (r: DepInfos)
        ensures
            r.graph == self.infos().graph,
            r.root == self.infos().root,
            r.metadata.dedup == DedupAwareness::Aware,
            r.metadata.reachable == self.infos().metadata.reachable,
            r.wf(),
            ({
                let t = self.infos().metadata.size;
                let t2 = r.metadata.size;
                &&& t2.entry(DedupAwareness::Aware, Reachability::Connected) == if t.entry(
                    DedupAwareness::Aware,
                    Reachability::Connected,
                ).is_none() {
                    Some(r.reachable_size_spec() as u64)
                } else {
                    t.entry(DedupAwareness::Aware, Reachability::Connected)
                }
                &&& t2.entry(DedupAwareness::Aware, Reachability::Disconnected) == if r.metadata.reachable
                    == Reachability::Disconnected && t.entry(
                    DedupAwareness::Aware,
                    Reachability::Disconnected,
                ).is_none() {
                    Some(r.size_spec() as u64)
                } else {
                    t.entry(DedupAwareness::Aware, Reachability::Disconnected)
                }
                &&& forall|x: Reachability| #[trigger] t2.entry(DedupAwareness::Unaware, x) == t.entry(
                    DedupAwareness::Unaware,
                    x,
                )
            }),
    {
        proof {
            use_type_invariant(&self);
        }
        let Refiner { di, owners, total } = self;
        let mut di = di;
        di.metadata.dedup = DedupAwareness::Aware;
        di.record_metadata();
        di
    }
}

/// Takes `s` bytes from the size of node `i`, down to zero at most.
fn shrink_node(g: &mut crate::graph::DepGraph, i: usize, s: u64)
    requires
        i < graph_nodes(*old(g)).len(),
    ensures
        graph_nodes(*final(g)) == shrink(graph_nodes(*old(g)), i as int, s),
        graph_edges(*final(g)) == graph_edges(*old(g)),
{
    let w = replace_node(g, i, DepNode::dummy());
    let size = if w.size >= s { w.size - s } else { 0 };
    let _ = replace_node(g, i, DepNode { description: w.description, size });
}

} // verus!
