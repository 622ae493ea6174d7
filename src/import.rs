//! Building the graph from the records that the store adapter hands over.
use crate::graph::{
    add_edge, add_node, graph_edges, graph_nodes, new_graph, node_at, node_count, edge_count,
    total_size, DepGraph, MAX_INDEX,
};
use crate::infos::{
    graph_wf, DedupAwareness, DepInfos, Reachability, SizeMetadata, SizeTable,
};
use crate::model::{gc_root_kind, kind_of_record, record_kind, DepNode};
use vstd::prelude::*;

verus! {

/// Why an import failed.
#[derive(Debug, Clone, Copy, PartialEq, Eq, Structural)]
pub enum ImportError {
    /// The store adapter returned this non-zero status.
    StoreReadFailed(i32),
    /// A path that matches no known prefix.
    UnknownStorePath,
    /// An edge names a node that was not registered.
    NoSuchNode,
    /// The graph would outgrow its `u32` indices, or its total size a `u64`.
    TooLarge,
}

/// A graph being filled by the store adapter, one node or edge at a time.
pub struct Importer {
    graph: DepGraph,
    total: u64,
}

impl Importer {
    #[verifier::type_invariant]
    spec fn inv(self) -> bool {
        &&& graph_wf(graph_nodes(self.graph), graph_edges(self.graph))
        &&& self.total == total_size(graph_nodes(self.graph))
    }

    /// The nodes registered so far, in order.
    pub closed spec fn nodes(self) -> Seq<DepNode> {
        graph_nodes(self.graph)
    }

    /// The edges registered so far, in order.
    pub closed spec fn edges(self) -> Seq<(usize, usize)> {
        graph_edges(self.graph)
    }

    pub fn new() -> (r: Importer)
        ensures
            r.nodes() == Seq::<DepNode>::empty(),
            r.edges() == Seq::<(usize, usize)>::empty(),
    {
        Importer { graph: new_graph(), total: 0 }
    }

    /// Records a path. Its index is the number of paths recorded before it.
    pub fn register_node(&mut self, path: Vec<u8>, size: u64, is_root: bool) -> (r: Result<
        usize,
        ImportError,
    >)
        ensures
            record_kind(path@, is_root).is_none() ==> r == Err::<usize, ImportError>(
                ImportError::UnknownStorePath,
            ),
            r.is_ok() ==> {
                &&& r.unwrap() == old(self).nodes().len()
                &&& final(self).nodes().len() == old(self).nodes().len() + 1
                &&& final(self).nodes().drop_last() == old(self).nodes()
                &&& final(self).nodes().last().description.kind_of() == record_kind(path@, is_root).unwrap()
                &&& final(self).nodes().last().description.payload() == Some(path@)
                &&& final(self).nodes().last().size == size
            },
            r.is_err() ==> final(self).nodes() == old(self).nodes(),
            r.is_err() && record_kind(path@, is_root).is_some() ==> r == Err::<usize, ImportError>(
                ImportError::TooLarge,
            ),
            r.is_err() ==> (record_kind(path@, is_root).is_none() || old(self).nodes().len() + 1
                >= MAX_INDEX || total_size(old(self).nodes()) + size > u64::MAX),
            final(self).edges() == old(self).edges(),
    {
        proof {
            use_type_invariant(&*self);
        }
        if kind_of_record(path.as_slice(), is_root).is_none() {
            return Err(ImportError::UnknownStorePath);
        }
        let node = DepNode::from_record(path, size, is_root);
        let n = node_count(&self.graph);
        if n + 1 >= MAX_INDEX || size > u64::MAX - self.total {
            return Err(ImportError::TooLarge);
        }
        let ghost before = graph_nodes(self.graph);
        let mut this = Importer::new();
        std::mem::swap(self, &mut this);
        let Importer { mut graph, total } = this;
        let i = add_node(&mut graph, node);
        proof {
            crate::condense::lemma_total_push(before, node);
            assert(graph_nodes(graph).drop_last() =~= before);
        }
        *self = Importer { graph, total: total + size };
        Ok(i)
    }

    /// Records a reference from path `from` to path `to`; a path referring to
    /// itself is ignored.
    pub fn register_edge(&mut self, from: u32, to: u32) -> (r: Result<(), ImportError>)
        ensures
            final(self).nodes() == old(self).nodes(),
            from == to ==> r.is_ok() && final(self).edges() == old(self).edges(),
            from != to && r.is_ok() ==> final(self).edges() == old(self).edges().push(
                (from as usize, to as usize),
            ),
            from != to && (from >= old(self).nodes().len() || to >= old(self).nodes().len()) ==> r
                == Err::<(), ImportError>(ImportError::NoSuchNode),
            from != to && from < old(self).nodes().len() && to < old(self).nodes().len() ==> (r.is_ok()
                <==> old(self).edges().len() + 1 < MAX_INDEX),
            r.is_err() ==> final(self).edges() == old(self).edges(),
    {
        proof {
            use_type_invariant(&*self);
        }
        if from == to {
            return Ok(());
        }
        let n = node_count(&self.graph);
        if from as usize >= n || to as usize >= n {
            return Err(ImportError::NoSuchNode);
        }
        if edge_count(&self.graph) + 1 >= MAX_INDEX {
            return Err(ImportError::TooLarge);
        }
        let mut this = Importer::new();
        std::mem::swap(self, &mut this);
        let Importer { mut graph, total } = this;
        add_edge(&mut graph, from as usize, to as usize);
        *self = Importer { graph, total };
        Ok(())
    }

    /// Turns the recorded graph into a rooted one once the adapter has returned
    /// `status`. When the analysis is `restricted` to one path, the adapter recorded
    /// that path first and it is the root; otherwise a dummy root is added, with an
    /// edge to every gc root.
    pub fn finish(self, status: i32, restricted: bool) -> (r: Result<DepInfos, ImportError>)
        ensures
            status != 0 ==> r == Err::<DepInfos, ImportError>(ImportError::StoreReadFailed(status)),
            status == 0 && restricted ==> (r.is_err() <==> self.nodes().len() == 0),
            status == 0 && !restricted ==> (r.is_err() <==> (self.nodes().len() + 1 >= MAX_INDEX
                || self.edges().len() + self.nodes().len() >= MAX_INDEX)),
            r.is_ok() ==> {
                let di = r.unwrap();
                &&& di.wf()
                &&& di.metadata.dedup == DedupAwareness::Unaware
                &&& di.metadata.size.entry(DedupAwareness::Aware, Reachability::Connected).is_none()
                &&& di.metadata.size.entry(DedupAwareness::Aware, Reachability::Disconnected).is_none()
                &&& di.metadata.size.entry(DedupAwareness::Unaware, Reachability::Connected) == Some(
                    di.reachable_size_spec() as u64,
                )
                &&& restricted ==> {
                    &&& di.nodes() == self.nodes()
                    &&& di.edges() == self.edges()
                    &&& di.root == 0
                    &&& di.metadata.reachable == Reachability::Connected
                    &&& di.metadata.size.entry(DedupAwareness::Unaware, Reachability::Disconnected).is_none()
                }
                &&& !restricted ==> {
                    &&& di.nodes() == self.nodes().push(DepNode::dummy_spec())
                    &&& di.root == self.nodes().len()
                    &&& di.metadata.reachable == Reachability::Disconnected
                    &&& di.metadata.size.entry(DedupAwareness::Unaware, Reachability::Disconnected) == Some(
                        di.size_spec() as u64,
                    )
                    &&& forall|a: usize, b: usize| #[trigger]
                        di.edges().contains((a, b)) <==> (self.edges().contains((a, b)) || (a
                            == self.nodes().len() && b < self.nodes().len() && gc_root_kind(
                            self.nodes()[b as int].description.kind_of(),
                        )))
                }
            },
    {
        proof {
            use_type_invariant(&self);
        }
        if status != 0 {
            return Err(ImportError::StoreReadFailed(status));
        }
        let Importer { mut graph, total } = self;
        let ghost ns = graph_nodes(graph);
        let ghost es = graph_edges(graph);
        let n = node_count(&graph);
        let root: usize;
        let reachable: Reachability;
        if restricted {
            if n == 0 {
                return Err(ImportError::NoSuchNode);
            }
            root = 0;
            reachable = Reachability::Connected;
        } else {
            if n + 1 >= MAX_INDEX || n >= MAX_INDEX - edge_count(&graph) {
                return Err(ImportError::TooLarge);
            }
            root = add_node(&mut graph, DepNode::dummy());
            proof {
                crate::condense::lemma_total_push(ns, DepNode::dummy_spec());
            }
            let mut v: usize = 0;
            while v < n
                invariant
                    n == ns.len(),
                    root == n,
                    n + 1 < MAX_INDEX,
                    es.len() + n < MAX_INDEX,
                    v <= n,
                    graph_nodes(graph) == ns.push(DepNode::dummy_spec()),
                    graph_edges(graph).len() <= es.len() + v,
                    crate::graph::edges_in_range(es, n as int),
                    crate::graph::edges_in_range(graph_edges(graph), n + 1),
                    forall|a: usize, b: usize| #[trigger]
                        graph_edges(graph).contains((a, b)) <==> (es.contains((a, b)) || (a == n && b
                            < v && gc_root_kind(ns[b as int].description.kind_of()))),
                decreases n - v,
            {
                let ghost before = graph_edges(graph);
                if node_at(&graph, v).kind().is_gc_root() {
                    add_edge(&mut graph, root, v);
                }
                proof {
                    assert forall|a: usize, b: usize| #[trigger]
                        graph_edges(graph).contains((a, b)) <==> (es.contains((a, b)) || (a == n && b
                            < v + 1 && gc_root_kind(ns[b as int].description.kind_of()))) by {
                        crate::tred::lemma_push_or_same(before, graph_edges(graph), (root, v), (a, b));
                        if es.contains((a, b)) {
                            let w = choose|w: int| 0 <= w < es.len() && es[w] == (a, b);
                            assert(es[w].0 < n);
                        }
                    }
                }
                v += 1;
            }
            reachable = Reachability::Disconnected;
        }
        let mut di = DepInfos {
            graph,
            root,
            metadata: SizeMetadata {
                reachable,
                dedup: DedupAwareness::Unaware,
                size: SizeTable::empty(),
            },
        };
        di.record_metadata();
        Ok(di)
    }
}

} // verus!
