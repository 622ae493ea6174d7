use nix_du::condense::condense;
use nix_du::dedup::{RefineError, Refiner};
use nix_du::import::{ImportError, Importer};
use nix_du::infos::{DedupAwareness, DepInfos, Reachability};
use nix_du::keep::{count_threshold, keep};
use nix_du::model::{kind_of_record, store_path_name, DepNode, NodeDescription, NodeKind};
use nix_du::msg::{quiet, set_quiet};
use nix_du::opt::{first_store_path, optimisation_verdict, LinkEntry};
use nix_du::reduction::{keep_reachable, merge_transient_roots};
use nix_du::tred::transitive_reduction;
use petgraph::prelude::NodeIndex;
use petgraph::visit::EdgeRef;
use std::collections::BTreeMap;
use std::sync::atomic::AtomicBool;

const KB100: u64 = 100_000;

fn store(name: &str) -> Vec<u8> {
    format!("/nix/store/0a1b2c-{}", name).into_bytes()
}

fn link(name: &str) -> Vec<u8> {
    format!("/nix/var/nix/gcroots/{}", name).into_bytes()
}

/// Imports paths of 100KB each; `roots` get a link of size 0 pointing at them.
fn import(paths: &[&str], edges: &[(&str, &str)], roots: &[&str]) -> DepInfos {
    let mut imp = Importer::new();
    let mut ids = BTreeMap::new();
    for p in paths {
        let i = imp.register_node(store(p), KB100, false).unwrap();
        ids.insert(p.to_string(), i as u32);
    }
    for (a, b) in edges {
        imp.register_edge(ids[*a], ids[*b]).unwrap();
    }
    for r in roots {
        let l = imp.register_node(link(r), 0, true).unwrap();
        imp.register_edge(l as u32, ids[*r]).unwrap();
    }
    imp.finish(0, false).unwrap()
}

/// The classes of a condensed graph by the name of their representative, with
/// their sizes, and the edges between them by names.
fn classes(di: &DepInfos) -> (BTreeMap<String, u64>, Vec<(String, String)>) {
    let name = |i: NodeIndex| {
        let n = String::from_utf8(di.graph[i].name()).unwrap();
        n.rsplit('/').next().unwrap().to_string()
    };
    let mut sizes = BTreeMap::new();
    for i in di.graph.node_indices() {
        if i.index() != di.root {
            sizes.insert(name(i), di.graph[i].size);
        }
    }
    let mut edges: Vec<(String, String)> = di
        .graph
        .edge_references()
        .filter(|e| e.source().index() != di.root)
        .map(|e| (name(e.source()), name(e.target())))
        .collect();
    edges.sort();
    (sizes, edges)
}

#[test]
fn basic_condensation() {
    let di = import(
        &["coucou", "foo", "bar", "baz", "mux"],
        &[("coucou", "foo"), ("bar", "foo"), ("foo", "baz"), ("coucou", "mux"), ("mux", "baz")],
        &["coucou", "bar"],
    );
    let di = condense(merge_transient_roots(di));
    let (sizes, edges) = classes(&di);
    let expected: BTreeMap<String, u64> =
        [("coucou".to_string(), 2 * KB100), ("bar".to_string(), KB100), ("foo".to_string(), 2 * KB100)]
            .into_iter()
            .collect();
    assert_eq!(sizes, expected);
    assert_eq!(
        edges,
        vec![("bar".to_string(), "foo".to_string()), ("coucou".to_string(), "foo".to_string())]
    );
    assert_eq!(di.graph[NodeIndex::new(di.root)].description, NodeDescription::Dummy);
    assert_eq!(di.metadata.reachable, Reachability::Connected);
}

#[test]
fn size_filter_rolls_remainder_into_filtered_out() {
    let di = import(
        &["coucou", "foo", "bar", "baz", "mux", "frob"],
        &[("coucou", "foo"), ("bar", "foo"), ("foo", "baz"), ("coucou", "mux"), ("mux", "baz")],
        &["coucou", "bar", "frob"],
    );
    let total = di.size();
    let di = condense(merge_transient_roots(di));
    let di = keep(di, |d: &DepNode| d.size >= 150_000);
    assert_eq!(di.size(), total);
    let (sizes, _) = classes(&di);
    let expected: BTreeMap<String, u64> = [
        ("coucou".to_string(), 2 * KB100),
        ("foo".to_string(), 2 * KB100),
        ("bar".to_string(), KB100),
        ("{filtered out}".to_string(), KB100),
    ]
    .into_iter()
    .collect();
    assert_eq!(sizes, expected);
    let filtered: Vec<usize> = di
        .graph
        .node_indices()
        .filter(|&i| di.graph[i].kind() == NodeKind::FilteredOut)
        .map(|i| i.index())
        .collect();
    assert_eq!(filtered.len(), 1);
    assert!(di.roots().contains(&filtered[0]));
}

#[test]
fn dedup_moves_shared_bytes() {
    let mut imp = Importer::new();
    let coucou = imp.register_node(store("coucou"), KB100, false).unwrap();
    let foo = imp.register_node(store("foo"), KB100, false).unwrap();
    let bar = imp.register_node(store("bar"), KB100, false).unwrap();
    imp.register_edge(coucou as u32, foo as u32).unwrap();
    let di = imp.finish(0, true).unwrap();
    let r = Refiner::new(di);
    let (r, res) = r.record(foo, 42, KB100);
    assert_eq!(res, Ok(()));
    let (r, res) = r.record(bar, 42, KB100);
    assert_eq!(res, Ok(()));
    let di = r.finish();
    assert_eq!(di.metadata.dedup, DedupAwareness::Aware);
    assert_eq!(di.graph.node_count(), 4);
    let shared = NodeIndex::new(3);
    assert_eq!(di.graph[shared].description, NodeDescription::Shared(b"foo".to_vec()));
    assert_eq!(di.graph[shared].name(), b"shared:foo".to_vec());
    assert_eq!(di.graph[shared].size, KB100);
    assert_eq!(di.graph[NodeIndex::new(foo)].size, 0);
    assert_eq!(di.graph[NodeIndex::new(bar)].size, 0);
    assert_eq!(di.graph[NodeIndex::new(coucou)].size, KB100);
    assert!(di.graph.find_edge(NodeIndex::new(foo), shared).is_some());
    assert!(di.graph.find_edge(NodeIndex::new(bar), shared).is_some());
    // the closure of coucou now holds one copy of the bytes
    assert_eq!(di.reachable_size(), 2 * KB100);
}

#[test]
fn dedup_third_owner_and_errors() {
    let mut imp = Importer::new();
    for p in ["a", "b", "c"] {
        imp.register_node(store(p), 50, false).unwrap();
    }
    let di = imp.finish(0, false).unwrap();
    let r = Refiner::new(di);
    let (r, res) = r.record(7, 1, 10);
    assert_eq!(res, Err(RefineError::NoSuchNode));
    let (r, _) = r.record(0, 1, 10);
    let (r, _) = r.record(1, 1, 10);
    let (r, _) = r.record(2, 1, 10);
    let di = r.finish();
    let sizes: Vec<u64> = di.graph.node_indices().map(|i| di.graph[i].size).collect();
    // a, b, c, the dummy root, then the shared node
    assert_eq!(sizes, vec![40, 40, 40, 0, 10]);
    assert_eq!(di.graph.edge_count(), 3);
}

#[test]
fn transient_merge() {
    let mut imp = Importer::new();
    let l1 = imp.register_node(link("L1"), 0, true).unwrap();
    let m1 = imp.register_node(b"{memory:1}".to_vec(), 0, true).unwrap();
    let t1 = imp.register_node(b"{temp:1}".to_vec(), 0, true).unwrap();
    let di = imp.finish(0, false).unwrap();
    let root = NodeIndex::new(di.root);
    let di = merge_transient_roots(di);
    let t = NodeIndex::new(4);
    assert_eq!(di.graph[t].description, NodeDescription::Transient);
    let mut children: Vec<usize> = di.roots();
    children.sort();
    assert_eq!(children, vec![l1, 4]);
    assert!(di.graph.find_edge(t, NodeIndex::new(m1)).is_some());
    assert!(di.graph.find_edge(t, NodeIndex::new(t1)).is_some());
    assert!(di.graph.find_edge(root, NodeIndex::new(m1)).is_none());
    assert_eq!(di.graph.node_count(), 5);
}

#[test]
fn transient_merge_without_dummy_root_does_nothing() {
    let mut imp = Importer::new();
    imp.register_node(store("d"), 1, false).unwrap();
    imp.register_node(b"{memory:1}".to_vec(), 1, true).unwrap();
    imp.register_edge(0, 1).unwrap();
    let di = imp.finish(0, true).unwrap();
    let di = merge_transient_roots(di);
    assert_eq!(di.graph.node_count(), 2);
    assert_eq!(di.graph.edge_count(), 1);
}

#[test]
fn restricted_closure() {
    let mut imp = Importer::new();
    for p in ["d", "e", "f", "g", "r1", "r2"] {
        imp.register_node(store(p), 10, false).unwrap();
    }
    for (a, b) in [(0, 1), (1, 2), (0, 3), (4, 0), (5, 4)] {
        imp.register_edge(a, b).unwrap();
    }
    let di = imp.finish(0, true).unwrap();
    assert_eq!(di.root, 0);
    assert_eq!(di.metadata.reachable, Reachability::Connected);
    assert_eq!(di.metadata.size.get(DedupAwareness::Unaware, Reachability::Connected), Some(40));
    let di = keep_reachable(di);
    assert_eq!(di.graph.node_count(), 4);
    assert_eq!(di.root, 0);
    assert_eq!(di.graph[NodeIndex::new(0)].description, NodeDescription::Path(store("d")));
    assert_eq!(di.metadata.reachable, Reachability::Connected);
    assert_eq!(di.reachable_size(), 40);
}

#[test]
fn transitive_reduction_keeps_back_edges() {
    let mut g: nix_du::graph::DepGraph = petgraph::graph::Graph::new();
    let r = g.add_node(DepNode::dummy());
    let a = g.add_node(DepNode { description: NodeDescription::Path(store("a")), size: 1 });
    let b = g.add_node(DepNode { description: NodeDescription::Path(store("b")), size: 1 });
    let c = g.add_node(DepNode { description: NodeDescription::Path(store("c")), size: 1 });
    g.add_edge(r, a, ());
    g.add_edge(a, b, ());
    g.add_edge(b, c, ());
    g.add_edge(a, c, ());
    g.add_edge(c, a, ());
    let di = DepInfos {
        graph: g,
        root: 0,
        metadata: nix_du::infos::SizeMetadata {
            reachable: Reachability::Connected,
            dedup: DedupAwareness::Unaware,
            size: nix_du::infos::SizeTable::empty(),
        },
    };
    let di = transitive_reduction(di);
    // the edge out of the root is kept beside the reduction, so it may come twice
    let edges: std::collections::BTreeSet<(usize, usize)> =
        di.graph.edge_references().map(|e| (e.source().index(), e.target().index())).collect();
    let expected: std::collections::BTreeSet<(usize, usize)> =
        [(0, 1), (1, 2), (2, 3), (3, 1)].into_iter().collect();
    assert_eq!(edges, expected);
}

#[test]
fn classification_of_store_records() {
    let kind = |p: &str, root: bool| kind_of_record(p.as_bytes(), root);
    assert_eq!(kind("/proc/12/maps", false), Some(NodeKind::Memory));
    assert_eq!(kind("/proc/12/maps", true), Some(NodeKind::Memory));
    assert_eq!(kind("/home/u/result", true), Some(NodeKind::Link));
    assert_eq!(kind("/nix/store/abc-foo", false), Some(NodeKind::Path));
    assert_eq!(kind("{memory:3}", true), Some(NodeKind::Memory));
    assert_eq!(kind("{lsof}", true), Some(NodeKind::Memory));
    assert_eq!(kind("{censored}", true), Some(NodeKind::Memory));
    assert_eq!(kind("{censoredx}", true), None);
    assert_eq!(kind("{temp:8}", true), Some(NodeKind::Temporary));
    assert_eq!(kind("nix/store/x", false), None);
    assert_eq!(kind("", false), None);
    let n = DepNode::from_record(b"{temp:8}".to_vec(), 5, true);
    assert_eq!(n.kind(), NodeKind::Temporary);
    let n = DepNode::from_record(b"/nix/store/abc-foo".to_vec(), 3, true);
    assert_eq!(n.description, NodeDescription::Link(b"/nix/store/abc-foo".to_vec()));
    let n = DepNode::from_record(b"{temp:8}".to_vec(), 5, true);
    assert_eq!(n.size, 5);
    assert_eq!(n.description, NodeDescription::Temporary(b"{temp:8}".to_vec()));
}

#[test]
fn import_errors() {
    let mut imp = Importer::new();
    assert_eq!(imp.register_node(b"what".to_vec(), 1, false), Err(ImportError::UnknownStorePath));
    assert_eq!(imp.register_node(store("a"), 1, false), Ok(0));
    assert_eq!(imp.register_edge(0, 0), Ok(()));
    assert_eq!(imp.register_edge(0, 1), Err(ImportError::NoSuchNode));
    assert!(matches!(imp.finish(3, false), Err(ImportError::StoreReadFailed(3))));
    let imp = Importer::new();
    assert!(matches!(imp.finish(0, true), Err(ImportError::NoSuchNode)));
}

#[test]
fn import_adds_dummy_root_over_gc_roots() {
    let mut imp = Importer::new();
    imp.register_node(store("a"), 7, false).unwrap();
    imp.register_node(link("a"), 0, true).unwrap();
    imp.register_node(b"{temp:1}".to_vec(), 0, true).unwrap();
    imp.register_node(store("b"), 5, false).unwrap();
    imp.register_edge(1, 0).unwrap();
    let di = imp.finish(0, false).unwrap();
    assert_eq!(di.root, 4);
    assert_eq!(di.graph[NodeIndex::new(4)].description, NodeDescription::Dummy);
    let mut roots = di.roots();
    roots.sort();
    assert_eq!(roots, vec![1, 2]);
    assert_eq!(di.metadata.reachable, Reachability::Disconnected);
    assert_eq!(di.metadata.size.get(DedupAwareness::Unaware, Reachability::Connected), Some(7));
    assert_eq!(di.metadata.size.get(DedupAwareness::Unaware, Reachability::Disconnected), Some(12));
    assert_eq!(di.metadata.size.get(DedupAwareness::Aware, Reachability::Connected), None);
}

#[test]
fn names() {
    assert_eq!(store_path_name(b"/nix/store/abc123-hello-2.0"), b"hello-2.0".to_vec());
    assert_eq!(store_path_name(b"/nix/store/ABC-hello"), b"/nix/store/ABC-hello".to_vec());
    assert_eq!(store_path_name(b"/nix/store/nodash"), b"/nix/store/nodash".to_vec());
    assert_eq!(store_path_name(b"/abc-hello"), b"/abc-hello".to_vec());
    assert_eq!(store_path_name(b"//-x"), b"x".to_vec());
    assert_eq!(NodeDescription::Dummy.name(), b"{dummy}".to_vec());
    assert_eq!(NodeDescription::FilteredOut.name(), b"{filtered out}".to_vec());
    assert_eq!(NodeDescription::Transient.name(), b"{transient}".to_vec());
    assert_eq!(NodeDescription::Memory(b"{lsof}".to_vec()).name(), b"{lsof}".to_vec());
    assert_eq!(NodeDescription::Shared(b"x".to_vec()).name(), b"shared:x".to_vec());
    assert_eq!(NodeDescription::Path(store("foo")).path(), Some(&store("foo")));
    assert_eq!(NodeDescription::Transient.path(), None);
}

#[test]
fn kinds() {
    assert!(NodeKind::Link.is_gc_root());
    assert!(NodeKind::Transient.is_gc_root());
    assert!(NodeKind::Memory.is_gc_root() && NodeKind::Memory.is_transient());
    assert!(NodeKind::Temporary.is_gc_root() && NodeKind::Temporary.is_transient());
    assert!(!NodeKind::Path.is_gc_root() && !NodeKind::Shared.is_gc_root());
    assert!(!NodeKind::Dummy.is_gc_root() && !NodeKind::FilteredOut.is_gc_root());
    assert!(!NodeKind::Link.is_transient() && !NodeKind::Transient.is_transient());
}

#[test]
fn optimisation_detection() {
    assert_eq!(optimisation_verdict(&vec![LinkEntry::File(1), LinkEntry::File(2)]), Some(true));
    assert_eq!(optimisation_verdict(&vec![LinkEntry::File(1); 10]), Some(false));
    assert_eq!(optimisation_verdict(&vec![LinkEntry::File(1); 12]), Some(false));
    assert_eq!(optimisation_verdict(&vec![LinkEntry::File(1); 3]), None);
    assert_eq!(optimisation_verdict(&vec![LinkEntry::Other, LinkEntry::File(3)]), None);
    let mut late = vec![LinkEntry::File(1); 10];
    late.push(LinkEntry::File(5));
    assert_eq!(optimisation_verdict(&late), Some(false));
    assert_eq!(optimisation_verdict(&vec![]), None);
}

#[test]
fn first_store_path_is_found() {
    let mut imp = Importer::new();
    imp.register_node(link("x"), 0, true).unwrap();
    imp.register_node(store("a"), 1, false).unwrap();
    let di = imp.finish(0, false).unwrap();
    assert_eq!(first_store_path(&di), Some(1));
    let mut imp = Importer::new();
    imp.register_node(link("x"), 0, true).unwrap();
    let di = imp.finish(0, false).unwrap();
    assert_eq!(first_store_path(&di), None);
}

#[test]
fn quiet_switch() {
    let flag = AtomicBool::new(false);
    assert!(!quiet(&flag));
    set_quiet(&flag, true);
    assert!(quiet(&flag));
}

#[test]
fn keep_nothing_keeps_root_and_total() {
    let di = import(&["a", "b"], &[("a", "b")], &["a"]);
    let total = di.size();
    let di = keep_reachable(di);
    let di = keep(di, |_: &DepNode| false);
    assert_eq!(di.size(), total);
    assert_eq!(di.graph.node_count(), 2);
    assert_eq!(di.graph[NodeIndex::new(di.root)].description, NodeDescription::Dummy);
}

#[test]
fn count_mode_threshold() {
    let mut imp = Importer::new();
    for (p, size) in [("a", 5u64), ("b", 9), ("c", 1), ("d", 9), ("e", 3)] {
        imp.register_node(store(p), size, false).unwrap();
    }
    let di = imp.finish(0, true).unwrap();
    // sizes in order: 1 3 5 9 9
    assert_eq!(count_threshold(&di, 1), 9);
    assert_eq!(count_threshold(&di, 2), 9);
    assert_eq!(count_threshold(&di, 3), 5);
    assert_eq!(count_threshold(&di, 4), 3);
}
