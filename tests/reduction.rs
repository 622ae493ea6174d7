use nix_du::condense::condense;
use nix_du::graph::DepGraph;
use nix_du::infos::{DedupAwareness, DepInfos, Reachability, SizeMetadata, SizeTable};
use nix_du::keep::keep;
use nix_du::model::{DepNode, NodeDescription, NodeKind};
use nix_du::reduction::{keep_reachable, merge_transient_roots};
use nix_du::tred::transitive_reduction;
use petgraph::prelude::NodeIndex;
use petgraph::visit::{EdgeRef, IntoNodeReferences, NodeRef};
use rand::distr::weighted::WeightedIndex;
use rand::distr::Distribution;
use rand::Rng;
use std::collections::{self, BTreeMap, BTreeSet};

fn copy(di: &DepInfos) -> DepInfos {
    DepInfos { graph: di.graph.clone(), root: di.root, metadata: di.metadata }
}

fn roots_name(di: &DepInfos) -> BTreeSet<String> {
    di.roots()
        .into_iter()
        .map(|idx| {
            assert_ne!(idx, di.root);
            String::from_utf8_lossy(&di.graph[NodeIndex::new(idx)].name()).into()
        })
        .collect()
}

/// checks metadata is consistent
fn check_metadata(di: &DepInfos) {
    if di.metadata.reachable == Reachability::Connected {
        let mut i = 0;
        let mut dfs = petgraph::visit::Dfs::new(&di.graph, NodeIndex::new(di.root));
        while let Some(_) = dfs.next(&di.graph) {
            i += 1;
        }
        assert_eq!(i, di.graph.node_count(), "metadata indicates graph is connected, but it is not");
    }
    if let Some(s) = di.metadata.size.get(di.metadata.dedup, di.metadata.reachable) {
        assert_eq!(s, di.size(), "wrong size in metadata");
    }
}

/// asserts that `transform` preserves
/// * the set of roots, by path
/// * reachable size
/// * the root, by path
fn check_invariants<T: Fn(DepInfos) -> DepInfos>(transform: T, di: DepInfos, same_roots: bool) {
    let orig = copy(&di);
    check_metadata(&orig);
    let new = transform(di);
    println!(
        "OLD:\n{:?}\nNew:\n{:?}",
        petgraph::dot::Dot::new(&orig.graph),
        petgraph::dot::Dot::new(&new.graph)
    );
    check_metadata(&new);
    if same_roots {
        assert_eq!(roots_name(&new), roots_name(&orig), "not the same roots");
    }
    assert_eq!(new.reachable_size(), orig.reachable_size(), "not the same reachable size");
    assert_eq!(
        new.graph[NodeIndex::new(new.root)],
        orig.graph[NodeIndex::new(orig.root)],
        "not the same root"
    );
    let _ = petgraph::algo::toposort(&new.graph, None).expect("the graph has a cycle");
    assert_eq!(
        new.graph
            .neighbors_directed(NodeIndex::new(new.root), petgraph::prelude::Incoming)
            .count(),
        0,
        "incoming edges to root"
    );
}

/// generates a random `DepInfos` where
/// * all derivations have a distinct path
/// * there are `size` derivations
/// * the expected average degree of the graph should be `avg_degree`
/// * the first 62 nodes have size `1<<index`
///
/// if connected is true, forces the output to be reachable from the root
/// otherwise, it is random.
fn generate_random(size: u32, avg_degree: u32, connected: bool) -> DepInfos {
    assert!(avg_degree <= size - 1);
    let choices = &[true, false];
    let weights = &[avg_degree, size - 1 - avg_degree];
    let wc = WeightedIndex::new(weights).unwrap();
    let mut rng = rand::rng();
    let mut g: DepGraph = petgraph::graph::Graph::new();
    let rooted = rng.random();
    for i in 0..size {
        let path: Vec<u8> = i.to_string().into();
        let description = if rooted || i > 4 || rng.random() {
            NodeDescription::Path(path)
        } else if rng.random() {
            NodeDescription::Memory(path)
        } else {
            NodeDescription::Temporary(path)
        };
        let size = if i < 62 { 1u64 << i } else { 3 + 2 * (i as u64) };
        g.add_node(DepNode { description, size });
    }
    for i in 0..size {
        for j in (i + 1)..size {
            if choices[wc.sample(&mut rng)] && !g[NodeIndex::from(j)].kind().is_gc_root() {
                g.add_edge(NodeIndex::from(i), NodeIndex::from(j), ());
            }
        }
    }
    let mut reachable = Reachability::Connected;
    let root = g.add_node(if rooted {
        DepNode { description: NodeDescription::Path("root".into()), size: 42 }
    } else {
        DepNode::dummy()
    });
    for idx in g.externals(petgraph::Direction::Incoming).collect::<Vec<_>>() {
        if !rooted && rng.random() && g[idx].kind() == NodeKind::Path {
            let w = &mut g[idx].description;
            let mut temp = NodeDescription::Dummy;
            std::mem::swap(&mut temp, w);
            temp = match temp {
                NodeDescription::Path(path) => NodeDescription::Link(path),
                o => o,
            };
            std::mem::swap(&mut temp, w);
            assert_eq!(w.kind(), NodeKind::Link);
        }
        let make_reachable = connected || g[idx].kind().is_gc_root() || rng.random();
        if root != idx && make_reachable {
            g.add_edge(root, idx, ());
        }
        if !make_reachable {
            reachable = Reachability::Disconnected;
        }
    }
    let mut di = DepInfos {
        graph: g,
        root: root.index(),
        metadata: SizeMetadata { reachable, dedup: DedupAwareness::Unaware, size: SizeTable::empty() },
    };
    // there may be edges from root to root
    let roots = di.roots();
    for &i in &roots {
        for &j in &roots {
            if j > i && choices[wc.sample(&mut rng)] {
                di.graph.add_edge(NodeIndex::new(i), NodeIndex::new(j), ());
            }
        }
    }
    let _ = petgraph::algo::toposort(&di.graph, None).expect("the random graph has a cycle");
    di.record_metadata();
    di
}

fn size_to_old_nodes(drv: &DepNode) -> collections::BTreeSet<NodeIndex> {
    (0..62).filter(|i| drv.size & (1u64 << i) != 0).map(NodeIndex::from).collect()
}

fn path_to_old_size(drv: &DepNode) -> u32 {
    match String::from_utf8_lossy(drv.description.path().unwrap()).parse() {
        Ok(x) => x,
        Err(_) => panic!("Cannot convert {:?}", drv.description.path().unwrap()),
    }
}

fn revmap(g: &DepGraph) -> BTreeMap<DepNode, NodeIndex> {
    let mut map = BTreeMap::new();
    for n in g.node_references() {
        map.insert(n.weight().clone(), n.id());
    }
    map
}

fn fingerprint(di: &DepInfos) -> (usize, Vec<(NodeIndex, DepNode)>, Vec<(NodeIndex, NodeIndex)>) {
    (
        di.root,
        di.graph.node_references().map(|n| (n.id(), n.weight().clone())).collect::<Vec<_>>(),
        di.graph.edge_references().map(|e| (e.source(), e.target())).collect::<Vec<_>>(),
    )
}

#[test]
/// check that condense and keep preserve some invariants
fn invariants() {
    for _ in 0..40 {
        let di = generate_random(250, 10, false);
        println!("testing merge_transient_roots");
        check_invariants(merge_transient_roots, copy(&di), false);
        println!("testing condense");
        check_invariants(condense, copy(&di), true);
        println!("testing keep_reachable");
        check_invariants(keep_reachable, copy(&di), true);
        println!("testing keep none");
        let trimmed = keep_reachable(di);
        check_invariants(|x| keep(x, |_: &DepNode| false), copy(&trimmed), false);
        println!("testing keep all");
        check_invariants(|x| keep(x, |_: &DepNode| true), copy(&trimmed), true);
        println!("testing tred");
        check_invariants(transitive_reduction, trimmed, true);
    }
}

#[test]
fn check_merge_transient_roots() {
    for _ in 0..40 {
        let old = generate_random(250, 10, false);
        let new = merge_transient_roots(copy(&old));
        let has_transient_roots = old
            .graph
            .raw_nodes()
            .iter()
            .any(|w| w.weight.kind() == NodeKind::Temporary || w.weight.kind() == NodeKind::Memory);
        if !has_transient_roots {
            assert_eq!(fingerprint(&old), fingerprint(&new));
            return;
        }
        assert_eq!(old.graph.node_count() + 1, new.graph.node_count());
        let fake_root_idx = NodeIndex::from(old.graph.node_count() as u32);
        let old_root = NodeIndex::new(old.root);
        for edge in old.graph.edge_references() {
            let old_child = &old.graph[edge.target()];
            let old_parent = &old.graph[edge.source()];
            let new_child = &new.graph[edge.target()];
            let new_parent = &new.graph[edge.source()];
            assert_eq!(old_parent, new_parent);
            assert_eq!(old_child, new_child);
            let should_disappear = edge.source() == old_root && old_child.kind().is_transient();
            assert_eq!(new.graph.find_edge(edge.source(), edge.target()).is_none(), should_disappear);
            if should_disappear {
                assert!(new.graph.find_edge(edge.source(), fake_root_idx).is_some());
                assert!(new.graph.find_edge(fake_root_idx, edge.target()).is_some());
            }
        }
    }
}

#[test]
fn check_keep_reachable() {
    for _ in 0..40 {
        let old = generate_random(150, 1, false);
        let new = keep_reachable(copy(&old));
        let old_map = revmap(&old.graph);
        let new_map = revmap(&new.graph);
        let old_w: BTreeSet<_> = old_map.keys().collect();
        let new_w: BTreeSet<_> = new_map.keys().collect();
        assert!(new_w.is_subset(&old_w), "new: {:?} \nold: {:?}", new_map, old_map);
        let mut space = petgraph::algo::DfsSpace::new(&old.graph);
        for (w, &i) in &old_map {
            let kept = new_map.contains_key(&w);
            let reachable = petgraph::algo::has_path_connecting(
                &old.graph,
                NodeIndex::new(old.root),
                i,
                Some(&mut space),
            );
            assert_eq!(kept, reachable);
        }
        for (w, &i) in &new_map {
            for (w2, &i2) in &new_map {
                let is_edge = new.graph.find_edge(i, i2).is_some();
                let was_edge = old.graph.find_edge(old_map[&w], old_map[&w2]).is_some();
                assert_eq!(is_edge, was_edge);
            }
        }
    }
}

#[test]
fn check_transitive_reduction() {
    let mut rng = rand::rng();
    for _ in 0..40 {
        let mut old = generate_random(100, 3, true);
        // make it slightly cyclic
        for _ in 1..20 {
            let from = rng.random_range(1..old.graph.node_count());
            let to = rng.random_range(1..old.graph.node_count());
            old.graph.add_edge(NodeIndex::from(from as u32), NodeIndex::from(to as u32), ());
            check_metadata(&old);
        }

        let new = transitive_reduction(copy(&old));

        // same nodes
        assert_eq!(old.graph.node_count(), new.graph.node_count());
        for i in old.graph.node_indices() {
            assert_eq!(old.graph[i], new.graph[i]);
        }

        // edges inclusion
        for e in new.graph.edge_references() {
            assert!(
                old.graph.find_edge(e.source(), e.target()).is_some(),
                "edge {:?} is in result of tred but not in argument",
                e
            );
        }

        // identical closure
        let mut old_space = petgraph::algo::DfsSpace::new(&old.graph);
        let mut new_space = petgraph::algo::DfsSpace::new(&new.graph);
        for i in old.graph.node_indices() {
            for j in old.graph.node_indices() {
                assert_eq!(
                    petgraph::algo::has_path_connecting(&old.graph, i, j, Some(&mut old_space)),
                    petgraph::algo::has_path_connecting(&new.graph, i, j, Some(&mut new_space))
                )
            }
        }
    }
}

#[test]
fn check_condense() {
    // 62 so that each node is uniquely determined by its size, and
    // merging nodes doesn't destroy this information
    for _ in 0..80 {
        let old = generate_random(62, 10, false);
        let mut old_rev = old.graph.clone();
        old_rev.reverse();
        let new = condense(copy(&old));
        let mut new_rev = new.graph.clone();
        new_rev.reverse();
        let oldroots: collections::BTreeSet<NodeIndex> =
            old.roots().into_iter().map(NodeIndex::new).collect();
        let newroots: collections::BTreeSet<NodeIndex> =
            new.roots().into_iter().map(NodeIndex::new).collect();
        let get_dependent_roots = |which, idx| {
            let grev = if which { &new_rev } else { &old_rev };
            let roots = if which { &newroots } else { &oldroots };
            let mut dfs = petgraph::visit::Dfs::new(grev, idx);
            let mut res = collections::BTreeSet::new();
            while let Some(nx) = dfs.next(grev) {
                if roots.contains(&nx) {
                    res.extend(&size_to_old_nodes(&grev[nx]) & &oldroots);
                }
            }
            res
        };
        let mut nodes_image = collections::BTreeSet::<collections::BTreeSet<_>>::new();
        let new_root = NodeIndex::new(new.root);
        for (idx, drv) in new.graph.node_references() {
            if idx == new_root {
                continue;
            }
            let after = get_dependent_roots(true, idx);
            let elements = size_to_old_nodes(drv);
            for &element in &elements {
                let before = get_dependent_roots(false, element);
                assert_eq!(
                    before,
                    after,
                    "new:{:?} and old:{:?} do not belong to the same equivalence class ({:?} != {:?})\nOLD:\n{:?}\nNew:\n{:?}",
                    idx,
                    element,
                    after,
                    before,
                    petgraph::dot::Dot::new(&old.graph),
                    petgraph::dot::Dot::new(&new.graph)
                );
            }
            nodes_image.insert(after);
            // here check edges
            for (idx2, drv2) in new.graph.node_references() {
                let targets = size_to_old_nodes(drv2);
                let should_exist = idx2 != new_root
                    && idx != idx2
                    && elements.iter().any(|&from| {
                        targets.iter().any(|&to| old.graph.find_edge(from, to).is_some())
                    });
                let exists = new.graph.find_edge(idx, idx2).is_some();
                assert_eq!(
                    should_exist,
                    exists,
                    "edge {:?} -> {:?} is wrong (expected: {:?})\nOld:\n{:?}\nNew:\n{:?}",
                    idx,
                    idx2,
                    should_exist,
                    petgraph::dot::Dot::new(&old.graph),
                    petgraph::dot::Dot::new(&new.graph)
                );
            }
        }
        assert_eq!(
            nodes_image.len() + 1,
            new.graph.node_count(),
            "two nodes at least have the same equivalence class\nOld\n{:?}\nNew\n{:?}",
            petgraph::dot::Dot::new(&old.graph),
            petgraph::dot::Dot::new(&new.graph)
        );
    }
}

#[test]
fn check_keep() {
    let filter_drv = |drv: &DepNode| {
        let log = (drv.size as f64).log2();
        log.round() as u64 % 3 == 0 // third of the drvs
    };
    for _ in 0..50 {
        let old = generate_random(62, 1, true);
        let mut new = keep(copy(&old), &filter_drv);
        println!(
            "OLD:\n{:?}\nNew:\n{:?}",
            petgraph::dot::Dot::new(&old.graph),
            petgraph::dot::Dot::new(&new.graph)
        );
        // compute who we keep
        let old_root = NodeIndex::new(old.root);
        let old_roots: Vec<NodeIndex> = old.roots().into_iter().map(NodeIndex::new).collect();
        let real_filter: collections::BTreeMap<NodeIndex, bool> = old
            .graph
            .node_references()
            .map(|(n, drv)| {
                let mut keep = false;
                if n == old_root {
                    (n, true)
                } else if old_roots.contains(&n) {
                    let mut dfs = petgraph::visit::Dfs::new(&old.graph, n);
                    while let Some(idx) = dfs.next(&old.graph) {
                        if filter_drv(&old.graph[idx]) {
                            keep = true;
                            break;
                        }
                    }
                    (n, keep)
                } else {
                    (n, filter_drv(&drv))
                }
            })
            .collect();
        // first let's get rid of {filtered out}
        let fake_roots = new
            .graph
            .node_references()
            .filter_map(|n| {
                if n.weight().kind() == NodeKind::FilteredOut {
                    Some(n.id())
                } else {
                    None
                }
            })
            .collect::<collections::BTreeSet<_>>();
        assert!(fake_roots.len() < 2, "fake_roots={:?}", fake_roots);
        if let Some(&id) = fake_roots.iter().next() {
            new.graph.remove_node(id);
        }
        // nodes:
        //   * roots
        let old_roots: collections::BTreeSet<_> = old
            .roots()
            .into_iter()
            .map(|id| old.graph[NodeIndex::new(id)].description.clone())
            .collect();
        let new_roots = new
            .roots()
            .into_iter()
            .map(|id| new.graph[NodeIndex::new(id)].description.clone())
            .collect();
        let expected_roots = old
            .roots()
            .into_iter()
            .filter_map(|id| {
                if !real_filter[&NodeIndex::new(id)] {
                    None
                } else {
                    Some(old.graph[NodeIndex::new(id)].description.clone())
                }
            })
            .collect();
        assert!(old_roots.is_superset(&new_roots));
        assert!(fake_roots.len() == 1 || new_roots.is_superset(&old_roots));
        assert_eq!(new_roots, expected_roots);
        //   * labels
        let labels = |di: &DepInfos, all| {
            di.graph
                .node_references()
                .filter_map(|n| {
                    if all || real_filter[&n.id()] {
                        Some(n.weight().description.clone())
                    } else {
                        None
                    }
                })
                .collect::<collections::BTreeSet<_>>()
        };
        assert_eq!(labels(&old, false), labels(&new, true));
        //  * size
        let filtered =
            petgraph::visit::EdgeFiltered::from_fn(&old.graph, |e| !real_filter[&e.target()]);
        let filtered2 =
            petgraph::visit::EdgeFiltered::from_fn(&old.graph, |e| !real_filter[&e.source()]);
        let mut space = petgraph::algo::DfsSpace::new(&filtered);
        let new_root = NodeIndex::new(new.root);
        for (id, drv) in new.graph.node_references() {
            if id == new_root {
                continue;
            }
            let top = NodeIndex::from(path_to_old_size(drv));
            assert!(drv.size & (1u64 << top.index()) != 0);
            for child in size_to_old_nodes(drv) {
                assert!(
                    petgraph::algo::has_path_connecting(&filtered, top, child, Some(&mut space)),
                    "should not have coalesced {:?} and {:?}",
                    top,
                    child
                );
            }
            // also check edges from here
            for (id2, drv2) in new.graph.node_references() {
                if id2 == new_root {
                    continue;
                }
                let bottom = NodeIndex::from(path_to_old_size(drv2));
                let targets = size_to_old_nodes(drv2);
                let mut path_from_here_to = |targets: collections::BTreeSet<NodeIndex>| {
                    targets.iter().any(|&target| {
                        old.graph.find_edge(top, target).is_some()
                            || old.graph.edges(top).any(|edge| {
                                let intermediate = edge.target();
                                petgraph::algo::has_path_connecting(
                                    &filtered2,
                                    intermediate,
                                    target,
                                    Some(&mut space),
                                )
                            })
                    })
                };
                let should_exist = id != id2 && path_from_here_to([bottom].iter().cloned().collect());
                let may_exist = id != id2 && path_from_here_to(targets);
                let exists = new.graph.find_edge(id, id2).is_some();
                // should => exists /\ exists => may
                assert!(
                    (!should_exist || exists) && (!exists || may_exist),
                    "edge {:?} -> {:?} is debatable (expected: {:?}, acceptable: {:?})",
                    id,
                    id2,
                    should_exist,
                    may_exist
                );
            }
        }
    }
}
