//! Properties that relate a transformation's result to its input, beyond what a
//! single postcondition states.
use crate::condense::{
    condensed_by, label, lemma_label_same, lemma_label_seed, lemma_reach_no_incoming,
    lemma_reach_step, no_incoming,
};
use crate::condense::class_reached;
use crate::graph::{acyclic, is_walk, reaches};
use crate::infos::DepInfos;
use crate::keep::{admissible, kept_result, reaches_kept, selected};
use crate::model::NodeDescription;
use vstd::prelude::*;

verus! {

/// Condensation: two nodes that the same children of the root reach fall in the same
/// class.
pub proof fn law_same_roots_same_class(
    di: DepInfos,
    r: DepInfos,
    seed: u128,
    rts: Seq<usize>,
    cls: Seq<usize>,
    u: usize,
    v: usize,
)
    requires
        condensed_by(di, r, seed, rts, cls),
        u < di.nodes().len(),
        v < di.nodes().len(),
        forall|c: usize| #[trigger]
            di.edges().contains((di.root, c)) ==> (reaches(di.edges(), c, u) <==> reaches(
                di.edges(),
                c,
                v,
            )),
    ensures
        cls[u as int] == cls[v as int],
{
    assert forall|j: int| 0 <= j < rts.len() implies (reaches(di.edges(), #[trigger] rts[j], u)
        <==> reaches(di.edges(), rts[j], v)) by {
        assert(rts.contains(rts[j]));
    }
    lemma_label_same(seed, rts, di.edges(), u, v, rts.len() as int);
}

/// Condensation: the root of the result has no incoming edge, provided the input's
/// root had none and no node that the root reaches shares the root's label (a hash
/// collision).
pub proof fn law_condensed_root_has_no_incoming_edge(
    di: DepInfos,
    r: DepInfos,
    seed: u128,
    rts: Seq<usize>,
    cls: Seq<usize>,
)
    requires
        di.wf(),
        no_incoming(di.edges(), di.root),
        condensed_by(di, r, seed, rts, cls),
        root_label_unique(di, seed, rts),
    ensures
        no_incoming(r.edges(), r.root),
{
    let es = di.edges();
    let root = di.root;
    let n = di.nodes().len();
    let k = rts.len() as int;
    // the root and the nodes it does not reach keep the seed as their label
    assert forall|j: int| 0 <= j < k implies !reaches(es, #[trigger] rts[j], root) by {
        if reaches(es, rts[j], root) {
            lemma_reach_no_incoming(es, root, rts[j]);
            assert(rts.contains(rts[j]));
        }
    }
    lemma_label_seed(seed, rts, es, root, k);
    assert forall|x: usize| !#[trigger] r.edges().contains((x, r.root)) by {
        if r.edges().contains((x, r.root)) {
            let e = choose|e: int|
                0 <= e < es.len() && cls[#[trigger] es[e].0 as int] == x && cls[es[e].1 as int] == r.root
                    && x != r.root && !(x == r.root && es[e].0 != root);
            let a = es[e].0;
            let b = es[e].1;
            assert(a < n && b < n);
            assert(cls[b as int] == cls[root as int]);
            assert(es.contains((a, b)));
            if b == root {
                assert(false);
            } else if reaches(es, root, b) {
                assert(false);
            } else {
                if reaches(es, root, a) {
                    crate::paths::lemma_reach_extend(es, root, a, b);
                }
                assert forall|j: int| 0 <= j < k implies !reaches(es, #[trigger] rts[j], a) by {
                    assert(rts.contains(rts[j]));
                    if reaches(es, rts[j], a) {
                        lemma_reach_step(es, root, rts[j], a);
                    }
                }
                lemma_label_seed(seed, rts, es, a, k);
                assert(cls[a as int] == cls[root as int]);
            }
        }
    }
}

/// No node that the root reaches, but the root, carries the root's label: the
/// labels of the condensation did not collide with the root's.
pub open spec fn root_label_unique(di: DepInfos, seed: u128, rts: Seq<usize>) -> bool {
    forall|v: usize|
        v < di.nodes().len() && v != di.root && #[trigger] reaches(di.edges(), di.root, v) ==> label(
            seed,
            rts,
            di.edges(),
            v,
            rts.len() as int,
        ) != label(seed, rts, di.edges(), di.root, rts.len() as int)
}

proof fn lemma_condensed_walk(
    di: DepInfos,
    r: DepInfos,
    seed: u128,
    rts: Seq<usize>,
    cls: Seq<usize>,
    p: Seq<usize>,
    k: int,
)
    requires
        di.wf(),
        condensed_by(di, r, seed, rts, cls),
        root_label_unique(di, seed, rts),
        is_walk(di.edges(), p),
        p[0] == di.root,
        1 <= k <= p.len(),
    ensures
        reaches(r.edges(), r.root, cls[p[k - 1] as int]),
    decreases k,
{
    let es = di.edges();
    if k == 1 {
        crate::paths::lemma_reach_refl(r.edges(), r.root);
    } else {
        lemma_condensed_walk(di, r, seed, rts, cls, p, k - 1);
        let a = p[k - 2];
        let b = p[k - 1];
        assert(es.contains((p[k - 2], p[k - 2 + 1])));
        let e = choose|e: int| 0 <= e < es.len() && es[e] == (a, b);
        assert(es[e].0 < di.nodes().len() && es[e].1 < di.nodes().len());
        if cls[a as int] != cls[b as int] {
            crate::paths::lemma_walk_prefix(es, p, k - 2);
            if a != di.root {
                assert(cls[a as int] != cls[di.root as int]);
            }
            assert(cls[#[trigger] es[e].0 as int] == cls[a as int] && cls[es[e].1 as int] == cls[b as int]);
            assert(r.edges().contains((cls[a as int], cls[b as int])));
            crate::paths::lemma_reach_extend(r.edges(), r.root, cls[a as int], cls[b as int]);
        }
    }
}

/// Condensation keeps the size reachable from the root, and leaves every class
/// reachable, provided no node that the root reaches collides with the root's label.
pub proof fn law_condense_keeps_reachable_size(
    di: DepInfos,
    r: DepInfos,
    seed: u128,
    rts: Seq<usize>,
    cls: Seq<usize>,
)
    requires
        di.wf(),
        condensed_by(di, r, seed, rts, cls),
        root_label_unique(di, seed, rts),
    ensures
        r.connected(),
        r.reachable_size_spec() == di.reachable_size_spec(),
{
    let es = di.edges();
    assert forall|j: usize| j < r.nodes().len() implies #[trigger] reaches(r.edges(), r.root, j) by {
        assert(class_reached(di, cls, j as int));
        let v = choose|v: usize| v < cls.len() && reaches(es, di.root, v) && #[trigger] cls[v as int] == j as int;
        let p = choose|p: Seq<usize>| #[trigger] is_walk(es, p) && p[0] == di.root && p.last() == v;
        lemma_condensed_walk(di, r, seed, rts, cls, p, p.len() as int);
    }
    let reached_new = |v: usize| reaches(r.edges(), r.root, v);
    crate::sums::lemma_sum_where_all(r.nodes(), reached_new, r.nodes().len() as int);
}

/// Every child of the root in `rts` that reaches `u` reaches `v` too.
pub open spec fn roots_below(di: DepInfos, rts: Seq<usize>, u: usize, v: usize) -> bool {
    forall|c: usize| rts.contains(c) && #[trigger] reaches(di.edges(), c, u) ==> reaches(di.edges(), c, v)
}

/// The labels never collide: nodes with the same label are reached by the same
/// children of the root.
pub open spec fn labels_separate(di: DepInfos, seed: u128, rts: Seq<usize>) -> bool {
    forall|u: usize, v: usize|
        u < di.nodes().len() && v < di.nodes().len() && #[trigger] label(seed, rts, di.edges(), u, rts.len() as int)
            == #[trigger] label(seed, rts, di.edges(), v, rts.len() as int) ==> roots_below(di, rts, u, v)
}

/// Along an edge of the condensation, the set of roots only grows.
proof fn lemma_class_edge_grows(
    di: DepInfos,
    r: DepInfos,
    seed: u128,
    rts: Seq<usize>,
    cls: Seq<usize>,
    x: usize,
    y: usize,
)
    requires
        di.wf(),
        condensed_by(di, r, seed, rts, cls),
        labels_separate(di, seed, rts),
        r.edges().contains((x, y)),
    ensures
        forall|u: usize, v: usize|
            u < cls.len() && v < cls.len() && #[trigger] cls[u as int] == x && #[trigger] cls[v as int] == y
                ==> roots_below(di, rts, u, v),
{
    let es = di.edges();
    let e = choose|e: int|
        0 <= e < es.len() && cls[#[trigger] es[e].0 as int] == x && cls[es[e].1 as int] == y && x != y
            && !(x == r.root && es[e].0 != di.root);
    let a = es[e].0;
    let b = es[e].1;
    assert(a < cls.len() && b < cls.len());
    assert(es.contains((a, b)));
    assert forall|u: usize, v: usize|
        u < cls.len() && v < cls.len() && #[trigger] cls[u as int] == x && #[trigger] cls[v as int] == y
            implies roots_below(di, rts, u, v) by {
        assert(cls[u as int] == cls[a as int]);
        assert(cls[v as int] == cls[b as int]);
        assert(roots_below(di, rts, u, a));
        assert(roots_below(di, rts, b, v));
        assert forall|c: usize| rts.contains(c) && #[trigger] reaches(es, c, u) implies reaches(es, c, v) by {
            assert(reaches(es, c, a));
            crate::paths::lemma_reach_extend(es, c, a, b);
        }
    }
}

proof fn lemma_class_walk_grows(
    di: DepInfos,
    r: DepInfos,
    seed: u128,
    rts: Seq<usize>,
    cls: Seq<usize>,
    p: Seq<usize>,
    k: int,
)
    requires
        di.wf(),
        condensed_by(di, r, seed, rts, cls),
        labels_separate(di, seed, rts),
        is_walk(r.edges(), p),
        1 <= k <= p.len(),
    ensures
        forall|u: usize, v: usize|
            u < cls.len() && v < cls.len() && #[trigger] cls[u as int] == p[0] && #[trigger] cls[v as int]
                == p[k - 1] ==> roots_below(di, rts, u, v),
    decreases k,
{
    if k == 1 {
        assert forall|u: usize, v: usize|
            u < cls.len() && v < cls.len() && #[trigger] cls[u as int] == p[0] && #[trigger] cls[v as int]
                == p[k - 1] implies roots_below(di, rts, u, v) by {
            assert(cls[u as int] == cls[v as int]);
        }
    } else {
        lemma_class_walk_grows(di, r, seed, rts, cls, p, k - 1);
        assert(r.edges().contains((p[k - 2], p[k - 2 + 1])));
        lemma_class_edge_grows(di, r, seed, rts, cls, p[k - 2], p[k - 1]);
        // the middle class has a member
        let e = choose|e: int|
            0 <= e < di.edges().len() && cls[#[trigger] di.edges()[e].0 as int] == p[k - 2] && cls[di.edges()[e].1 as int]
                == p[k - 1] && p[k - 2] != p[k - 1] && !(p[k - 2] == r.root && di.edges()[e].0 != di.root);
        let m = di.edges()[e].0;
        assert(m < cls.len());
        assert forall|u: usize, v: usize|
            u < cls.len() && v < cls.len() && #[trigger] cls[u as int] == p[0] && #[trigger] cls[v as int]
                == p[k - 1] implies roots_below(di, rts, u, v) by {
            assert(roots_below(di, rts, u, m));
            assert(roots_below(di, rts, m, v));
            assert forall|c: usize| rts.contains(c) && #[trigger] reaches(di.edges(), c, u) implies reaches(
                di.edges(),
                c,
                v,
            ) by {
                assert(reaches(di.edges(), c, m));
            }
        }
    }
}

/// The condensation is acyclic, provided the labels never collide.
pub proof fn law_condensed_graph_is_acyclic(
    di: DepInfos,
    r: DepInfos,
    seed: u128,
    rts: Seq<usize>,
    cls: Seq<usize>,
)
    requires
        di.wf(),
        condensed_by(di, r, seed, rts, cls),
        labels_separate(di, seed, rts),
    ensures
        acyclic(r.edges()),
{
    let es = di.edges();
    assert forall|x: usize, y: usize| #[trigger] r.edges().contains((x, y)) implies !reaches(r.edges(), y, x) by {
        if reaches(r.edges(), y, x) {
            let p = choose|p: Seq<usize>| #[trigger] is_walk(r.edges(), p) && p[0] == y && p.last() == x;
            lemma_class_walk_grows(di, r, seed, rts, cls, p, p.len() as int);
            lemma_class_edge_grows(di, r, seed, rts, cls, x, y);
            let e = choose|e: int|
                0 <= e < es.len() && cls[#[trigger] es[e].0 as int] == x && cls[es[e].1 as int] == y && x != y
                    && !(x == r.root && es[e].0 != di.root);
            let a = es[e].0;
            let b = es[e].1;
            assert(a < cls.len() && b < cls.len());
            assert(roots_below(di, rts, a, b));
            assert(roots_below(di, rts, b, a));
            assert forall|j: int| 0 <= j < rts.len() implies (reaches(es, #[trigger] rts[j], a) <==> reaches(
                es,
                rts[j],
                b,
            )) by {
                assert(rts.contains(rts[j]));
            }
            lemma_label_same(seed, rts, es, a, b, rts.len() as int);
            assert(cls[a as int] == cls[b as int]);
        }
    }
}

/// Condensation: where the labels never collide, two nodes fall in the same class
/// exactly when the same children of the root reach them.
pub proof fn law_same_class_iff_same_roots(
    di: DepInfos,
    r: DepInfos,
    seed: u128,
    rts: Seq<usize>,
    cls: Seq<usize>,
    u: usize,
    v: usize,
)
    requires
        condensed_by(di, r, seed, rts, cls),
        labels_separate(di, seed, rts),
        u < di.nodes().len(),
        v < di.nodes().len(),
    ensures
        cls[u as int] == cls[v as int] <==> forall|c: usize| #[trigger]
            di.edges().contains((di.root, c)) ==> (reaches(di.edges(), c, u) <==> reaches(
                di.edges(),
                c,
                v,
            )),
{
    let es = di.edges();
    if cls[u as int] == cls[v as int] {
        assert(roots_below(di, rts, u, v) && roots_below(di, rts, v, u));
        assert forall|c: usize| #[trigger] es.contains((di.root, c)) implies (reaches(es, c, u) <==> reaches(
            es,
            c,
            v,
        )) by {
            assert(rts.contains(c));
        }
    }
    if forall|c: usize| #[trigger]
        es.contains((di.root, c)) ==> (reaches(es, c, u) <==> reaches(es, c, v)) {
        law_same_roots_same_class(di, r, seed, rts, cls, u, v);
    }
}

/// Filtering: where no child of the root that the filter drops reaches a node it
/// selects, the nodes of the result are the root, the selected nodes and perhaps the
/// `FilteredOut` node, and all of these are there.
pub proof fn law_kept_descriptions(di: DepInfos, r: DepInfos, kept: Seq<bool>)
    requires
        kept.len() == di.nodes().len(),
        kept_result(di, r, kept),
        forall|v: int|
            0 <= v < di.nodes().len() && di.edges().contains((di.root, v as usize)) && !kept[v]
                ==> !#[trigger] reaches_kept(di.edges(), kept, v),
    ensures
        forall|v: int| 0 <= v < di.nodes().len() && selected(di.root, kept, v) ==> exists|j: int|
            0 <= j < r.nodes().len() && #[trigger] r.nodes()[j].description == di.nodes()[v].description,
        forall|j: int| 0 <= j < r.nodes().len() ==> (#[trigger] r.nodes()[j]).description
            == NodeDescription::FilteredOut || exists|v: int|
            0 <= v < di.nodes().len() && selected(di.root, kept, v) && r.nodes()[j].description
                == di.nodes()[v].description,
{
    assert forall|v: int| 0 <= v < di.nodes().len() && selected(di.root, kept, v) implies exists|j: int|
        0 <= j < r.nodes().len() && #[trigger] r.nodes()[j].description == di.nodes()[v].description by {
        assert(admissible(di.edges(), di.root, kept, v));
    }
    assert forall|j: int| 0 <= j < r.nodes().len() implies (#[trigger] r.nodes()[j]).description
        == NodeDescription::FilteredOut || exists|v: int|
        0 <= v < di.nodes().len() && selected(di.root, kept, v) && r.nodes()[j].description
            == di.nodes()[v].description by {
        if r.nodes()[j].description != NodeDescription::FilteredOut {
            let v = choose|v: int|
                0 <= v < di.nodes().len() && admissible(di.edges(), di.root, kept, v)
                    && r.nodes()[j].description == di.nodes()[v].description;
            if !selected(di.root, kept, v) {
                assert(reaches_kept(di.edges(), kept, v));
            }
        }
    }
}

} // verus!
