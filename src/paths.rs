//! Facts about walks and reachability.
use crate::graph::{is_walk, reaches};
use vstd::prelude::*;

verus! {

pub proof fn lemma_reach_refl(es: Seq<(usize, usize)>, u: usize)
    ensures
        reaches(es, u, u),
{
    let p = seq![u];
    assert(is_walk(es, p) && p[0] == u && p.last() == u);
}

pub proof fn lemma_reach_edge(es: Seq<(usize, usize)>, a: usize, b: usize)
    requires
        es.contains((a, b)),
    ensures
        reaches(es, a, b),
{
    let p = seq![a, b];
    assert forall|i: int| 0 <= i < p.len() - 1 implies #[trigger] es.contains((p[i], p[i + 1])) by {}
    assert(is_walk(es, p) && p[0] == a && p.last() == b);
}

pub proof fn lemma_reach_extend(es: Seq<(usize, usize)>, a: usize, b: usize, c: usize)
    requires
        reaches(es, a, b),
        es.contains((b, c)),
    ensures
        reaches(es, a, c),
{
    let p = choose|p: Seq<usize>| #[trigger] is_walk(es, p) && p[0] == a && p.last() == b;
    let w = p.push(c);
    assert forall|i: int| 0 <= i < w.len() - 1 implies #[trigger] es.contains((w[i], w[i + 1])) by {
        if i < p.len() - 1 {
            assert(w[i] == p[i] && w[i + 1] == p[i + 1]);
        } else {
            assert(w[i] == b && w[i + 1] == c);
        }
    }
    assert(is_walk(es, w) && w[0] == a && w.last() == c);
}

pub proof fn lemma_reach_trans(es: Seq<(usize, usize)>, a: usize, b: usize, c: usize)
    requires
        reaches(es, a, b),
        reaches(es, b, c),
    ensures
        reaches(es, a, c),
{
    let q = choose|q: Seq<usize>| #[trigger] is_walk(es, q) && q[0] == b && q.last() == c;
    lemma_reach_along(es, a, q, q.len() as int);
}

proof fn lemma_reach_along(es: Seq<(usize, usize)>, a: usize, q: Seq<usize>, k: int)
    requires
        is_walk(es, q),
        reaches(es, a, q[0]),
        1 <= k <= q.len(),
    ensures
        reaches(es, a, q[k - 1]),
    decreases k,
{
    if k > 1 {
        lemma_reach_along(es, a, q, k - 1);
        assert(es.contains((q[k - 2], q[k - 2 + 1])));
        lemma_reach_extend(es, a, q[k - 2], q[k - 1]);
    }
}

/// Where each edge of `es1` is a walk of `es2`, so is each walk of `es1`.
pub proof fn lemma_reach_lift(es1: Seq<(usize, usize)>, es2: Seq<(usize, usize)>, u: usize, v: usize)
    requires
        forall|a: usize, b: usize| #[trigger] es1.contains((a, b)) ==> reaches(es2, a, b),
        reaches(es1, u, v),
    ensures
        reaches(es2, u, v),
{
    let p = choose|p: Seq<usize>| #[trigger] is_walk(es1, p) && p[0] == u && p.last() == v;
    lemma_walk_lift(es1, es2, p, p.len() as int);
}

proof fn lemma_walk_lift(es1: Seq<(usize, usize)>, es2: Seq<(usize, usize)>, p: Seq<usize>, k: int)
    requires
        forall|a: usize, b: usize| #[trigger] es1.contains((a, b)) ==> reaches(es2, a, b),
        is_walk(es1, p),
        1 <= k <= p.len(),
    ensures
        reaches(es2, p[0], p[k - 1]),
    decreases k,
{
    if k == 1 {
        lemma_reach_refl(es2, p[0]);
    } else {
        lemma_walk_lift(es1, es2, p, k - 1);
        assert(es1.contains((p[k - 2], p[k - 2 + 1])));
        lemma_reach_trans(es2, p[0], p[k - 2], p[k - 1]);
    }
}

/// A map of nodes that sends each edge of `es1` to an edge of `es2` sends walks to walks.
pub proof fn lemma_reach_map(
    es1: Seq<(usize, usize)>,
    es2: Seq<(usize, usize)>,
    f: spec_fn(usize) -> usize,
    u: usize,
    v: usize,
)
    requires
        forall|a: usize, b: usize| #[trigger] es1.contains((a, b)) ==> es2.contains((f(a), f(b))),
        reaches(es1, u, v),
    ensures
        reaches(es2, f(u), f(v)),
{
    let p = choose|p: Seq<usize>| #[trigger] is_walk(es1, p) && p[0] == u && p.last() == v;
    let q = p.map_values(f);
    assert forall|i: int| 0 <= i < q.len() - 1 implies #[trigger] es2.contains((q[i], q[i + 1])) by {
        assert(es1.contains((p[i], p[i + 1])));
    }
    assert(is_walk(es2, q) && q[0] == f(u) && q.last() == f(v));
}

/// A map of nodes under which each edge of `es1` becomes a walk of `es2` sends
/// walks to walks.
pub proof fn lemma_reach_lift_map(
    es1: Seq<(usize, usize)>,
    es2: Seq<(usize, usize)>,
    f: spec_fn(usize) -> usize,
    u: usize,
    v: usize,
)
    requires
        forall|a: usize, b: usize| #[trigger] es1.contains((a, b)) ==> reaches(es2, f(a), f(b)),
        reaches(es1, u, v),
    ensures
        reaches(es2, f(u), f(v)),
{
    let p = choose|p: Seq<usize>| #[trigger] is_walk(es1, p) && p[0] == u && p.last() == v;
    lemma_walk_lift_map(es1, es2, f, p, p.len() as int);
}

proof fn lemma_walk_lift_map(
    es1: Seq<(usize, usize)>,
    es2: Seq<(usize, usize)>,
    f: spec_fn(usize) -> usize,
    p: Seq<usize>,
    k: int,
)
    requires
        forall|a: usize, b: usize| #[trigger] es1.contains((a, b)) ==> reaches(es2, f(a), f(b)),
        is_walk(es1, p),
        1 <= k <= p.len(),
    ensures
        reaches(es2, f(p[0]), f(p[k - 1])),
    decreases k,
{
    if k == 1 {
        lemma_reach_refl(es2, f(p[0]));
    } else {
        lemma_walk_lift_map(es1, es2, f, p, k - 1);
        assert(es1.contains((p[k - 2], p[k - 2 + 1])));
        lemma_reach_trans(es2, f(p[0]), f(p[k - 2]), f(p[k - 1]));
    }
}

/// Each node of a walk from `u` is reached from `u`.
pub proof fn lemma_walk_prefix(es: Seq<(usize, usize)>, p: Seq<usize>, k: int)
    requires
        is_walk(es, p),
        0 <= k < p.len(),
    ensures
        reaches(es, p[0], p[k]),
{
    let q = p.subrange(0, k + 1);
    assert forall|i: int| 0 <= i < q.len() - 1 implies #[trigger] es.contains((q[i], q[i + 1])) by {
        assert(q[i] == p[i] && q[i + 1] == p[i + 1]);
        assert(es.contains((p[i], p[i + 1])));
    }
    assert(is_walk(es, q) && q[0] == p[0] && q.last() == p[k]);
}

} // verus!
