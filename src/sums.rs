//! Facts about sums of node sizes.
use crate::graph::{listed_total, sum_where};
use crate::model::DepNode;
use vstd::prelude::*;
use vstd::relations::injective;
use vstd::set_lib::{lemma_int_range, lemma_len_subset, set_int_range};

verus! {

pub proof fn lemma_sum_where_congruent(
    ns: Seq<DepNode>,
    p: spec_fn(usize) -> bool,
    q: spec_fn(usize) -> bool,
    k: int,
)
    requires
        forall|i: usize| i < k ==> #[trigger] p(i) == q(i),
    ensures
        sum_where(ns, p, k) == sum_where(ns, q, k),
    decreases k,
{
    if k > 0 {
        lemma_sum_where_congruent(ns, p, q, k - 1);
    }
}

pub proof fn lemma_listed_prefix(ns: Seq<DepNode>, o1: Seq<usize>, o2: Seq<usize>, k: int)
    requires
        0 <= k <= o1.len(),
        k <= o2.len(),
        forall|i: int| 0 <= i < k ==> o1[i] == o2[i],
    ensures
        listed_total(ns, o1, k) == listed_total(ns, o2, k),
    decreases k,
{
    if k > 0 {
        lemma_listed_prefix(ns, o1, o2, k - 1);
    }
}

pub proof fn lemma_listed_remove(ns: Seq<DepNode>, o: Seq<usize>, j: int)
    requires
        0 <= j < o.len(),
    ensures
        listed_total(ns, o, o.len() as int) == listed_total(ns, o.remove(j), o.len() - 1)
            + ns[o[j] as int].size,
    decreases o.len(),
{
    let last = o.len() - 1;
    if j == last {
        lemma_listed_prefix(ns, o, o.remove(j), last);
    } else {
        let d = o.drop_last();
        lemma_listed_remove(ns, d, j);
        let r = o.remove(j);
        assert(r.drop_last() =~= d.remove(j));
        lemma_listed_prefix(ns, r, d.remove(j), last - 1);
        lemma_listed_prefix(ns, o, d, last);
    }
}

/// Summing the sizes of a list of distinct nodes is summing over the nodes it holds.
pub proof fn lemma_listed_is_sum_where(ns: Seq<DepNode>, o: Seq<usize>, n: int)
    requires
        o.no_duplicates(),
        0 <= n <= ns.len(),
        n <= usize::MAX,
        forall|i: int| 0 <= i < o.len() ==> #[trigger] o[i] < n,
    ensures
        listed_total(ns, o, o.len() as int) == sum_where(ns, |v: usize| o.contains(v), n),
    decreases n,
{
    let p = |v: usize| o.contains(v);
    if n == 0 {
        if o.len() > 0 {
            assert(o[0] < 0);
        }
    } else if o.contains((n - 1) as usize) {
        let j = choose|j: int| 0 <= j < o.len() && o[j] == (n - 1) as usize;
        let o2 = o.remove(j);
        assert forall|a: int, b: int| 0 <= a < b < o2.len() implies o2[a] != o2[b] by {
            let a1 = if a < j { a } else { a + 1 };
            let b1 = if b < j { b } else { b + 1 };
            assert(o2[a] == o[a1] && o2[b] == o[b1]);
        }
        assert forall|i: int| 0 <= i < o2.len() implies #[trigger] o2[i] < n - 1 by {
            let i1 = if i < j { i } else { i + 1 };
            assert(o2[i] == o[i1]);
            assert(i1 != j);
        }
        lemma_listed_is_sum_where(ns, o2, n - 1);
        lemma_listed_remove(ns, o, j);
        let q2 = |v: usize| o2.contains(v);
        assert forall|i: usize| i < n - 1 implies #[trigger] p(i) == q2(i) by {
            if o.contains(i) {
                let w = choose|w: int| 0 <= w < o.len() && o[w] == i;
                assert(o[j] as int == n - 1);
                assert(o[w] != o[j]);
                let w2 = if w < j { w } else { w - 1 };
                assert(o2[w2] == i);
            }
            if o2.contains(i) {
                let w = choose|w: int| 0 <= w < o2.len() && o2[w] == i;
                let w1 = if w < j { w } else { w + 1 };
                assert(o[w1] == i);
            }
        }
        lemma_sum_where_congruent(ns, p, q2, n - 1);
    } else {
        assert forall|i: int| 0 <= i < o.len() implies #[trigger] o[i] < n - 1 by {
            if o[i] == n - 1 {
                assert(o.contains((n - 1) as usize));
            }
        }
        lemma_listed_is_sum_where(ns, o, n - 1);
    }
}

/// A list of distinct nodes below `n` has at most `n` entries.
pub proof fn lemma_distinct_below(o: Seq<usize>, n: int)
    requires
        o.no_duplicates(),
        0 <= n,
        forall|i: int| 0 <= i < o.len() ==> #[trigger] o[i] < n,
    ensures
        o.len() <= n,
{
    let f = |v: usize| v as int;
    let oi = o.map_values(f);
    assert(injective(f));
    o.lemma_no_duplicates_injective(f);
    oi.unique_seq_to_set();
    lemma_int_range(0, n);
    assert forall|x: int| oi.to_set().contains(x) implies set_int_range(0, n).contains(x) by {
        let w = choose|w: int| 0 <= w < oi.len() && oi[w] == x;
        assert(o[w] < n);
    }
    lemma_len_subset(oi.to_set(), set_int_range(0, n));
}

/// A list of distinct nodes below `n` that holds each of them has exactly `n` entries.
pub proof fn lemma_distinct_covering(o: Seq<usize>, n: int)
    requires
        o.no_duplicates(),
        0 <= n <= usize::MAX + 1,
        forall|i: int| 0 <= i < o.len() ==> #[trigger] o[i] < n,
        forall|v: usize| v < n ==> #[trigger] o.contains(v),
    ensures
        o.len() == n,
{
    lemma_distinct_below(o, n);
    let f = |v: usize| v as int;
    let oi = o.map_values(f);
    assert(injective(f));
    o.lemma_no_duplicates_injective(f);
    oi.unique_seq_to_set();
    lemma_int_range(0, n);
    assert forall|x: int| set_int_range(0, n).contains(x) implies oi.to_set().contains(x) by {
        assert(o.contains(x as usize));
        let w = choose|w: int| 0 <= w < o.len() && o[w] == x as usize;
        assert(oi[w] == x);
    }
    lemma_len_subset(set_int_range(0, n), oi.to_set());
}

pub proof fn lemma_sum_where_same_nodes(
    ns: Seq<DepNode>,
    ns2: Seq<DepNode>,
    p: spec_fn(usize) -> bool,
    k: int,
)
    requires
        0 <= k <= ns.len(),
        k <= ns2.len(),
        forall|i: int| 0 <= i < k ==> #[trigger] ns[i].size == ns2[i].size,
    ensures
        sum_where(ns, p, k) == sum_where(ns2, p, k),
    decreases k,
{
    if k > 0 {
        lemma_sum_where_same_nodes(ns, ns2, p, k - 1);
    }
}

/// Where every node satisfies `p`, the sum over `p` is the total.
pub proof fn lemma_sum_where_all(ns: Seq<DepNode>, p: spec_fn(usize) -> bool, k: int)
    requires
        0 <= k <= ns.len(),
        forall|i: usize| i < k ==> #[trigger] p(i),
    ensures
        sum_where(ns, p, k) == crate::graph::total_prefix(ns, k),
    decreases k,
{
    if k > 0 {
        lemma_sum_where_all(ns, p, k - 1);
    }
}

} // verus!
