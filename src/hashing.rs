//! The 128-bit hash that labels nodes by the set of roots that reach them.
use crate::model::DepNode;
use std::hash::{Hash, Hasher};
use vstd::prelude::*;

verus! {

/// The two 64-bit digests that std's `DefaultHasher` gives when fed `state`, then
/// `("first", value)`, then `("second", value)`, read after each of the last two.
pub uninterp spec fn digest_pair(state: u128, value: u64) -> (u64, u64);

/// Relies on std's `DefaultHasher`: its `default` instances all start from the same
/// keys, so the two digests depend on `state` and `value` alone.
#[verifier::external_body]
fn default_hasher_pair(state: u128, value: u64) -> (r: (u64, u64))
    ensures
        r == digest_pair(state, value),
{
    let mut hasher = std::collections::hash_map::DefaultHasher::default();
    state.hash(&mut hasher);
    ("first", value).hash(&mut hasher);
    let first = hasher.finish();
    ("second", value).hash(&mut hasher);
    (first, hasher.finish())
}

/// The two 64-bit digests that std's `DefaultHasher` gives when fed `state`, then
/// `("first", node)`, then `("second", node)`, read after each of the last two.
pub uninterp spec fn node_digest_pair(state: u128, node: DepNode) -> (u64, u64);

/// Relies on std's `DefaultHasher` and the derived `Hash` of `DepNode`: its `default`
/// instances all start from the same keys, and the derived `Hash` feeds the node's
/// fields, so the two digests depend on `state` and `node` alone.
#[verifier::external_body]
fn default_hasher_node(state: u128, node: &DepNode) -> (r: (u64, u64))
    ensures
        r == node_digest_pair(state, *node),
{
    let mut hasher = std::collections::hash_map::DefaultHasher::default();
    state.hash(&mut hasher);
    ("first", node).hash(&mut hasher);
    let first = hasher.finish();
    ("second", node).hash(&mut hasher);
    (first, hasher.finish())
}

/// The first digest in the low 64 bits, the second in the high ones.
pub open spec fn join_digests(d: (u64, u64)) -> u128 {
    (d.0 as int + d.1 as int * 0x1_0000_0000_0000_0000) as u128
}

pub open spec fn hash_spec(state: u128, value: u64) -> u128 {
    join_digests(digest_pair(state, value))
}

fn join(d: (u64, u64)) -> (r: u128)
    ensures
        r == join_digests(d),
{
    assert(d.1 as int * 0x1_0000_0000_0000_0000 <= 0xffff_ffff_ffff_ffff_0000_0000_0000_0000)
        by (nonlinear_arith)
        requires
            d.1 <= 0xffff_ffff_ffff_ffffu64,
    ;
    (d.0 as u128) + (d.1 as u128) * 0x1_0000_0000_0000_0000u128
}

/// Mixes `value` into `state`: a 128-bit hash made of two 64-bit digests.
pub fn hash(state: u128, value: u64) -> (r: u128)
    ensures
        r == hash_spec(state, value),
{
    join(default_hasher_pair(state, value))
}

/// Mixes a node weight into `state`.
pub fn hash_node(state: u128, node: &DepNode) -> (r: u128)
    ensures
        r == join_digests(node_digest_pair(state, *node)),
{
    join(default_hasher_node(state, node))
}

/// The seed that the weights of the first `k` nodes give, mixed in from zero.
pub open spec fn node_seed(ns: Seq<DepNode>, k: int) -> u128
    decreases k,
{
    if k <= 0 {
        0
    } else {
        join_digests(node_digest_pair(node_seed(ns, k - 1), ns[k - 1]))
    }
}

} // verus!
