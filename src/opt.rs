//! Deciding cheaply whether the store has been optimised with hard links.
use crate::graph::{node_at, node_count};
use crate::infos::DepInfos;
use crate::model::NodeKind;
use vstd::prelude::*;

verus! {

/// An entry of the store's `.links` directory, as the filesystem describes it.
#[derive(Debug, Clone, Copy, PartialEq, Eq, Structural)]
pub enum LinkEntry {
    /// A regular file with this many hard links.
    File(u64),
    /// Anything else.
    Other,
}

/// How many entries of `.links` are looked at.
pub const LINKS_SAMPLE: usize = 10;

/// The verdict on the entries from `i` on, among the first `LINKS_SAMPLE`.
pub open spec fn verdict_from(es: Seq<LinkEntry>, i: int) -> Option<bool>
    decreases LINKS_SAMPLE - i,
{
    if i >= LINKS_SAMPLE {
        Some(false)
    } else if i >= es.len() {
        None
    } else {
        match es[i] {
            LinkEntry::Other => None,
            LinkEntry::File(n) => if n > 1 {
                Some(true)
            } else {
                verdict_from(es, i + 1)
            },
        }
    }
}

/// Whether the store is optimised, from the first entries of its `.links` directory
/// in the order they were read: `Some(true)` at the first file with more than one
/// link, `None` at anything but a file or when fewer than `LINKS_SAMPLE` entries
/// exist, and `Some(false)` when `LINKS_SAMPLE` files all have a single link.
pub fn optimisation_verdict(entries: &Vec<LinkEntry>) -> (r: Option<bool>)
    ensures
        r == verdict_from(entries@, 0),
{
    let mut i: usize = 0;
    while i < LINKS_SAMPLE
        invariant
            i <= LINKS_SAMPLE,
            verdict_from(entries@, 0) == verdict_from(entries@, i as int),
        decreases LINKS_SAMPLE - i,
    {
        if i >= entries.len() {
            return None;
        }
        match entries[i] {
            LinkEntry::Other => {
                return None;
            },
            LinkEntry::File(n) => {
                if n > 1 {
                    return Some(true);
                }
            },
        }
        i += 1;
    }
    Some(false)
}

/// The first store path of the graph, whose parent directory holds `.links`.
pub fn first_store_path(di: &DepInfos) -> (r: Option<usize>)
    ensures
        r.is_some() ==> r.unwrap() < di.nodes().len() && di.nodes()[r.unwrap() as int].description.kind_of()
            == NodeKind::Path && forall|j: int|
            0 <= j < r.unwrap() ==> #[trigger] di.nodes()[j].description.kind_of() != NodeKind::Path,
        r.is_none() ==> forall|j: int|
            0 <= j < di.nodes().len() ==> #[trigger] di.nodes()[j].description.kind_of() != NodeKind::Path,
{
    let n = node_count(&di.graph);
    let mut i: usize = 0;
    while i < n
        invariant
            n == di.nodes().len(),
            i <= n,
            forall|j: int| 0 <= j < i ==> #[trigger] di.nodes()[j].description.kind_of() != NodeKind::Path,
        decreases n - i,
    {
        if node_at(&di.graph, i).kind() == NodeKind::Path {
            return Some(i);
        }
        i += 1;
    }
    None
}

} // verus!
