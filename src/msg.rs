//! The switch that silences informational messages.
use std::sync::atomic::{AtomicBool, Ordering};
use vstd::prelude::*;

verus! {

/// Whether informational messages are silenced, as `flag` says.
pub fn quiet(flag: &AtomicBool) -> bool {
    flag.load(Ordering::Relaxed)
}

/// Silences informational messages, or lets them through.
pub fn set_quiet(flag: &AtomicBool, x: bool) {
    flag.store(x, Ordering::Relaxed);
}

} // verus!
