//! Disk usage analysis of a content-addressed package store.
//!
//! The store is a graph of paths, each with a size, referring to one another, some
//! kept alive by garbage collection roots. The graph is read through [`import`],
//! its sizes corrected for hard-linked files through [`dedup`], and reduced by the
//! passes of [`reduction`], [`condense`], [`keep`] and [`tred`]: nodes that the same
//! roots keep alive are merged, small ones folded into their ancestors, redundant
//! edges removed. Each pass states what it preserves; [`laws`] states what relates
//! a pass's result to its input beyond that.
pub mod model;
pub mod graph;
pub mod paths;
pub mod sums;
pub mod infos;
pub mod import;
pub mod hashing;
pub mod reduction;
pub mod condense;
pub mod tred;
pub mod keep;
pub mod dedup;
pub mod opt;
pub mod msg;
pub mod laws;
