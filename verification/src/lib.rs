//! Directory-aggregation engines for reclaiming disk space: a stale-subtree
//! classifier that collapses wholly-stale directory trees into summary
//! records, a streaming aggregator that groups sorted path records by their
//! parent directory, and a span splitter that detects runs of sorted paths
//! sharing a common ancestor.
use vstd::prelude::*;

pub mod classify;
pub mod group;
pub mod lines;
pub mod paths;
pub mod spans;

verus! {

/// One summarized directory or file, as printed by the span-splitting
/// pipeline: a path, its aggregate byte size, and a display name for
/// its owner.
pub struct Info {
    pub path: String,
    pub size: u64,
    pub owner: String,
}

} // verus!
