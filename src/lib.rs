//! Decision engine of a daemon that keeps the page cache of leaf memory
//! cgroups under a threshold by forcing reclaim, with a per-cgroup cooldown.
use vstd::prelude::*;

pub mod config;
pub mod discovery;
pub mod reclaim;
pub mod stats;
pub mod text;

verus! {

} // verus!
