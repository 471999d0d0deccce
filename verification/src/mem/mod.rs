//! Memory models: the static memory store and its snapshots.

pub mod static_mem;
pub mod static_snapshot;
