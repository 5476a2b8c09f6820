//! The durability policy for appends to the log.
use vstd::prelude::*;

verus! {

/// Controls how often writes are flushed to disk for durability.
#[derive(Debug, Clone, Copy, PartialEq, Eq, Structural)]
pub enum FsyncPolicy {
    /// Sync every write (strongest durability).
    Always,
    /// Sync at most once per interval, given in nanoseconds.
    Periodic(u128),
    /// Never sync automatically (fastest, least durable).
    Never,
}

/// Whether an append must be followed by a sync, given the nanoseconds
/// that have passed since the last sync.
pub open spec fn spec_sync_due(policy: FsyncPolicy, elapsed_nanos: u128) -> bool {
    match policy {
        FsyncPolicy::Always => true,
        FsyncPolicy::Never => false,
        FsyncPolicy::Periodic(interval) => elapsed_nanos >= interval,
    }
}

impl FsyncPolicy {
    /// Decides whether the write that was just appended must be synced.
    pub fn sync_due(&self, elapsed_nanos: u128) -> (due: bool)
        ensures
            due == spec_sync_due(*self, elapsed_nanos),
    {
        match self {
            FsyncPolicy::Always => true,
            FsyncPolicy::Never => false,
            FsyncPolicy::Periodic(interval) => elapsed_nanos >= *interval,
        }
    }
}

} // verus!
