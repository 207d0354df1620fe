//! Segment-cache telemetry: the snapshot of what the caches hold and have
//! given back, and the outcome of releasing one segment mapping.

use crate::align::saturating_mul;
use crate::segment::huge_pool::GlobalHugePool;
use crate::segment::segment_pool::{GlobalSegmentPool, PoolCounter, counter_total};
use crate::segment::numa::NUMA_BUCKETS;
use vstd::prelude::*;

verus! {

/// Snapshot of the arena's segment caches.
#[derive(Clone, Copy, Debug, Default, PartialEq, Eq, Structural)]
pub struct ArenaMemoryStats {
    /// Free segments retained for reuse.
    pub retained_free_segments: usize,
    /// Retention cap the segment pool currently enforces per node.
    pub max_retained_free_segments: usize,
    /// Bytes of the retained free segments' mappings.
    pub retained_free_bytes: usize,
    /// Segments purges gave back to the system.
    pub purged_segments: usize,
    /// Purges recorded.
    pub purge_calls: usize,
    /// Bytes of the mappings purges gave back.
    pub purged_bytes: usize,
    /// Segments whose pages a reset gave back while they stayed cached.
    pub reset_segments: usize,
    /// Resets recorded.
    pub reset_calls: usize,
    /// Huge blocks retained in the huge-block cache.
    pub retained_huge_blocks: usize,
    /// Bytes of the huge blocks retained in the huge-block cache.
    pub retained_huge_bytes: usize,
}

/// Outcome of releasing one segment mapping to the system.
#[derive(Clone, Copy, Debug, PartialEq, Eq, Structural)]
pub enum SegmentRelease {
    /// The system took the mapping back.
    Released,
    /// The release failed; the segment stays owned by the pool.
    RetainedAfterFailure,
}

/// `a * b`, or `usize::MAX` when the product does not fit.
pub open spec fn sat_mul(a: nat, b: nat) -> nat {
    if a * b > usize::MAX {
        usize::MAX as nat
    } else {
        a * b
    }
}

/// The caches' counters as a snapshot; byte figures count
/// `mapping_size` bytes per segment and saturate at `usize::MAX`.
pub fn arena_memory_stats(
    pool: &GlobalSegmentPool,
    huge_pool: &GlobalHugePool,
    max_retained: usize,
    mapping_size: usize,
) -> (s: ArenaMemoryStats)
    requires
        huge_pool.wf(),
    ensures
        s.retained_free_segments == counter_total(*pool, PoolCounter::Retained, NUMA_BUCKETS as nat),
        s.max_retained_free_segments == max_retained,
        s.retained_free_bytes == sat_mul(s.retained_free_segments as nat, mapping_size as nat),
        s.purged_segments == counter_total(*pool, PoolCounter::Purged, NUMA_BUCKETS as nat),
        s.purge_calls == counter_total(*pool, PoolCounter::PurgeCalls, NUMA_BUCKETS as nat),
        s.purged_bytes == sat_mul(s.purged_segments as nat, mapping_size as nat),
        s.reset_segments == counter_total(*pool, PoolCounter::ResetSegments, NUMA_BUCKETS as nat),
        s.reset_calls == counter_total(*pool, PoolCounter::ResetCalls, NUMA_BUCKETS as nat),
        s.retained_huge_blocks == huge_pool.spec_retained_blocks(),
        s.retained_huge_bytes == (if huge_pool.spec_retained_bytes() > usize::MAX {
            usize::MAX as nat
        } else {
            huge_pool.spec_retained_bytes()
        }),
{
    let retained = pool.retained_count();
    let purged = pool.purged_count();
    ArenaMemoryStats {
        retained_free_segments: retained,
        max_retained_free_segments: max_retained,
        retained_free_bytes: saturating_mul(retained, mapping_size),
        purged_segments: purged,
        purge_calls: pool.purge_call_count(),
        purged_bytes: saturating_mul(purged, mapping_size),
        reset_segments: pool.reset_segments_count(),
        reset_calls: pool.reset_call_count(),
        retained_huge_blocks: huge_pool.retained_blocks(),
        retained_huge_bytes: huge_pool.retained_bytes(),
    }
}

} // verus!
