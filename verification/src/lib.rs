//! Arena, scratch-buffer and segment-cache logic for the Mnemosyne allocator.

pub mod align;
pub mod arena;
pub mod huge_mapping;
pub mod scratch;
pub mod segment;

pub use align::checked_align_up;
pub use arena::{
    ArenaGeometry, SegmentLayout, acquire_segment, allocate_large_or_huge, allocate_segment,
    deallocate_large_or_huge, derive_large_or_huge_layout, init_segment_layout,
    is_valid_alloc_request, metadata_pointer_is_sound, segment_header_is_sound,
};
pub use huge_mapping::HugeMappingPool;
pub use scratch::{
    AlignedBuf, AlignedVec, DEFAULT_SCRATCH_ALIGN, Drain, IntoIter, MAX_POOL_SLOTS, ScratchBank,
    ScratchElement, ScratchPool, default_align,
};
pub use segment::huge_pool::GlobalHugePool;
pub use segment::segment_pool::{
    AcquiredSegment, BackendPools, GlobalSegmentPool, NodeSegmentPool, allocate_segment_from_pools,
    deallocate_segment, purge_segment_pool, purge_segment_pool_with_warm, release_segment_mapping,
    reset_segment_pool, try_deallocate_segment,
};
pub use segment::stack::SegmentRef;
pub use segment::stats::{ArenaMemoryStats, SegmentRelease, arena_memory_stats};
