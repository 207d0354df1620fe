use mnemosyne_arena::arena::{ArenaGeometry, is_valid_alloc_request};
use mnemosyne_arena::segment::segment_pool::{
    AcquiredSegment, GlobalSegmentPool, allocate_segment_from_pools, deallocate_segment,
    release_segment_mapping, segment_user_pages, try_deallocate_segment,
};
use mnemosyne_arena::segment::stack::SegmentRef;
use mnemosyne_arena::segment::stats::SegmentRelease;

fn seg(addr: usize, numa_node: u32) -> SegmentRef {
    SegmentRef { addr, raw_alloc: addr, block_size: 0, numa_node }
}

#[test]
fn allocation_prefers_free_then_orphan_segments() {
    let mut free = GlobalSegmentPool::new();
    let mut orphans = GlobalSegmentPool::new();
    assert_eq!(allocate_segment_from_pools(&mut free, &mut orphans, 0), None);
    orphans.push_unbounded(seg(0x2000, 0));
    free.push_unbounded(seg(0x1000, 3));
    assert_eq!(
        allocate_segment_from_pools(&mut free, &mut orphans, 0),
        Some(AcquiredSegment::Free(seg(0x1000, 3)))
    );
    assert_eq!(
        allocate_segment_from_pools(&mut free, &mut orphans, 0),
        Some(AcquiredSegment::Orphan(seg(0x2000, 0)))
    );
    assert_eq!(allocate_segment_from_pools(&mut free, &mut orphans, 0), None);
}

#[test]
fn deallocation_retains_under_the_cap_and_releases_over_it() {
    let mut pool = GlobalSegmentPool::new();
    let released = |_s: SegmentRef| SegmentRelease::Released;
    assert_eq!(deallocate_segment(&mut pool, seg(0x1000, 1), 1, &released), None);
    assert_eq!(
        deallocate_segment(&mut pool, seg(0x2000, 1), 1, &released),
        Some(SegmentRelease::Released)
    );
    assert_eq!(pool.retained_count(), 1);
    let failing = |_s: SegmentRef| SegmentRelease::RetainedAfterFailure;
    assert_eq!(
        deallocate_segment(&mut pool, seg(0x3000, 1), 1, &failing),
        Some(SegmentRelease::RetainedAfterFailure)
    );
    assert_eq!(pool.retained_count(), 2, "a failed release keeps the segment");
}

#[test]
fn try_deallocation_hands_back_a_segment_whose_release_failed() {
    let mut pool = GlobalSegmentPool::new();
    assert!(try_deallocate_segment(&mut pool, seg(0x1000, 2), 1, &|_s: SegmentRef| SegmentRelease::Released));
    assert_eq!(pool.retained_count(), 1);
    assert!(try_deallocate_segment(&mut pool, seg(0x2000, 2), 1, &|_s: SegmentRef| SegmentRelease::Released));
    assert_eq!(pool.retained_count(), 1, "over the cap the segment is released");
    assert!(!try_deallocate_segment(
        &mut pool,
        seg(0x3000, 2),
        1,
        &|_s: SegmentRef| SegmentRelease::RetainedAfterFailure,
    ));
    assert_eq!(pool.retained_count(), 1, "a failed release leaves the segment with the caller");
}

#[test]
fn releasing_a_mapping_reports_the_backend_answer() {
    let s = SegmentRef { addr: 0x40_0000, raw_alloc: 0x3f_f000, block_size: 0, numa_node: 0 };
    let seen = std::cell::Cell::new((0usize, 0usize));
    let ok = release_segment_mapping(s, 8 << 20, &|raw: usize, n: usize| {
        seen.set((raw, n));
        true
    });
    assert_eq!(ok, SegmentRelease::Released);
    assert_eq!(seen.get(), (0x3f_f000, 8 << 20));
    let failed = release_segment_mapping(s, 8 << 20, &|_raw: usize, _n: usize| false);
    assert_eq!(failed, SegmentRelease::RetainedAfterFailure);
}

#[test]
fn reset_range_skips_the_header_page() {
    assert_eq!(segment_user_pages(0x40_0000, 0x1000, 0x40_0000), Some((0x40_1000, 0x3f_f000)));
    assert_eq!(segment_user_pages(usize::MAX - 10, 0x1000, 0x40_0000), None);
}

#[test]
fn request_validation_needs_a_size_and_a_power_of_two_alignment_within_a_segment() {
    let g = ArenaGeometry { page_size: 4096, segment_align: 4 << 20, max_alloc_size: 1 << 40 };
    assert!(is_valid_alloc_request(1, 1, &g));
    assert!(is_valid_alloc_request(100, 4 << 20, &g));
    assert!(!is_valid_alloc_request(0, 8, &g));
    assert!(!is_valid_alloc_request(100, 0, &g));
    assert!(!is_valid_alloc_request(100, 24, &g));
    assert!(!is_valid_alloc_request(100, 8 << 20, &g));
}

#[test]
fn backend_pools_start_empty_and_stay_apart() {
    let mut pools = mnemosyne_arena::BackendPools::new();
    assert_eq!(pools.segment.retained_count(), 0);
    assert_eq!(pools.orphan.retained_count(), 0);
    assert_eq!(pools.huge.retained_blocks(), 0);
    pools.orphan.push_unbounded(seg(0x1000, 0));
    assert_eq!(pools.segment.retained_count(), 0);
    assert_eq!(pools.orphan.retained_count(), 1);
}
