use mnemosyne_arena::huge_mapping::HugeMappingPool;
use mnemosyne_arena::segment::huge_pool::{
    GlobalHugePool, HUGE_POP_FIT_CAP, HUGE_SIZE_BUCKETS, bucket_block_cap, huge_bucket_index,
};
use mnemosyne_arena::segment::numa::steal_from;
use mnemosyne_arena::segment::segment_pool::{
    GlobalSegmentPool, NodeSegmentPool, REFRESH_AFTER_MISSES, miss_refreshes, purge_segment_pool,
    purge_segment_pool_with_warm, reset_segment_pool,
};
use mnemosyne_arena::segment::stack::{SegmentRef, SegmentStack};
use mnemosyne_arena::segment::stats::{SegmentRelease, arena_memory_stats};
use mnemosyne_arena::checked_align_up;

fn seg(addr: usize) -> SegmentRef {
    SegmentRef { addr, raw_alloc: addr, block_size: 0, numa_node: 0 }
}

fn seg_on(addr: usize, numa_node: u32) -> SegmentRef {
    SegmentRef { addr, raw_alloc: addr, block_size: 0, numa_node }
}

#[test]
fn test_huge_pool_log2_bucketing() {
    assert_eq!(huge_bucket_index(0), 0);
    assert_eq!(huge_bucket_index(16384), 0);
    assert_eq!(huge_bucket_index(16385), 1);
    assert_eq!(huge_bucket_index(32768), 1);
    assert_eq!(huge_bucket_index(32769), 2);
    assert_eq!(huge_bucket_index(65536), 2);
    assert_eq!(huge_bucket_index(65537), 3);
    assert_eq!(huge_bucket_index(1048576), 6);
    assert_eq!(huge_bucket_index(1048577), 7);
    assert_eq!(huge_bucket_index(16 * 1024 * 1024), 10);
    assert_eq!(huge_bucket_index(16 * 1024 * 1024 + 1), 10);
    assert_eq!(huge_bucket_index(512 * 1024 * 1024), 10);
}

#[test]
fn test_huge_pool_bucket_count_derived_from_max_cached_size() {
    assert_eq!(
        HUGE_SIZE_BUCKETS,
        huge_bucket_index(GlobalHugePool::MAX_CACHED_HUGE_SIZE) + 1
    );
    assert_eq!(HUGE_SIZE_BUCKETS, 11);
}

#[test]
fn test_huge_bucket_block_cap_bounds_retained_bytes() {
    const BUDGET: usize = GlobalHugePool::MAX_CACHED_HUGE_BYTES_PER_BUCKET;
    assert_eq!(bucket_block_cap(0), GlobalHugePool::MAX_CACHED_HUGE_BLOCKS);
    assert_eq!(bucket_block_cap(6), 256);
    assert_eq!(bucket_block_cap(HUGE_SIZE_BUCKETS - 1), 16);
    for idx in 0..HUGE_SIZE_BUCKETS {
        let cap = bucket_block_cap(idx);
        assert!((1..=GlobalHugePool::MAX_CACHED_HUGE_BLOCKS).contains(&cap));
        let max_block = 1usize << (idx + 14);
        assert!(
            cap * max_block <= BUDGET,
            "bucket {idx}: cap {cap} x {max_block} exceeds budget {BUDGET}"
        );
    }
}

#[test]
fn test_huge_pool_exact_bucket_restores_rejected_head() {
    let mut pool = GlobalHugePool::new();
    let fitting = SegmentRef::huge(0x20000, 24 * 1024);
    let small_a = SegmentRef::huge(0x30000, 17 * 1024);
    let small_b = SegmentRef::huge(0x40000, 18 * 1024);
    let small_c = SegmentRef::huge(0x50000, 19 * 1024);

    assert!(pool.try_push(fitting, 0), "fitting segment must be cached");
    for small in [small_a, small_b, small_c] {
        assert!(
            pool.try_push(small, 0),
            "undersized same-bucket segment must be cached"
        );
    }
    assert_eq!(pool.retained_blocks(), 4);
    assert_eq!(pool.retained_bytes(), (24 + 17 + 18 + 19) * 1024);

    let popped = pool
        .pop(20 * 1024, 0)
        .expect("same-size bucket must scan past undersized heads");
    assert_eq!(popped, fitting);
    assert_eq!(pool.retained_blocks(), 3);
    assert_eq!(pool.retained_bytes(), (17 + 18 + 19) * 1024);

    for (expected, expected_size) in [
        (small_c, 19 * 1024),
        (small_b, 18 * 1024),
        (small_a, 17 * 1024),
    ] {
        let restored = pool
            .pop(16 * 1024 + 1, 0)
            .expect("rejected segment must be restored to the bucket");
        assert_eq!(restored, expected);
        assert_eq!(restored.block_size, expected_size);
    }
    assert_eq!(pool.retained_blocks(), 0);
    assert_eq!(pool.retained_bytes(), 0);
    assert!(
        pool.pop(16 * 1024, 0).is_none(),
        "no segment may remain after all rejects were drained"
    );
}

#[test]
fn test_huge_pool_pop_skips_over_provisioned_buckets() {
    assert!(8 * 1024 * 1024 >= HUGE_POP_FIT_CAP * 20 * 1024);
    assert!(32 * 1024 < HUGE_POP_FIT_CAP * 20 * 1024);

    let mut pool = GlobalHugePool::new();
    let oversized = SegmentRef::huge(0x60000, 16 * 1024 * 1024);
    assert!(pool.try_push(oversized, 0), "16 MiB block must be cached");
    assert!(
        pool.pop(20 * 1024, 0).is_none(),
        "a block beyond the fit cap must miss, not over-provision"
    );
    assert_eq!(pool.retained_blocks(), 1);
    assert_eq!(pool.retained_bytes(), 16 * 1024 * 1024);

    let medium = SegmentRef::huge(0x70000, 64 * 1024);
    assert!(pool.try_push(medium, 0), "64 KiB block must be cached");
    let popped = pool
        .pop(20 * 1024, 0)
        .expect("a higher bucket within the fit cap must still serve the request");
    assert_eq!(popped, medium);
    assert_eq!(pool.retained_blocks(), 1);
    assert_eq!(pool.retained_bytes(), 16 * 1024 * 1024);

    let reclaimed = pool
        .pop(16 * 1024 * 1024, 0)
        .expect("exact-bucket request must retrieve the 16 MiB block");
    assert_eq!(reclaimed, oversized);
    assert_eq!(pool.retained_blocks(), 0);
    assert_eq!(pool.retained_bytes(), 0);
}

#[test]
fn test_arena_stats_track_huge_pool_blocks_and_bytes() {
    let segments = GlobalSegmentPool::new();
    let mut huge = GlobalHugePool::new();
    let before = arena_memory_stats(&segments, &huge, 64, 8 << 20);

    let block = SegmentRef::huge(0x90000, 24 * 1024);
    assert!(huge.try_push(block, 0), "huge block must be cached");
    let during = arena_memory_stats(&segments, &huge, 64, 8 << 20);
    assert_eq!(during.retained_huge_blocks, before.retained_huge_blocks + 1);
    assert_eq!(during.retained_huge_bytes, before.retained_huge_bytes + 24 * 1024);

    let popped = huge.pop(24 * 1024, 0).expect("cached huge block must be retrievable");
    assert_eq!(popped, block);
    let after = arena_memory_stats(&segments, &huge, 64, 8 << 20);
    assert_eq!(after.retained_huge_blocks, before.retained_huge_blocks);
    assert_eq!(after.retained_huge_bytes, before.retained_huge_bytes);
}

#[test]
fn test_arena_stats_report_runtime_retained_cap() {
    let segments = GlobalSegmentPool::new();
    let huge = GlobalHugePool::new();
    let stats = arena_memory_stats(&segments, &huge, 7, 8 << 20);
    assert_eq!(stats.max_retained_free_segments, 7);
}

#[test]
fn tests_purge_retains_segment_when_backend_release_fails() {
    let mut pool = GlobalSegmentPool::new();
    let huge = GlobalHugePool::new();
    pool.push_unbounded(seg(0x1000));

    let before = arena_memory_stats(&pool, &huge, 64, 8 << 20);
    let mut calls = 0usize;
    let counter = std::cell::Cell::new(0usize);
    let release = |_s: SegmentRef| {
        counter.set(counter.get() + 1);
        SegmentRelease::RetainedAfterFailure
    };
    let mut cache = GlobalHugePool::new();
    let purged = purge_segment_pool(&mut pool, &mut cache, 0, &release, &|_s: SegmentRef| true);
    calls += counter.get();
    let after = arena_memory_stats(&pool, &huge, 64, 8 << 20);

    assert_eq!(purged, 0);
    assert_eq!(after.retained_free_segments, before.retained_free_segments);
    assert_eq!(after.purge_calls, before.purge_calls + 1);
    assert_eq!(after.purged_segments, before.purged_segments);
    assert_eq!(after.purged_bytes, before.purged_bytes);
    assert_eq!(calls, 1);
    assert!(pool.pop(0).is_some(), "failed release segment was not retained in the pool");
}

#[test]
fn segment_purge_retains_segment_when_backend_release_fails() {
    let mut pool = GlobalSegmentPool::new();
    pool.push_unbounded(seg(0x1000));
    let mut huge = GlobalHugePool::new();
    let purged = purge_segment_pool(
        &mut pool,
        &mut huge,
        0,
        &|_s: SegmentRef| SegmentRelease::RetainedAfterFailure,
        &|_s: SegmentRef| true,
    );
    assert_eq!(purged, 0);
    assert_eq!(pool.retained_count(), 1);
    assert_eq!(pool.purge_call_count(), 1);
    assert_eq!(pool.purged_count(), 0);
}

#[test]
fn purge_releases_until_the_first_failure_and_keeps_the_rest() {
    let mut pool = GlobalSegmentPool::new();
    for addr in [0x1000, 0x2000, 0x3000, 0x4000] {
        pool.push_unbounded(seg(addr));
    }
    let mut huge = GlobalHugePool::new();
    let purged = purge_segment_pool_with_warm(
        &mut pool,
        &mut huge,
        1,
        0,
        &|s: SegmentRef| {
            if s.addr == 0x2000 {
                SegmentRelease::RetainedAfterFailure
            } else {
                SegmentRelease::Released
            }
        },
        &|_s: SegmentRef| true,
    );
    // Walk order is 0x4000 (kept warm), 0x3000 (released), 0x2000 (failed),
    // then 0x1000 goes back unvisited.
    assert_eq!(purged, 1);
    assert_eq!(pool.retained_count(), 3);
    assert_eq!(pool.purged_count(), 1);
    assert_eq!(pool.pop(0).map(|s| s.addr), Some(0x1000));
    assert_eq!(pool.pop(0).map(|s| s.addr), Some(0x2000));
    assert_eq!(pool.pop(0).map(|s| s.addr), Some(0x4000));
    assert!(pool.pop(0).is_none());
}

#[test]
fn reset_pushes_every_segment_back_and_counts_successes() {
    let mut pool = GlobalSegmentPool::new();
    for addr in [0x1000, 0x2000, 0x3000] {
        pool.push_unbounded(seg_on(addr, 5));
    }
    let count = reset_segment_pool(&mut pool, true, 0x100, 0x1000, 5, &|start: usize, _len: usize| {
        start != 0x2100
    });
    assert_eq!(count, 2);
    assert_eq!(pool.retained_count(), 3);
    assert_eq!(pool.reset_call_count(), 1);
    assert_eq!(pool.reset_segments_count(), 2);
    let skipped = reset_segment_pool(&mut pool, false, 0x100, 0x1000, 5, &|_a: usize, _n: usize| true);
    assert_eq!(skipped, 0);
    assert_eq!(pool.reset_call_count(), 2);
    assert_eq!(pool.reset_segments_count(), 2);
}

#[test]
fn node_segment_pool_take_all_detaches_whole_chain_in_one_lock() {
    let mut pool = NodeSegmentPool::new();
    for addr in [0x1000, 0x2000, 0x3000] {
        pool.push_unbounded(seg(addr));
    }
    assert_eq!(pool.retained_count(), 3);

    let chain = pool.take_all();
    assert_eq!(chain.len(), 3, "take_all must report the detached count");
    assert_eq!(pool.retained_count(), 0, "pool must be empty after take_all");
    assert_eq!(
        chain.iter().map(|s| s.addr).collect::<Vec<_>>(),
        vec![0x3000, 0x2000, 0x1000]
    );

    let empty = pool.take_all();
    assert!(empty.is_empty());
}

#[test]
fn node_pool_retention_cap_refuses_a_full_node() {
    let mut pool = NodeSegmentPool::new();
    assert!(pool.try_push_retained(seg(0x1000), 2));
    assert!(pool.try_push_retained(seg(0x2000), 2));
    assert!(!pool.try_push_retained(seg(0x3000), 2));
    assert_eq!(pool.retained_count(), 2);
    assert_eq!(pool.pop().map(|s| s.addr), Some(0x2000));
}

#[test]
fn global_pool_pops_local_node_first_then_steals_in_wrap_order() {
    let mut pool = GlobalSegmentPool::new();
    pool.push_unbounded(seg_on(0x1000, 3));
    pool.push_unbounded(seg_on(0x2000, 5));
    pool.push_unbounded(seg_on(0x3000, 1));
    assert_eq!(pool.pop(5).map(|s| s.addr), Some(0x2000));
    // Bucket 4 is empty: stealing visits 5, 6, .., 15, 0, 1 and hits 1.
    assert_eq!(pool.pop(4).map(|s| s.addr), Some(0x3000));
    assert_eq!(pool.pop(20).map(|s| s.addr), Some(0x1000));
    assert!(pool.pop(0).is_none());
}

#[test]
fn push_pop_is_lifo_and_tracks_count() {
    let mut stack = SegmentStack::new();
    assert_eq!(stack.len(), 0);
    assert!(stack.pop().is_none());
    let (a, b, c) = (seg(0x1000), seg(0x2000), seg(0x3000));
    stack.push(a);
    stack.push(b);
    stack.push(c);
    assert_eq!(stack.len(), 3);
    for expected in [c, b, a] {
        assert_eq!(stack.pop(), Some(expected));
    }
    assert_eq!(stack.len(), 0);
    assert!(stack.pop().is_none());
}

#[test]
fn push_chain_splices_in_order_and_interleaves_with_push_pop() {
    let mut stack = SegmentStack::new();
    let below = seg(0x0500);
    stack.push(below);
    let (a, b, c) = (seg(0x1000), seg(0x2000), seg(0x3000));
    stack.push_chain(vec![a, b, c]);
    assert_eq!(stack.len(), 4);
    let d = seg(0x4000);
    stack.push(d);
    assert_eq!(stack.len(), 5);
    for expected in [d, a, b, c, below] {
        assert_eq!(stack.pop(), Some(expected));
    }
    assert_eq!(stack.len(), 0);
    assert!(stack.pop().is_none());
}

#[test]
fn take_all_detaches_chain_and_count() {
    let mut stack = SegmentStack::new();
    let nodes: Vec<SegmentRef> = (0..6).map(|i| seg(0x1000 * (i + 1))).collect();
    for &n in &nodes {
        stack.push(n);
    }
    let chain = stack.take_all();
    assert_eq!(chain.len(), 6);
    assert_eq!(stack.len(), 0);
    let expected: Vec<SegmentRef> = nodes.iter().rev().copied().collect();
    assert_eq!(chain, expected);
}

#[test]
fn steal_from_visits_every_nonlocal_bucket_once_in_wrap_order() {
    let mut visited = Vec::new();
    let result: Option<()> = steal_from(14, |node| {
        visited.push(node);
        None
    });

    assert!(result.is_none());
    assert_eq!(visited, vec![15, 0, 1, 2, 3, 4, 5, 6, 7, 8, 9, 10, 11, 12, 13]);
}

#[test]
fn steal_from_stops_on_first_hit() {
    let mut visited = Vec::new();
    let result = steal_from(2, |node| {
        visited.push(node);
        (node == 5).then_some(node)
    });

    assert_eq!(result, Some(5));
    assert_eq!(visited, vec![3, 4, 5]);
}

#[test]
fn huge_mapping_pool_serves_within_twice_the_request() {
    let mut pool = HugeMappingPool::new();
    assert!(pool.try_push(0x10_0000, 4096));
    assert!(pool.try_push(0x20_0000, 10_000));
    assert_eq!(pool.try_pop(2000), None, "4096 is more than twice 2000");
    assert_eq!(pool.try_pop(2048), Some((0x10_0000, 4096)));
    assert_eq!(pool.try_pop(6000), Some((0x20_0000, 10_000)));
    assert_eq!(pool.try_pop(6000), None);
}

#[test]
fn huge_mapping_pool_refuses_when_every_slot_is_taken() {
    let mut pool = HugeMappingPool::new();
    for i in 0..8 {
        assert!(pool.try_push(0x1000 * (i + 2), 4096));
    }
    assert!(!pool.try_push(0x9_0000, 4096));
}

#[test]
fn checked_align_up_rounds_to_the_next_multiple() {
    assert_eq!(checked_align_up(0, 64), Some(0));
    assert_eq!(checked_align_up(1, 64), Some(64));
    assert_eq!(checked_align_up(64, 64), Some(64));
    assert_eq!(checked_align_up(usize::MAX, 64), None);
}

#[test]
fn miss_count_refreshes_once_every_thirty_two_misses() {
    let mut misses = 0u32;
    let mut refreshes = 0usize;
    for i in 0..64u32 {
        let (refresh, next) = miss_refreshes(misses);
        if refresh {
            refreshes += 1;
            assert!(i == 31 || i == 63, "refresh at miss {}", i);
        }
        misses = next;
    }
    assert_eq!(refreshes, 2);
    assert_eq!(misses, 0);
    assert_eq!(miss_refreshes(REFRESH_AFTER_MISSES), (true, 0));
    assert_eq!(miss_refreshes(3), (false, 4));
}

#[test]
fn pop_refreshing_hits_local_bucket_without_counting_a_miss() {
    let mut pool = GlobalSegmentPool::new();
    pool.push_unbounded(seg_on(0x1000, 2));
    let mut misses = 7u32;
    let called = std::cell::Cell::new(false);
    let refresh = || {
        called.set(true);
        5u32
    };
    assert_eq!(pool.pop_refreshing(2, &mut misses, &refresh), Some(seg_on(0x1000, 2)));
    assert_eq!(misses, 7);
    assert!(!called.get());
}

#[test]
fn pop_refreshing_counts_a_miss_and_steals_from_the_next_bucket() {
    let mut pool = GlobalSegmentPool::new();
    pool.push_unbounded(seg_on(0x2000, 4));
    pool.push_unbounded(seg_on(0x3000, 9));
    let mut misses = 0u32;
    let called = std::cell::Cell::new(false);
    let refresh = || {
        called.set(true);
        9u32
    };
    // No refresh yet: the steal walks on from bucket 3 and finds bucket 4.
    assert_eq!(pool.pop_refreshing(3, &mut misses, &refresh), Some(seg_on(0x2000, 4)));
    assert_eq!(misses, 1);
    assert!(!called.get());
}

#[test]
fn pop_refreshing_rereads_the_node_on_the_thirty_second_miss() {
    let mut pool = GlobalSegmentPool::new();
    pool.push_unbounded(seg_on(0x2000, 4));
    pool.push_unbounded(seg_on(0x3000, 9));
    let mut misses = REFRESH_AFTER_MISSES;
    let called = std::cell::Cell::new(false);
    let refresh = || {
        called.set(true);
        9u32
    };
    // The fresh node is 9, so its bucket is tried before the steal from 3 would reach 4.
    assert_eq!(pool.pop_refreshing(3, &mut misses, &refresh), Some(seg_on(0x3000, 9)));
    assert_eq!(misses, 0);
    assert!(called.get());
}
