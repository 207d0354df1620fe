use mnemosyne_arena::arena::{
    ArenaGeometry, SegmentLayout, acquire_segment, allocate_large_or_huge, allocate_segment,
    deallocate_large_or_huge,
};
use mnemosyne_arena::segment::huge_pool::GlobalHugePool;
use mnemosyne_arena::segment::segment_pool::{
    AcquiredSegment, GlobalSegmentPool, deallocate_segment, purge_segment_pool,
    release_segment_mapping, reset_segment_pool,
};
use mnemosyne_arena::segment::stack::SegmentRef;
use mnemosyne_arena::segment::stats::SegmentRelease;
use std::cell::{Cell, RefCell};
use std::collections::HashMap;

const PAGE_SIZE: usize = 4096;
const SEGMENT_SIZE: usize = 4 << 20;
const SEGMENT_ALIGN: usize = SEGMENT_SIZE;
const MAX_ALLOC_SIZE: usize = 1 << 40;
const SEGMENT_MAPPING_SIZE: usize = 2 * SEGMENT_SIZE;

fn geometry() -> ArenaGeometry {
    ArenaGeometry { page_size: PAGE_SIZE, segment_align: SEGMENT_ALIGN, max_alloc_size: MAX_ALLOC_SIZE }
}

/// A memory backend that hands out addresses without memory behind them and
/// keeps the books a real one would: bytes mapped, calls made, and the
/// header each user block's back-pointer slot names.
struct Backend {
    next: Cell<usize>,
    mapped: Cell<usize>,
    allocate_calls: Cell<usize>,
    deallocate_calls: Cell<usize>,
    release_fails: bool,
    decommit_calls: Cell<usize>,
    decommit_bytes: Cell<usize>,
    slots: RefCell<HashMap<usize, SegmentRef>>,
    layouts: RefCell<HashMap<usize, SegmentLayout>>,
    watched_mapping: Cell<usize>,
    watched_releases: Cell<usize>,
    live_blocks: RefCell<HashMap<usize, u32>>,
}

impl Backend {
    fn new(release_fails: bool) -> Self {
        Backend {
            next: Cell::new(0x10_0000_1000),
            mapped: Cell::new(0),
            allocate_calls: Cell::new(0),
            deallocate_calls: Cell::new(0),
            release_fails,
            decommit_calls: Cell::new(0),
            decommit_bytes: Cell::new(0),
            slots: RefCell::new(HashMap::new()),
            layouts: RefCell::new(HashMap::new()),
            watched_mapping: Cell::new(0),
            watched_releases: Cell::new(0),
            live_blocks: RefCell::new(HashMap::new()),
        }
    }

    fn allocate(&self, size: usize) -> usize {
        self.allocate_calls.set(self.allocate_calls.get() + 1);
        let base = self.next.get();
        self.next.set(base + size + 2 * SEGMENT_SIZE);
        self.mapped.set(self.mapped.get() + size);
        base
    }

    fn deallocate(&self, raw: usize, size: usize) -> bool {
        self.deallocate_calls.set(self.deallocate_calls.get() + 1);
        if raw != 0 && raw == self.watched_mapping.get() {
            self.watched_releases.set(self.watched_releases.get() + 1);
            return true;
        }
        if self.release_fails {
            return false;
        }
        self.mapped.set(self.mapped.get() - size);
        true
    }

    fn slot(&self, user: usize) -> SegmentRef {
        self.slots.borrow()[&user]
    }

    fn allocate_large_or_huge(
        &self,
        huge: &mut GlobalHugePool,
        size: usize,
        align: usize,
        decommit_slack: bool,
    ) -> usize {
        allocate_large_or_huge(
            huge,
            size,
            align,
            decommit_slack,
            0,
            &geometry(),
            &|n: usize| self.allocate(n),
            &|l: SegmentLayout, raw: usize, block: usize, _fresh: bool| {
                let header = SegmentRef { addr: l.segment_addr, raw_alloc: raw, block_size: block, numa_node: 0 };
                self.slots.borrow_mut().insert(l.user_addr, header);
                self.layouts.borrow_mut().insert(l.user_addr, l);
            },
            &|raw: usize, n: usize| self.deallocate(raw, n),
            &|raw: usize, segment: usize, tail: usize, end: usize| {
                self.decommit_calls.set(self.decommit_calls.get() + 1);
                self.decommit_bytes.set(self.decommit_bytes.get() + (segment - raw) + (end - tail));
            },
        )
    }

    fn deallocate_large_or_huge(
        &self,
        huge: &mut GlobalHugePool,
        segments: &mut GlobalSegmentPool,
        segment: SegmentRef,
        from_slot: bool,
    ) -> bool {
        deallocate_large_or_huge(
            huge,
            segments,
            segment,
            from_slot,
            &geometry(),
            64,
            &|s: SegmentRef| self.deallocate(s.raw_alloc, s.block_size),
            &|s: SegmentRef| {
                release_segment_mapping(s, SEGMENT_MAPPING_SIZE, &|raw: usize, n: usize| self.deallocate(raw, n))
            },
        )
        .expect("segment metadata is sound")
    }

    fn purge(&self, segments: &mut GlobalSegmentPool, huge: &mut GlobalHugePool) -> usize {
        purge_segment_pool(
            segments,
            huge,
            0,
            &|s: SegmentRef| {
                release_segment_mapping(s, SEGMENT_MAPPING_SIZE, &|raw: usize, n: usize| self.deallocate(raw, n))
            },
            &|s: SegmentRef| self.deallocate(s.raw_alloc, s.block_size),
        )
    }
}

#[test]
fn huge_allocation_metadata_slot_round_trips_across_alignments() {
    let backend = Backend::new(false);
    let mut huge = GlobalHugePool::new();
    let mut segments = GlobalSegmentPool::new();
    for &align in &[1usize, 2, 4, 8, 16, 64, 4096, 64 * 1024, 1024 * 1024] {
        let size = 4 * 1024 * 1024;
        let user_ptr = backend.allocate_large_or_huge(&mut huge, size, align, true);
        assert!(user_ptr != 0, "allocation failed for align {align}");
        assert_eq!(user_ptr % align, 0, "user pointer not aligned to {align}");
        assert_eq!(
            user_ptr % core::mem::align_of::<usize>(),
            0,
            "user pointer not pointer-aligned for metadata slot"
        );

        let recovered = backend.slot(user_ptr);
        assert!(recovered.addr != 0, "metadata slot returned a null segment pointer for align {align}");
        let raw_ptr = recovered.raw_alloc;
        let huge_size = recovered.block_size;
        assert!(raw_ptr <= user_ptr, "raw_ptr {raw_ptr:#x} above user_ptr {user_ptr:#x} for align {align}");
        assert!(
            user_ptr + size <= raw_ptr + huge_size,
            "payload escapes mapping for align {align}"
        );
        let metadata_addr = user_ptr - core::mem::size_of::<usize>();
        assert_eq!(backend.layouts.borrow()[&user_ptr].metadata_addr, metadata_addr);
        assert!(
            metadata_addr >= recovered.addr,
            "metadata slot {metadata_addr:#x} precedes segment header {:#x} for align {align}",
            recovered.addr
        );
        assert!(metadata_addr < user_ptr, "metadata slot not strictly before user_ptr for align {align}");

        let released = backend.deallocate_large_or_huge(&mut huge, &mut segments, recovered, true);
        assert!(released, "huge release failed for align {align}");
    }
}

#[test]
fn huge_allocation_rejects_non_power_of_two_alignment() {
    let backend = Backend::new(false);
    let mut huge = GlobalHugePool::new();
    for &align in &[0usize, 3, 6, 12, 24, 48, 96] {
        let user_ptr = backend.allocate_large_or_huge(&mut huge, 4096, align, true);
        assert!(user_ptr == 0, "invalid alignment {align} should be rejected");
    }
    assert_eq!(backend.allocate_calls.get(), 0, "no mapping is requested for an invalid alignment");
}

#[test]
fn huge_allocation_consumes_tight_mapping_size() {
    let backend = Backend::new(false);
    let mut huge = GlobalHugePool::new();
    let mut segments = GlobalSegmentPool::new();
    backend.purge(&mut segments, &mut huge);
    let size = 4 * 1024 * 1024;
    let align = 8;
    let expected = size + SEGMENT_ALIGN + core::cmp::max(align, PAGE_SIZE);

    let before = backend.mapped.get();
    let user_ptr = backend.allocate_large_or_huge(&mut huge, size, align, true);
    assert!(user_ptr != 0, "tight-mapping huge allocation returned null");
    let mapped = backend.mapped.get() - before;
    assert_eq!(mapped, expected, "huge allocation slack regressed: mapped {mapped} bytes vs expected {expected}");

    let recovered = backend.slot(user_ptr);
    let released = backend.deallocate_large_or_huge(&mut huge, &mut segments, recovered, true);
    assert!(released, "tight-mapping round-trip release reported failure");
}

#[test]
fn huge_allocation_rejects_alignment_above_segment_size() {
    let backend = Backend::new(false);
    let mut huge = GlobalHugePool::new();
    let user_ptr = backend.allocate_large_or_huge(&mut huge, 4096, SEGMENT_SIZE * 2, true);
    assert!(user_ptr == 0, "above-segment alignment was accepted: {user_ptr:#x}");
}

#[test]
fn huge_allocation_rejects_zero_size() {
    let backend = Backend::new(false);
    let mut huge = GlobalHugePool::new();
    let user_ptr = backend.allocate_large_or_huge(&mut huge, 0, 8, true);
    assert!(user_ptr == 0, "zero-size huge allocation returned {user_ptr:#x}");
}

#[test]
fn huge_allocation_rejects_request_exceeding_layout_bound() {
    let backend = Backend::new(false);
    let mut huge = GlobalHugePool::new();
    let user_ptr = backend.allocate_large_or_huge(&mut huge, MAX_ALLOC_SIZE, 8, true);
    assert!(user_ptr == 0, "MAX_ALLOC_SIZE huge allocation reached backend and returned {user_ptr:#x}");
    assert_eq!(backend.allocate_calls.get(), 0);
}

#[test]
fn huge_deallocation_returns_backend_release_status() {
    let backend = Backend::new(true);
    let mut huge = GlobalHugePool::new();
    let mut segments = GlobalSegmentPool::new();
    let segment_ptr = 0x7f00_0000_0000usize;
    let segment = SegmentRef {
        addr: segment_ptr,
        raw_alloc: segment_ptr,
        block_size: SEGMENT_SIZE * 10,
        numa_node: 0,
    };
    let released = backend.deallocate_large_or_huge(&mut huge, &mut segments, segment, false);
    assert!(!released, "failing huge release backend reported success");
    assert_eq!(backend.deallocate_calls.get(), 1);
}

#[test]
fn huge_allocation_decommits_tail_slack() {
    let backend = Backend::new(false);
    let mut huge = GlobalHugePool::new();
    let mut segments = GlobalSegmentPool::new();
    let size = 4 * 1024 * 1024;
    let align = 8;
    let user_ptr = backend.allocate_large_or_huge(&mut huge, size, align, true);
    assert!(user_ptr != 0);

    let calls = backend.decommit_calls.get();
    let bytes = backend.decommit_bytes.get();
    assert!(calls >= 1, "Expected at least 1 decommit call, got {}", calls);
    assert!(bytes >= SEGMENT_SIZE, "Expected at least {} bytes decommitted, got {}", SEGMENT_SIZE, bytes);

    let recovered = backend.slot(user_ptr);
    let released = backend.deallocate_large_or_huge(&mut huge, &mut segments, recovered, true);
    assert!(released);
}

#[test]
fn test_huge_allocation_caching_and_purging() {
    let backend = Backend::new(false);
    let mut huge = GlobalHugePool::new();
    let mut segments = GlobalSegmentPool::new();
    backend.purge(&mut segments, &mut huge);

    let size = 4 * 1024 * 1024;
    let align = 8;
    let stats_start = backend.mapped.get();

    let ptr1 = backend.allocate_large_or_huge(&mut huge, size, align, false);
    assert!(ptr1 != 0);
    let stats_alloc1 = backend.mapped.get();
    assert!(stats_alloc1 > stats_start);

    let segment1 = backend.slot(ptr1);
    let raw_ptr1 = segment1.raw_alloc;
    let released1 = backend.deallocate_large_or_huge(&mut huge, &mut segments, segment1, true);
    assert!(released1);
    assert_eq!(backend.mapped.get(), stats_alloc1);

    let ptr2 = backend.allocate_large_or_huge(&mut huge, size, align, false);
    assert!(ptr2 != 0);
    assert_eq!(backend.mapped.get(), stats_alloc1);
    let segment2 = backend.slot(ptr2);
    let raw_ptr2 = segment2.raw_alloc;
    assert_eq!(raw_ptr2, raw_ptr1, "Second allocation did not reuse the cached block");

    let released2 = backend.deallocate_large_or_huge(&mut huge, &mut segments, segment2, true);
    assert!(released2);

    backend.purge(&mut segments, &mut huge);
    assert_eq!(backend.mapped.get(), stats_start);

    let ptr3 = backend.allocate_large_or_huge(&mut huge, size, align, false);
    assert!(ptr3 != 0);
    let segment3 = backend.slot(ptr3);
    let released3 = backend.deallocate_large_or_huge(&mut huge, &mut segments, segment3, true);
    assert!(released3);
    backend.purge(&mut segments, &mut huge);
    assert_eq!(backend.mapped.get(), stats_start);
}

fn allocate_fresh_segment(backend: &Backend, free: &mut GlobalSegmentPool) -> Option<SegmentRef> {
    allocate_segment(
        free,
        0,
        SEGMENT_SIZE,
        SEGMENT_MAPPING_SIZE,
        true,
        &geometry(),
        &|n: usize| backend.allocate(n),
        &|s: SegmentRef| {
            backend.live_blocks.borrow_mut().insert(s.addr, 0);
        },
        &|raw: usize, n: usize| backend.deallocate(raw, n),
        &|_addr: usize, n: usize| {
            backend.decommit_calls.set(backend.decommit_calls.get() + 1);
            backend.decommit_bytes.set(backend.decommit_bytes.get() + n);
        },
    )
}

#[test]
fn test_segment_tail_slack_decommit() {
    let backend = Backend::new(false);
    let mut free = GlobalSegmentPool::new();
    let segment = allocate_fresh_segment(&backend, &mut free).expect("segment allocation");

    let calls = backend.decommit_calls.get();
    let bytes = backend.decommit_bytes.get();
    assert!(calls >= 1, "Expected at least 1 decommit call for slack memory, got {}", calls);
    assert!(
        bytes >= SEGMENT_SIZE - 4096,
        "Expected at least {} bytes decommitted, got {}",
        SEGMENT_SIZE - 4096,
        bytes
    );

    let released =
        release_segment_mapping(segment, SEGMENT_MAPPING_SIZE, &|raw: usize, n: usize| backend.deallocate(raw, n));
    assert_eq!(released, SegmentRelease::Released);
}

#[test]
fn test_reset_segment_pool_propagates_correct_bounds() {
    let backend = Backend::new(false);
    let mut free = GlobalSegmentPool::new();
    let reset_calls = Cell::new(0usize);
    let last_reset = Cell::new((0usize, 0usize));

    let segment = allocate_fresh_segment(&backend, &mut free).expect("segment allocation");
    let pooled = deallocate_segment(&mut free, segment, 64, &|_s: SegmentRef| SegmentRelease::Released);
    assert_eq!(pooled, None, "the segment went back to the pool");

    let count = reset_segment_pool(&mut free, true, PAGE_SIZE, SEGMENT_SIZE, 0, &|start: usize, len: usize| {
        reset_calls.set(reset_calls.get() + 1);
        last_reset.set((start, len));
        true
    });
    assert_eq!(count, 1);

    let (last_ptr, last_size) = last_reset.get();
    assert_eq!(reset_calls.get(), 1, "expected exactly 1 page_reset call");
    assert_eq!(last_ptr, segment.addr + PAGE_SIZE, "expected page_reset pointer to match segment pointer plus PAGE_SIZE");
    assert_eq!(last_size, SEGMENT_SIZE - PAGE_SIZE, "expected page_reset size to match SEGMENT_SIZE minus PAGE_SIZE");

    let popped = free.pop(0).expect("segment must be in the pool");
    let released =
        release_segment_mapping(popped, SEGMENT_MAPPING_SIZE, &|raw: usize, n: usize| backend.deallocate(raw, n));
    assert_eq!(released, SegmentRelease::Released);
}

fn release_to(backend: &Backend) -> impl Fn(SegmentRef) -> SegmentRelease + '_ {
    move |s: SegmentRef| release_segment_mapping(s, SEGMENT_MAPPING_SIZE, &|raw: usize, n: usize| backend.deallocate(raw, n))
}

fn acquire(
    backend: &Backend,
    free: &mut GlobalSegmentPool,
    orphans: &mut GlobalSegmentPool,
) -> Option<AcquiredSegment> {
    acquire_segment(
        free,
        orphans,
        0,
        SEGMENT_SIZE,
        SEGMENT_MAPPING_SIZE,
        false,
        &geometry(),
        &|n: usize| backend.allocate(n),
        &|s: SegmentRef| {
            backend.live_blocks.borrow_mut().insert(s.addr, 0);
        },
        &|raw: usize, n: usize| backend.deallocate(raw, n),
        &|_addr: usize, _n: usize| {},
    )
}

const ORPHAN_LIVE_BLOCKS: u32 = 3;

fn park_orphan_with_live_blocks(backend: &Backend, free: &mut GlobalSegmentPool, orphans: &mut GlobalSegmentPool) -> SegmentRef {
    let orphan = allocate_fresh_segment(backend, free).expect("segment mapping must succeed");
    backend.live_blocks.borrow_mut().insert(orphan.addr, ORPHAN_LIVE_BLOCKS);
    backend.watched_mapping.set(orphan.raw_alloc);
    orphans.push_unbounded(orphan);
    orphan
}

fn drain_pools(
    backend: &Backend,
    free: &mut GlobalSegmentPool,
    orphans: &mut GlobalSegmentPool,
    huge: &mut GlobalHugePool,
) {
    backend.watched_mapping.set(0);
    while let Some(segment) = orphans.pop(0) {
        deallocate_segment(free, segment, 64, &release_to(backend));
    }
    backend.purge(free, huge);
}

#[test]
fn allocate_deallocate_purge_round_trip_never_releases_a_live_orphan() {
    let backend = Backend::new(false);
    let mut free = GlobalSegmentPool::new();
    let mut orphans = GlobalSegmentPool::new();
    let mut huge = GlobalHugePool::new();
    drain_pools(&backend, &mut free, &mut orphans, &mut huge);
    backend.watched_releases.set(0);
    let orphan = park_orphan_with_live_blocks(&backend, &mut free, &mut orphans);

    let segment = allocate_fresh_segment(&backend, &mut free).expect("segment mapping must succeed");
    let handed_out_orphan = segment == orphan;
    deallocate_segment(&mut free, segment, 64, &release_to(&backend));
    backend.purge(&mut free, &mut huge);

    let releases = backend.watched_releases.get();
    let still_orphaned = orphans.pop(0);
    let live_blocks = backend.live_blocks.borrow()[&orphan.addr];
    if let Some(parked) = still_orphaned {
        orphans.push_unbounded(parked);
    }
    drain_pools(&backend, &mut free, &mut orphans, &mut huge);

    assert!(
        !handed_out_orphan,
        "allocate_segment handed out an orphan holding {ORPHAN_LIVE_BLOCKS} live blocks as an empty segment"
    );
    assert_eq!(releases, 0, "the live orphan's mapping was released to the backend");
    assert_eq!(still_orphaned, Some(orphan), "the live orphan must stay parked in the orphan pool");
    assert_eq!(live_blocks, ORPHAN_LIVE_BLOCKS, "the orphan's live-block count must survive the round trip");
}

#[test]
fn acquire_segment_prefers_free_then_orphan_then_fresh_mapping() {
    let backend = Backend::new(false);
    let mut free = GlobalSegmentPool::new();
    let mut orphans = GlobalSegmentPool::new();
    let mut huge = GlobalHugePool::new();
    drain_pools(&backend, &mut free, &mut orphans, &mut huge);
    let orphan = park_orphan_with_live_blocks(&backend, &mut free, &mut orphans);
    let free_segment = allocate_fresh_segment(&backend, &mut free).expect("segment mapping must succeed");
    free.push_unbounded(free_segment);

    let first = acquire(&backend, &mut free, &mut orphans);
    let second = acquire(&backend, &mut free, &mut orphans);
    let third = acquire(&backend, &mut free, &mut orphans);
    let live_blocks = backend.live_blocks.borrow()[&orphan.addr];
    for acquired in [first, second, third].into_iter().flatten() {
        match acquired {
            AcquiredSegment::Orphan(segment) => orphans.push_unbounded(segment),
            AcquiredSegment::Free(segment) => {
                deallocate_segment(&mut free, segment, 64, &release_to(&backend));
            }
        }
    }
    drain_pools(&backend, &mut free, &mut orphans, &mut huge);

    assert_eq!(first, Some(AcquiredSegment::Free(free_segment)));
    assert_eq!(second, Some(AcquiredSegment::Orphan(orphan)));
    assert!(
        matches!(third, Some(AcquiredSegment::Free(fresh)) if fresh != free_segment && fresh != orphan),
        "with both pools empty the third acquisition must map a fresh segment, got {third:?}"
    );
    assert_eq!(live_blocks, ORPHAN_LIVE_BLOCKS, "an acquired orphan is handed out as is, live blocks intact");
}
