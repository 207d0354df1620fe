use mnemosyne_arena::arena::{
    ArenaGeometry, derive_large_or_huge_layout, init_segment_layout, metadata_pointer_is_sound,
    segment_header_is_sound,
};

const PAGE: usize = 4096;
const SEGMENT: usize = 4 << 20;

fn geometry() -> ArenaGeometry {
    ArenaGeometry { page_size: PAGE, segment_align: SEGMENT, max_alloc_size: 1 << 40 }
}

#[test]
fn layout_adds_segment_slack_and_a_page_or_the_alignment() {
    let g = geometry();
    assert_eq!(derive_large_or_huge_layout(100, 8, &g), Some((100 + SEGMENT + PAGE, 8)));
    assert_eq!(
        derive_large_or_huge_layout(100, 2 * PAGE, &g),
        Some((100 + SEGMENT + 2 * PAGE, 2 * PAGE))
    );
    assert_eq!(derive_large_or_huge_layout(usize::MAX - 10, 8, &g), None);
    let small = ArenaGeometry { max_alloc_size: SEGMENT + PAGE + 99, ..g };
    assert_eq!(derive_large_or_huge_layout(100, 8, &small), None);
    assert_eq!(derive_large_or_huge_layout(99, 8, &small), Some((SEGMENT + PAGE + 99, 8)));
}

#[test]
fn segment_layout_places_header_slot_and_block() {
    let g = geometry();
    let raw = 0x1234_5000usize;
    let size = 10_000;
    let (total, align) = derive_large_or_huge_layout(size, 64, &g).unwrap();
    let l = init_segment_layout(raw, total, align, size, &g).unwrap();
    let header = (raw + SEGMENT - 1) & !(SEGMENT - 1);
    assert_eq!(l.segment_addr, header);
    assert_eq!(l.user_addr, header + PAGE);
    assert_eq!(l.metadata_addr, l.user_addr - core::mem::size_of::<usize>());
    assert_eq!(l.tail_slack_start, l.user_addr + 3 * PAGE);
    assert_eq!(l.mapping_end, raw + total);
    assert!(l.user_addr + size <= l.mapping_end);
    assert!(segment_header_is_sound(l.segment_addr, raw, &g));
    assert!(metadata_pointer_is_sound(l.segment_addr, &g));
}

#[test]
fn segment_layout_honors_large_alignment() {
    let g = geometry();
    let raw = 0x4000_0000usize + PAGE;
    let align = 1 << 16;
    let (total, _) = derive_large_or_huge_layout(1, align, &g).unwrap();
    let l = init_segment_layout(raw, total, align, 1, &g).unwrap();
    assert_eq!(l.user_addr % align, 0);
    assert_eq!(l.segment_addr, 0x4040_0000);
    assert_eq!(l.user_addr, 0x4041_0000);
    assert!(l.user_addr + 1 <= l.mapping_end);
}

#[test]
fn segment_layout_refuses_addresses_past_the_end() {
    let g = geometry();
    assert_eq!(init_segment_layout(usize::MAX - 10, 100, 8, 1, &g), None);
}

#[test]
fn release_checks_reject_corrupt_headers() {
    let g = geometry();
    assert!(!metadata_pointer_is_sound(0, &g));
    assert!(!metadata_pointer_is_sound(SEGMENT + 8, &g));
    assert!(metadata_pointer_is_sound(3 * SEGMENT, &g));
    assert!(!segment_header_is_sound(SEGMENT, 0, &g));
    assert!(!segment_header_is_sound(SEGMENT, SEGMENT + 1, &g));
    assert!(!segment_header_is_sound(2 * SEGMENT, SEGMENT, &g));
    assert!(segment_header_is_sound(2 * SEGMENT, SEGMENT + 1, &g));
}

use mnemosyne_arena::arena::{
    CorruptSegment, allocate_large_or_huge, allocate_segment, deallocate_large_or_huge,
    place_segment,
};
use mnemosyne_arena::segment::huge_pool::GlobalHugePool;
use mnemosyne_arena::segment::segment_pool::GlobalSegmentPool;
use mnemosyne_arena::segment::stack::SegmentRef;
use mnemosyne_arena::segment::stats::SegmentRelease;
use std::cell::{Cell, RefCell};

#[test]
fn huge_allocation_uses_a_fresh_mapping_then_the_cache() {
    let g = geometry();
    let mut huge = GlobalHugePool::new();
    let mapped = Cell::new(0usize);
    let decommits = RefCell::new(Vec::new());
    let allocate = |n: usize| {
        mapped.set(n);
        0x7000_1000usize
    };
    let init = |_l, _raw: usize, _block: usize, _fresh: bool| {};
    let release = |_raw: usize, _n: usize| true;
    let decommit = |raw: usize, seg: usize, tail: usize, end: usize| {
        decommits.borrow_mut().push((raw, seg, tail, end))
    };
    let user = allocate_large_or_huge(
        &mut huge, 5000, 64, true, 0, &g, &allocate, &init, &release, &decommit,
    );
    assert_eq!(mapped.get(), 5000 + SEGMENT + PAGE);
    assert_eq!(user % 64, 0);
    assert_eq!(user, 0x7040_0000 + PAGE);
    assert_eq!(decommits.borrow().len(), 1);

    let block = SegmentRef {
        addr: 0x7040_0000,
        raw_alloc: 0x7000_1000,
        block_size: 5000 + SEGMENT + PAGE,
        numa_node: 0,
    };
    let no_release = |_s: SegmentRef| false;
    let no_segment_release = |_s: SegmentRef| SegmentRelease::Released;
    let mut segments = GlobalSegmentPool::new();
    assert_eq!(
        deallocate_large_or_huge(
            &mut huge, &mut segments, block, true, &g, 4, &no_release, &no_segment_release,
        ),
        Ok(true)
    );
    assert_eq!(huge.retained_blocks(), 1);

    mapped.set(0);
    let again = allocate_large_or_huge(
        &mut huge, 5000, 64, true, 0, &g, &allocate, &init, &release, &decommit,
    );
    assert_eq!(again, user, "the cached mapping is reused");
    assert_eq!(mapped.get(), 0, "no new mapping was made");
    assert_eq!(decommits.borrow().len(), 1, "a cached mapping is not decommitted");
    assert_eq!(huge.retained_blocks(), 0);
}

#[test]
fn huge_allocation_fails_when_the_backend_has_no_memory() {
    let g = geometry();
    let mut huge = GlobalHugePool::new();
    let user = allocate_large_or_huge(
        &mut huge,
        100,
        8,
        false,
        0,
        &g,
        &|_n: usize| 0usize,
        &|_l, _r: usize, _b: usize, _f: bool| {},
        &|_r: usize, _n: usize| true,
        &|_a: usize, _b: usize, _c: usize, _d: usize| {},
    );
    assert_eq!(user, 0);
}

#[test]
fn huge_release_refuses_corrupt_metadata() {
    let g = geometry();
    let mut huge = GlobalHugePool::new();
    let mut segments = GlobalSegmentPool::new();
    let bad_slot = SegmentRef { addr: SEGMENT + 8, raw_alloc: SEGMENT, block_size: 1, numa_node: 0 };
    assert_eq!(
        deallocate_large_or_huge(
            &mut huge, &mut segments, bad_slot, true, &g, 4, &|_s: SegmentRef| true,
            &|_s: SegmentRef| SegmentRelease::Released,
        ),
        Err(CorruptSegment::MetadataPointer)
    );
    let bad_header = SegmentRef { addr: 2 * SEGMENT, raw_alloc: SEGMENT, block_size: 1, numa_node: 0 };
    assert_eq!(
        deallocate_large_or_huge(
            &mut huge, &mut segments, bad_header, true, &g, 4, &|_s: SegmentRef| true,
            &|_s: SegmentRef| SegmentRelease::Released,
        ),
        Err(CorruptSegment::Header)
    );
    let null = SegmentRef { addr: 0, raw_alloc: 0, block_size: 0, numa_node: 0 };
    assert_eq!(
        deallocate_large_or_huge(
            &mut huge, &mut segments, null, false, &g, 4, &|_s: SegmentRef| true,
            &|_s: SegmentRef| SegmentRelease::Released,
        ),
        Ok(false)
    );
}

#[test]
fn oversized_huge_block_goes_back_to_the_system() {
    let g = geometry();
    let mut huge = GlobalHugePool::new();
    let mut segments = GlobalSegmentPool::new();
    let block = SegmentRef {
        addr: 2 * SEGMENT,
        raw_alloc: 2 * SEGMENT - 16,
        block_size: 64 << 20,
        numa_node: 0,
    };
    let released = Cell::new(false);
    assert_eq!(
        deallocate_large_or_huge(
            &mut huge,
            &mut segments,
            block,
            true,
            &g,
            4,
            &|_s: SegmentRef| {
                released.set(true);
                true
            },
            &|_s: SegmentRef| SegmentRelease::Released,
        ),
        Ok(true)
    );
    assert!(released.get(), "a block above the cache's size limit is unmapped");
    assert_eq!(huge.retained_blocks(), 0);
}

#[test]
fn fresh_segment_is_aligned_and_its_slack_decommitted() {
    let g = geometry();
    let raw = 0x1000_3000usize;
    let p = place_segment(raw, SEGMENT, 2 * SEGMENT, &g).unwrap();
    assert_eq!(p.segment_addr, 0x1040_0000);
    assert_eq!(p.head_slack, 0x1040_0000 - raw);
    assert_eq!(p.tail_slack_start, 0x1080_0000);
    assert_eq!(p.mapping_end, raw + 2 * SEGMENT);

    let mut free = GlobalSegmentPool::new();
    let decommits = RefCell::new(Vec::new());
    let inits = Cell::new(0);
    let s = allocate_segment(
        &mut free,
        3,
        SEGMENT,
        2 * SEGMENT,
        true,
        &g,
        &|_n: usize| raw,
        &|_s: SegmentRef| inits.set(inits.get() + 1),
        &|_r: usize, _n: usize| true,
        &|a: usize, n: usize| decommits.borrow_mut().push((a, n)),
    )
    .unwrap();
    assert_eq!(s, SegmentRef { addr: 0x1040_0000, raw_alloc: raw, block_size: 0, numa_node: 3 });
    assert_eq!(inits.get(), 1);
    assert_eq!(
        *decommits.borrow(),
        vec![(raw, 0x1040_0000 - raw), (0x1080_0000, raw + 2 * SEGMENT - 0x1080_0000)]
    );

    free.push_unbounded(s);
    let reused = allocate_segment(
        &mut free,
        3,
        SEGMENT,
        2 * SEGMENT,
        true,
        &g,
        &|_n: usize| 0,
        &|_s: SegmentRef| inits.set(inits.get() + 1),
        &|_r: usize, _n: usize| true,
        &|a: usize, n: usize| decommits.borrow_mut().push((a, n)),
    );
    assert_eq!(reused, Some(s));
    assert_eq!(inits.get(), 2, "a free segment's header is re-initialized");
    assert_eq!(decommits.borrow().len(), 2);
}
