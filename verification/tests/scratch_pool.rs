use mnemosyne_arena::scratch::pool::{lend_front, prepare_slot, prewarm_slot};
use mnemosyne_arena::scratch::{
    AlignedVec, DEFAULT_SCRATCH_ALIGN, MAX_POOL_SLOTS, ScratchBank, ScratchPool,
};

#[test]
fn scratch_scratch_pool_single_borrow() {
    let pool = ScratchPool::<f64>::new();
    pool.with_scratch(128, |scratch| {
        assert_eq!(scratch.len(), 128, "must return exactly n elements");
        scratch[0] = 42.0;
        assert_eq!(scratch[0], 42.0);
        assert_eq!(scratch.as_ptr() as usize % DEFAULT_SCRATCH_ALIGN, 0);
    });
    assert_eq!(pool.borrow_depth(), 0);
}

#[test]
fn tests_scratch_pool_single_borrow() {
    let pool = ScratchPool::<f64>::new();
    pool.with_scratch(128, |scratch| {
        assert_eq!(scratch.len(), 128, "must return exactly n elements");
        scratch[0] = 42.0;
        assert_eq!(scratch[0], 42.0);
        assert_eq!(scratch.as_ptr() as usize % DEFAULT_SCRATCH_ALIGN, 0);
    });
    assert_eq!(pool.borrow_depth(), 0);
}

fn nested_borrows() {
    let pool = ScratchPool::<f32>::new();
    pool.with_scratch(64, |s1| {
        s1[0] = 1.0;
        assert_eq!(pool.borrow_depth(), 1);
        pool.with_scratch(128, |s2| {
            s2[0] = 2.0;
            assert_eq!(pool.borrow_depth(), 2);
            assert_eq!(s1[0], 1.0);
            assert_eq!(s2[0], 2.0);
        });
        assert_eq!(pool.borrow_depth(), 1);
    });
    assert_eq!(pool.borrow_depth(), 0);
}

#[test]
fn scratch_scratch_pool_nested_borrows() {
    nested_borrows();
}

#[test]
fn tests_scratch_pool_nested_borrows() {
    nested_borrows();
}

fn nest(pool: &ScratchPool<f64>, depth: usize) {
    if depth == 0 {
        return;
    }
    pool.with_scratch(32, |_| {
        nest(pool, depth - 1);
    });
}

#[test]
fn scratch_scratch_pool_overflow_to_owned() {
    let pool = ScratchPool::<f64>::new();
    nest(&pool, MAX_POOL_SLOTS + 1);
    assert_eq!(pool.borrow_depth(), 0);
}

#[test]
fn tests_scratch_pool_overflow_to_owned() {
    let pool = ScratchPool::<f64>::new();
    nest(&pool, MAX_POOL_SLOTS + 1);
    assert_eq!(pool.borrow_depth(), 0);
}

fn exact_length() {
    let pool = ScratchPool::<f64>::new();
    pool.with_scratch(256, |s| assert_eq!(s.len(), 256));
    pool.with_scratch(128, |s| assert_eq!(s.len(), 128));
    pool.with_scratch(512, |s| assert_eq!(s.len(), 512));
}

#[test]
fn scratch_scratch_pool_exact_length() {
    exact_length();
}

#[test]
fn tests_scratch_pool_exact_length() {
    exact_length();
}

fn no_rezero_on_reuse() {
    let pool = ScratchPool::<f64>::new();
    pool.with_scratch(64, |s| {
        for (i, v) in s.iter_mut().enumerate() {
            *v = i as f64;
        }
    });
    pool.with_scratch(64, |s| {
        assert_eq!(s[0], 0.0);
        assert_eq!(s[63], 63.0);
    });
}

#[test]
fn scratch_scratch_pool_no_rezero_on_reuse() {
    no_rezero_on_reuse();
}

#[test]
fn tests_scratch_pool_no_rezero_on_reuse() {
    no_rezero_on_reuse();
}

fn returns_value() {
    let pool = ScratchPool::<f64>::new();
    let sum = pool.with_scratch(100, |scratch| {
        for (i, v) in scratch.iter_mut().enumerate() {
            *v = i as f64;
        }
        scratch.iter().sum::<f64>()
    });
    assert_eq!(sum, (0..100).map(|i| i as f64).sum::<f64>());
}

#[test]
fn scratch_scratch_pool_returns_value() {
    returns_value();
}

#[test]
fn tests_scratch_pool_returns_value() {
    returns_value();
}

fn slot_capacity_preallocates() {
    let pool = ScratchPool::<f32>::with_slot_capacity(512);
    pool.with_scratch(256, |scratch| {
        assert_eq!(scratch.len(), 256);
        assert_eq!(scratch.as_ptr() as usize % DEFAULT_SCRATCH_ALIGN, 0);
    });
}

#[test]
fn scratch_with_slot_capacity_preallocates() {
    slot_capacity_preallocates();
}

#[test]
fn tests_with_slot_capacity_preallocates() {
    slot_capacity_preallocates();
}

#[test]
fn scratch_bank_slots_are_independent() {
    let bank = ScratchBank::<f64, 2>::new();
    bank.with_scratch::<0, _>(128, |first| {
        first[0] = 11.0;
        bank.with_scratch::<1, _>(64, |second| {
            second[0] = 29.0;
            assert_eq!(first[0], 11.0);
            assert_eq!(second[0], 29.0);
            assert_eq!(second.len(), 64);
        });
        assert_eq!(first[0], 11.0);
        assert_eq!(first.len(), 128);
    });
    assert!(bank.capacity::<0>() >= 128);
    assert!(bank.capacity::<1>() >= 64);
    assert_eq!(bank.borrow_depth::<0>(), 0);
    assert_eq!(bank.borrow_depth::<1>(), 0);
}

#[test]
fn capacity_is_readable_inside_a_live_borrow() {
    let pool = ScratchPool::<f64>::new();
    let capacity = pool.with_scratch(128, |_| pool.capacity());
    assert_eq!(capacity, 128, "slot 0 grew to exactly the requested length");
}

#[test]
fn scratch_stays_writable_after_a_reentrant_capacity_read() {
    let pool = ScratchPool::<f64>::new();
    let (capacity, written) = pool.with_scratch(64, |scratch| {
        let capacity = pool.capacity();
        scratch[0] = 7.5;
        scratch[63] = -1.25;
        (capacity, scratch[0] + scratch[63])
    });
    assert_eq!(capacity, 64);
    assert_eq!(written, 6.25);
}

#[test]
fn capacity_tracks_the_primary_slot_across_nested_borrows() {
    let pool = ScratchPool::<f32>::new();
    pool.with_scratch(32, |outer| {
        outer[0] = 1.0;
        let outer_capacity = pool.capacity();
        assert_eq!(outer_capacity, 32);
        pool.with_scratch(256, |inner| {
            inner[0] = 2.0;
            assert_eq!(
                pool.capacity(),
                32,
                "the inner borrow uses slot 1, so slot 0's capacity is unchanged"
            );
        });
        assert_eq!(outer[0], 1.0);
    });
    assert_eq!(pool.capacity(), 32);
}

#[test]
fn bank_capacity_is_readable_inside_a_live_borrow() {
    let bank = ScratchBank::<f64, 2>::new();
    let capacity = bank.with_scratch::<1, _>(48, |scratch| {
        let capacity = bank.capacity::<1>();
        scratch[0] = 3.0;
        capacity
    });
    assert_eq!(capacity, 48);
    assert_eq!(bank.capacity::<0>(), 0, "slot 0 was never borrowed");
}

#[test]
fn release_frees_every_slot_and_reports_the_bytes() {
    let pool: ScratchPool<f64> = ScratchPool::new();
    pool.with_scratch(1024, |scratch| scratch[0] = 1.0);
    let grown = pool.capacity();
    assert!(grown >= 1024, "the slot must have grown to serve the request");

    let freed = pool.release().expect("no borrow is live");
    assert!(
        freed >= grown * size_of::<f64>(),
        "released {freed} bytes against a slot of {grown} f64 elements"
    );
    assert_eq!(pool.capacity(), 0, "the slot allocation is gone");

    pool.with_scratch(16, |scratch| assert_eq!(scratch.len(), 16));
    assert!(pool.capacity() >= 16);
}

#[test]
fn release_refuses_while_a_borrow_is_live_and_frees_nothing() {
    let pool: ScratchPool<f64> = ScratchPool::new();
    pool.with_scratch(512, |scratch| scratch[0] = 1.0);
    let before = pool.capacity();
    assert!(before >= 512);

    pool.with_scratch(512, |scratch| {
        scratch[0] = 2.0;
        assert!(
            pool.release().is_none(),
            "release must refuse while its own slot is borrowed"
        );
        assert_eq!(scratch[0], 2.0);
    });

    assert_eq!(pool.capacity(), before, "a refused release must free nothing");
    assert!(pool.release().is_some(), "and succeed once the borrow ends");
}

#[test]
fn bank_release_is_all_or_nothing_across_pools() {
    let bank: ScratchBank<f64, 2> = ScratchBank::new();
    bank.with_scratch::<0, _>(512, |scratch| scratch[0] = 1.0);
    bank.with_scratch::<1, _>(256, |scratch| scratch[0] = 2.0);
    assert!(bank.capacity::<0>() >= 512 && bank.capacity::<1>() >= 256);

    bank.with_scratch::<0, _>(512, |_| {
        assert!(
            bank.release().is_none(),
            "one live borrow must block the whole bank"
        );
    });
    assert!(
        bank.capacity::<1>() >= 256,
        "the untouched pool keeps its buffer when the bank refuses"
    );

    let freed = bank.release().expect("quiescent");
    assert!(freed >= (512 + 256) * size_of::<f64>());
    assert_eq!(bank.capacity::<0>(), 0);
    assert_eq!(bank.capacity::<1>(), 0);
}

#[test]
fn scratch_pool_prewarm_grows_primary() {
    let pool = ScratchPool::<f64>::new();
    assert_eq!(pool.capacity(), 0);
    pool.prewarm(128);
    assert!(pool.capacity() >= 128);
}

#[test]
fn scratch_pool_shrink_all_slots_releases_memory() {
    let pool = ScratchPool::<u32>::new();
    pool.with_scratch(64, |_| {});
    assert!(pool.capacity() >= 64);
    pool.shrink_all_slots();
    assert_eq!(pool.capacity(), 0);
}

#[test]
fn bounded_release_keeps_the_provision_and_frees_the_headroom() {
    let pool = ScratchPool::<u64>::new();
    pool.with_scratch_bounded(100, |s| s[0] = 1);
    pool.with_scratch(300, |s| s[0] = 2);
    assert_eq!(pool.capacity(), 300);
    let freed = pool.release().expect("no borrow is live");
    assert_eq!(pool.capacity(), 300, "the slot keeps its length of 300");
    assert_eq!(freed, 0);
    pool.reset();
    let freed = pool.release().expect("no borrow is live");
    assert_eq!(freed, 300 * 8);
    assert_eq!(pool.capacity(), 0);
}

#[test]
fn total_capacity_bytes_sums_every_slot() {
    let pool = ScratchPool::<u32>::with_slot_capacity(10);
    assert_eq!(pool.total_capacity_bytes(), 4 * 10 * 4);
    assert_eq!(pool.slot_capacity(3), 10);
    assert_eq!(pool.slot_capacity(4), 0);
    assert!(pool.is_available());
}


#[test]
fn prepare_slot_grows_keeps_the_prefix_and_records_the_provision() {
    let mut slot = AlignedVec::<f64>::with_capacity(0);
    let (mirror, provision) = prepare_slot(&mut slot, 0, 0, 1000, true);
    assert_eq!(slot.len(), 1000);
    assert_eq!(mirror, 1000);
    assert_eq!(provision, 1000);
    slot.as_mut_slice()[0] = 7.0;
    slot.as_mut_slice()[999] = 9.0;

    let (mirror, provision) = prepare_slot(&mut slot, mirror, provision, 1500, true);
    assert_eq!(slot.len(), 1500);
    assert_eq!(slot.capacity(), 2000);
    assert_eq!(mirror, 2000);
    assert_eq!(provision, 1500);
    assert_eq!(slot.as_slice()[0], 7.0);
    assert_eq!(slot.as_slice()[999], 9.0);
    assert!(slot.as_slice()[1000..].iter().all(|&x| x == 0.0));

    // A smaller request that is not recorded leaves everything as it is.
    let before = slot.as_ptr();
    let (mirror2, provision2) = prepare_slot(&mut slot, mirror, provision, 64, false);
    assert_eq!((mirror2, provision2), (2000, 1500));
    assert_eq!(slot.len(), 1500);
    assert_eq!(slot.as_ptr(), before);

    // A recorded request below the provision keeps the provision.
    let (_, provision3) = prepare_slot(&mut slot, mirror, provision, 64, true);
    assert_eq!(provision3, 1500);
}

#[test]
fn lend_front_hands_out_exactly_the_front_and_keeps_the_rest() {
    let mut slot = AlignedVec::<u32>::from_slice(&[1, 2, 3, 4, 5]);
    let seen = lend_front(&mut slot, 3, |s: &mut [u32]| {
        let seen = s.to_vec();
        s[0] = 10;
        seen
    });
    assert_eq!(seen, vec![1, 2, 3]);
    assert_eq!(slot.as_slice(), &[10, 2, 3, 4, 5]);
    assert_eq!(slot.capacity(), 5);
}

#[test]
fn prewarm_slot_grows_only_a_smaller_buffer() {
    let mut slot = AlignedVec::<f32>::with_capacity(8);
    assert_eq!(prewarm_slot(&mut slot, 8, 4), 8);
    assert_eq!(slot.len(), 0);
    assert_eq!(prewarm_slot(&mut slot, 8, 100), 100);
    assert_eq!(slot.len(), 100);
    assert_eq!(slot.capacity(), 100);
}
