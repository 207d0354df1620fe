use mnemosyne_arena::scratch::aligned_vec::align_offset;
use mnemosyne_arena::scratch::{AlignedVec, DEFAULT_SCRATCH_ALIGN};

#[test]
fn scratch_aligned_vec_capacity_and_alignment() {
    let mut v = AlignedVec::<f64>::with_capacity(256);
    v.ensure_len(256);
    assert_eq!(v.len(), 256);
    assert!(v.capacity() >= 256);
    assert_eq!(v.as_mut_ptr() % DEFAULT_SCRATCH_ALIGN, 0);
}

#[test]
fn tests_aligned_vec_capacity_and_alignment() {
    let mut v = AlignedVec::<f64>::with_capacity(256);
    v.ensure_len(256);
    assert_eq!(v.len(), 256);
    assert!(v.capacity() >= 256);
    assert_eq!(v.as_mut_ptr() % DEFAULT_SCRATCH_ALIGN, 0);
}

#[test]
fn scratch_aligned_vec_growth_preserves_data() {
    let mut v = AlignedVec::<f32>::with_capacity(4);
    v.ensure_len(4);
    v.as_mut_slice().copy_from_slice(&[1.0, 2.0, 3.0, 4.0]);
    v.ensure_len(8);
    assert_eq!(&v.as_slice()[..4], &[1.0, 2.0, 3.0, 4.0]);
    assert_eq!(v.len(), 8);
}

#[test]
fn tests_aligned_vec_growth_preserves_data() {
    let mut v = AlignedVec::<f32>::with_capacity(4);
    v.ensure_len(4);
    v.as_mut_slice().copy_from_slice(&[1.0, 2.0, 3.0, 4.0]);
    v.ensure_len(8);
    assert_eq!(&v.as_slice()[..4], &[1.0, 2.0, 3.0, 4.0]);
    assert_eq!(v.len(), 8);
}

#[test]
fn scratch_aligned_vec_zero_capacity_is_valid() {
    let v = AlignedVec::<f32>::dangling();
    assert_eq!(v.len(), 0);
    assert!(v.is_empty());
    assert_eq!(v.capacity(), 0);
}

#[test]
fn tests_aligned_vec_zero_capacity_is_valid() {
    let v = AlignedVec::<f32>::dangling();
    assert_eq!(v.len(), 0);
    assert!(v.is_empty());
    assert_eq!(v.capacity(), 0);
}

#[test]
fn scratch_aligned_vec_into_vec() {
    let mut v = AlignedVec::<f64>::with_capacity(4);
    v.ensure_len(4);
    v.as_mut_slice().copy_from_slice(&[1.0, 2.0, 3.0, 4.0]);
    let vec = v.into_vec();
    assert_eq!(vec, vec![1.0, 2.0, 3.0, 4.0]);
}

#[test]
fn tests_aligned_vec_into_vec() {
    let mut v = AlignedVec::<f64>::with_capacity(4);
    v.ensure_len(4);
    let expected = [1.0, 2.0, 3.0, 4.0];
    v.as_mut_slice().copy_from_slice(&expected);
    let vec = v.into_vec();
    assert_eq!(vec.as_slice(), expected);
    assert_eq!(vec.len(), expected.len());
}

#[test]
fn aligned_vec_clear_resets_len_without_reallocating() {
    let mut v = AlignedVec::<f32>::zeroed(16);
    let ptr_before = v.as_mut_ptr();
    let cap_before = v.capacity();
    v.clear();
    assert_eq!(v.len(), 0);
    assert!(v.is_empty());
    assert_eq!(v.capacity(), cap_before);
    assert_eq!(v.as_mut_ptr(), ptr_before);
}

#[test]
fn aligned_vec_push_appends_elements() {
    let mut v = AlignedVec::<f64>::with_capacity(4);
    for i in 0..4_u64 {
        v.push(i as f64);
    }
    assert_eq!(v.len(), 4);
    assert_eq!(&v[..], &[0.0, 1.0, 2.0, 3.0]);
}

#[test]
fn aligned_vec_push_grows_when_capacity_exceeded() {
    let mut v = AlignedVec::<f32>::with_capacity(2);
    v.push(1.0);
    v.push(2.0);
    v.push(3.0);
    assert_eq!(v.len(), 3);
    assert!(v.capacity() >= 3);
    assert_eq!(&v[..], &[1.0_f32, 2.0, 3.0]);
}

#[test]
fn aligned_vec_extend_from_slice_appends_all() {
    let mut v = AlignedVec::<f64>::with_capacity(4);
    v.extend_from_slice(&[1.0, 2.0, 3.0]);
    v.extend_from_slice(&[4.0, 5.0]);
    assert_eq!(v.len(), 5);
    assert_eq!(&v[..], &[1.0, 2.0, 3.0, 4.0, 5.0]);
}

#[test]
fn aligned_vec_clear_then_extend_reuses_allocation() {
    let mut v = AlignedVec::<f64>::with_capacity(8);
    v.extend_from_slice(&[10.0, 20.0, 30.0]);
    let cap_after_first_fill = v.capacity();
    let ptr_after_first_fill = v.as_mut_ptr();
    v.clear();
    v.extend_from_slice(&[1.0, 2.0]);
    assert_eq!(v.capacity(), cap_after_first_fill);
    assert_eq!(v.as_mut_ptr(), ptr_after_first_fill);
    assert_eq!(&v[..], &[1.0, 2.0]);
}

#[test]
fn aligned_vec_truncate_shrinks_without_reallocating() {
    let mut v = AlignedVec::<f32>::zeroed(8);
    v.as_mut_slice()
        .copy_from_slice(&[1.0, 2.0, 3.0, 4.0, 5.0, 6.0, 7.0, 8.0]);
    let cap_before = v.capacity();
    v.truncate(3);
    assert_eq!(v.len(), 3);
    assert_eq!(v.capacity(), cap_before);
    assert_eq!(&v[..], &[1.0_f32, 2.0, 3.0]);
}

#[test]
fn aligned_vec_extend_from_iter_appends_mapped_values() {
    let mut v = AlignedVec::<f32>::with_capacity(4);
    v.extend_from_iter((1..=4_u32).map(|x| x as f32 * 0.5).collect());
    assert_eq!(&v[..], &[0.5, 1.0, 1.5, 2.0]);
}

#[test]
fn aligned_vec_push_grows_and_preserves_order() {
    let mut v = AlignedVec::<f32>::with_capacity(2);
    for i in 0..9 {
        v.push(i as f32);
    }
    assert_eq!(v.len(), 9);
    assert!(v.capacity() >= 9);
    assert_eq!(v.as_slice(), &[0.0, 1.0, 2.0, 3.0, 4.0, 5.0, 6.0, 7.0, 8.0]);
    assert_eq!(v.as_mut_ptr() % DEFAULT_SCRATCH_ALIGN, 0);
}

#[test]
fn aligned_vec_extend_from_slice_appends_after_existing() {
    let mut v = AlignedVec::<u32>::from_slice(&[1, 2, 3]);
    v.extend_from_slice(&[4, 5]);
    v.extend_from_slice(&[]);
    assert_eq!(v.as_slice(), &[1, 2, 3, 4, 5]);
}

#[test]
fn aligned_vec_from_slice_copies_the_source() {
    let source = [1.5_f64, 2.5, 3.5];
    let mut v = AlignedVec::from_slice(&source);
    v.as_mut_slice()[0] = 9.0;
    assert_eq!(source[0], 1.5);
    assert_eq!(v.as_slice(), &[9.0, 2.5, 3.5]);
}

#[test]
fn aligned_vec_filled_writes_every_element() {
    let v = AlignedVec::filled(5, 7_u8);
    assert_eq!(v.as_slice(), &[7, 7, 7, 7, 7]);
    assert_eq!(AlignedVec::filled(0, 7_u8).len(), 0);
}

#[test]
fn aligned_vec_resize_grows_with_value_and_shrinks_in_place() {
    let mut v = AlignedVec::<i32>::from_slice(&[1, 2]);
    v.resize(5, -1);
    assert_eq!(v.as_slice(), &[1, 2, -1, -1, -1]);
    let grown = v.capacity();
    v.resize(2, 0);
    assert_eq!(v.as_slice(), &[1, 2]);
    assert_eq!(v.capacity(), grown, "shrinking keeps the allocation");
    v.resize(4, 8);
    assert_eq!(v.as_slice(), &[1, 2, 8, 8]);
}

#[test]
fn aligned_vec_is_send_and_sync() {
    fn assert_send_sync<T: Send + Sync>() {}
    assert_send_sync::<AlignedVec<f64>>();
}

#[test]
fn aligned_vec_pop_returns_last_element() {
    let mut v = AlignedVec::<u32>::from_slice(&[10, 20, 30]);
    assert_eq!(v.pop(), Some(30));
    assert_eq!(v.pop(), Some(20));
    assert_eq!(v.pop(), Some(10));
    assert_eq!(v.pop(), None);
}

#[test]
fn aligned_vec_swap_remove_unordered() {
    let mut v = AlignedVec::<i32>::from_slice(&[1, 2, 3, 4, 5]);
    let r = v.swap_remove(1);
    assert_eq!(r, 2);
    assert_eq!(v.len(), 4);
    assert!(!v.as_slice().contains(&2));
    assert!(v.as_slice().contains(&5));
}

#[test]
fn aligned_vec_remove_preserves_order() {
    let mut v = AlignedVec::<i32>::from_slice(&[10, 20, 30, 40]);
    assert_eq!(v.remove(1), 20);
    assert_eq!(v.as_slice(), &[10, 30, 40]);
}

#[test]
fn aligned_vec_insert_shifts_right() {
    let mut v = AlignedVec::<i32>::from_slice(&[1, 3]);
    v.insert(1, 2);
    assert_eq!(v.as_slice(), &[1, 2, 3]);
}

#[test]
fn aligned_vec_retain_filters_in_place() {
    let mut v = AlignedVec::<i32>::from_slice(&[1, 2, 3, 4, 5, 6]);
    v.retain(|&x| x % 2 == 0);
    assert_eq!(v.as_slice(), &[2, 4, 6]);
}

#[test]
fn aligned_vec_dedup_consecutive() {
    let mut v = AlignedVec::<i32>::from_slice(&[1, 1, 2, 3, 3, 3, 2]);
    v.dedup();
    assert_eq!(v.as_slice(), &[1, 2, 3, 2]);
}

#[test]
fn aligned_vec_sort_and_dedup() {
    let mut v = AlignedVec::<i32>::from_slice(&[3, 1, 2, 1, 3, 2]);
    v.sort_unstable_inplace();
    v.dedup();
    assert_eq!(v.as_slice(), &[1, 2, 3]);
}

#[test]
fn aligned_vec_append_drains_source() {
    let mut a = AlignedVec::<u32>::from_slice(&[1, 2, 3]);
    let mut b = AlignedVec::<u32>::from_slice(&[4, 5, 6]);
    a.append(&mut b);
    assert_eq!(a.as_slice(), &[1, 2, 3, 4, 5, 6]);
    assert!(b.is_empty());
}

#[test]
fn aligned_vec_split_off() {
    let mut v = AlignedVec::<i32>::from_slice(&[1, 2, 3, 4, 5]);
    let tail = v.split_off(2);
    assert_eq!(v.as_slice(), &[1, 2]);
    assert_eq!(tail.as_slice(), &[3, 4, 5]);
}

#[test]
fn aligned_vec_shrink_to_fit() {
    let mut v = AlignedVec::<u32>::with_capacity(256);
    v.push(1);
    v.shrink_to_fit();
    assert_eq!(v.len(), 1);
    assert!(v.capacity() < 256);
}

#[test]
fn aligned_vec_drain_yields_and_collapses() {
    let mut v = AlignedVec::<i32>::from_slice(&[10, 20, 30, 40, 50]);
    let drained: Vec<i32> = v.drain(1, 3).collect();
    assert_eq!(drained, &[20, 30]);
    assert_eq!(v.as_slice(), &[10, 40, 50]);
}

#[test]
fn aligned_vec_from_fn() {
    let v = AlignedVec::<u32>::from_fn(5, |i| (i as u32 + 1) * 10);
    assert_eq!(v.as_slice(), &[10, 20, 30, 40, 50]);
}

#[test]
fn aligned_vec_double_ended_iter() {
    let v = AlignedVec::<i32>::from_slice(&[1, 2, 3, 4]);
    let rev: Vec<i32> = v.into_iter().rev().collect();
    assert_eq!(rev, &[4, 3, 2, 1]);
}

#[test]
fn aligned_vec_as_ref_and_borrow() {
    let v = AlignedVec::<u8>::from_slice(&[1, 2, 3]);
    let r: &[u8] = v.as_ref();
    assert_eq!(r, &[1, 2, 3]);
    let b: &[u8] = v.borrow();
    assert_eq!(b, &[1, 2, 3]);
}

#[test]
fn byte_budget_bounds_the_capacity() {
    assert!(AlignedVec::<u64>::fits(0));
    assert!(AlignedVec::<u64>::fits(1 << 20));
    assert!(!AlignedVec::<u64>::fits(usize::MAX / 4));
    assert!(AlignedVec::<u8>::fits((isize::MAX as usize) - 64));
    assert!(!AlignedVec::<u8>::fits((isize::MAX as usize) - 63));
}

#[test]
fn align_offset_counts_the_elements_to_the_next_boundary() {
    assert_eq!(align_offset(0x1000, 8, 8), 0);
    assert_eq!(align_offset(0x1010, 8, 8), 6);
    assert_eq!(align_offset(0x1010, 8, 5), 0, "six elements exceed the padding");
    assert_eq!(align_offset(0x1004, 8, 8), 0, "60 bytes is no whole number of 8-byte elements");
    assert_eq!(align_offset(0x1008, 0, 8), 0);
}

#[test]
fn aligned_vec_pointer_is_the_start_of_its_slice() {
    let mut v = AlignedVec::<f64>::with_capacity(32);
    v.ensure_len(10);
    let slice_start = v.as_slice().as_ptr() as usize;
    assert_eq!(v.as_ptr(), slice_start);
    assert_eq!(v.as_mut_ptr(), slice_start);
    assert_eq!(slice_start % DEFAULT_SCRATCH_ALIGN, 0);
    v.ensure_len(100);
    assert_eq!(v.as_ptr(), v.as_slice().as_ptr() as usize);
    assert_eq!(v.as_ptr() % DEFAULT_SCRATCH_ALIGN, 0);
}
