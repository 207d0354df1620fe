use mnemosyne_arena::scratch::AlignedVec;

#[test]
fn search_by_value_and_by_probe() {
    let v = AlignedVec::<u32>::from_slice(&[1, 3, 5, 7, 9]);
    assert_eq!(v.binary_search(&7), Ok(3));
    assert_eq!(v.binary_search(&4), Err(2));
    assert_eq!(v.binary_search(&0), Err(0));
    assert_eq!(v.binary_search(&10), Err(5));
    assert_eq!(v.binary_search_by(|x| x.cmp(&5)), Ok(2));
    assert_eq!(v.binary_search_by_key(&18, |x| x * 2), Ok(4));
    assert_eq!(v.binary_search_by_key(&4, |x| x * 2), Err(1));
}

#[test]
fn contains_and_position_find_the_first_match() {
    let v = AlignedVec::<i32>::from_slice(&[4, 2, 7, 2]);
    assert!(v.contains(&7));
    assert!(!v.contains(&5));
    assert_eq!(v.position(&2), Some(1));
    assert_eq!(v.position(&9), None);
}

#[test]
fn sortedness_and_sorting() {
    let mut v = AlignedVec::<i64>::from_slice(&[5, -1, 3, 3]);
    assert!(!v.is_sorted());
    v.sort_unstable_inplace();
    assert_eq!(v.as_slice(), &[-1, 3, 3, 5]);
    assert!(v.is_sorted());
    assert!(AlignedVec::<i64>::dangling().is_sorted());
}

#[test]
fn prefixes_and_suffixes() {
    let v = AlignedVec::<u8>::from_slice(&[1, 2, 3, 4]);
    assert!(v.starts_with(&[1, 2]));
    assert!(!v.starts_with(&[2]));
    assert!(v.ends_with(&[3, 4]));
    assert!(!v.ends_with(&[1, 2, 3, 4, 5]));
    assert_eq!(v.strip_prefix(&[1]), Some(&[2u8, 3, 4][..]));
    assert_eq!(v.strip_prefix(&[4]), None);
    assert_eq!(v.strip_suffix(&[3, 4]), Some(&[1u8, 2][..]));
    assert_eq!(v.strip_suffix(&[9]), None);
}

#[test]
fn reorderings_and_their_inverses() {
    let mut v = AlignedVec::<u32>::from_slice(&[1, 2, 3, 4, 5]);
    v.rotate_left(2);
    assert_eq!(v.as_slice(), &[3, 4, 5, 1, 2]);
    v.rotate_right(2);
    assert_eq!(v.as_slice(), &[1, 2, 3, 4, 5]);
    v.reverse_inplace();
    assert_eq!(v.as_slice(), &[5, 4, 3, 2, 1]);
    v.reverse_inplace();
    v.swap(0, 4);
    assert_eq!(v.as_slice(), &[5, 2, 3, 4, 1]);
    v.swap(0, 4);
    assert_eq!(v.as_slice(), &[1, 2, 3, 4, 5]);
}

#[test]
fn ends_and_splits() {
    let mut v = AlignedVec::<u32>::from_slice(&[10, 20, 30]);
    assert_eq!(v.first(), Some(&10));
    assert_eq!(v.last(), Some(&30));
    *v.first_mut().unwrap() = 11;
    *v.last_mut().unwrap() = 31;
    assert_eq!(v.as_slice(), &[11, 20, 31]);
    let (a, b) = v.split_at(1);
    assert_eq!((a, b), (&[11u32][..], &[20u32, 31][..]));
    let (x, y) = v.split_at_mut(2);
    x[0] = 1;
    y[0] = 3;
    assert_eq!(v.as_slice(), &[1, 20, 3]);
    let e = AlignedVec::<u32>::dangling();
    assert_eq!(e.first(), None);
    assert_eq!(e.last(), None);
}

#[test]
fn windows_and_chunks() {
    let v = AlignedVec::<u32>::from_slice(&[1, 2, 3, 4, 5]);
    let w = v.windows_iter(2);
    assert_eq!(w, vec![&[1, 2][..], &[2, 3][..], &[3, 4][..], &[4, 5][..]]);
    assert!(v.windows_iter(6).is_empty());
    let c = v.chunks_iter(2);
    assert_eq!(c, vec![&[1, 2][..], &[3, 4][..], &[5][..]]);
    let e = v.chunks_exact(2);
    assert_eq!(e, vec![&[1, 2][..], &[3, 4][..]]);
}

#[test]
fn dedup_by_key_compares_with_the_last_kept_element() {
    let mut v = AlignedVec::<i32>::from_slice(&[10, 11, 20, 25, 31, 39]);
    v.dedup_by_key(|x| *x / 10);
    assert_eq!(v.as_slice(), &[10, 20, 31]);
}

#[test]
fn fill_and_resize_fill_make_every_element_equal() {
    let mut v = AlignedVec::<u16>::from_slice(&[1, 2, 3]);
    v.fill(9);
    assert_eq!(v.as_slice(), &[9, 9, 9]);
    v.resize_fill(5, 4);
    assert_eq!(v.as_slice(), &[4, 4, 4, 4, 4]);
    v.resize_fill(2, 7);
    assert_eq!(v.as_slice(), &[7, 7]);
}

#[test]
fn shrink_to_never_drops_below_the_length() {
    let mut v = AlignedVec::<u32>::with_capacity(64);
    v.extend_from_slice(&[1, 2, 3, 4]);
    v.shrink_to(16);
    assert_eq!(v.capacity(), 16);
    v.shrink_to(1);
    assert_eq!(v.capacity(), 4);
    assert_eq!(v.as_slice(), &[1, 2, 3, 4]);
    v.clear();
    v.shrink_to(0);
    assert_eq!(v.capacity(), 0);
}

#[test]
fn growth_doubles_the_capacity() {
    let mut v = AlignedVec::<u8>::with_capacity(3);
    v.extend_from_slice(&[1, 2, 3]);
    v.push(4);
    assert_eq!(v.capacity(), 6);
    v.ensure_len(20);
    assert_eq!(v.capacity(), 20);
    assert_eq!(&v.as_slice()[..4], &[1, 2, 3, 4]);
    assert!(v.as_slice()[4..].iter().all(|&x| x == 0));
}

#[test]
fn insert_then_remove_and_push_then_pop_restore_the_elements() {
    let mut v = AlignedVec::<u32>::from_slice(&[1, 2, 3]);
    v.insert(1, 9);
    assert_eq!(v.remove(1), 9);
    assert_eq!(v.as_slice(), &[1, 2, 3]);
    v.push(8);
    assert_eq!(v.pop(), Some(8));
    assert_eq!(v.as_slice(), &[1, 2, 3]);
}

#[test]
fn split_off_then_append_restores_the_elements() {
    let mut v = AlignedVec::<u32>::from_slice(&[1, 2, 3, 4]);
    let mut tail = v.split_off(1);
    assert_eq!(tail.capacity(), 3);
    v.append(&mut tail);
    assert_eq!(v.as_slice(), &[1, 2, 3, 4]);
    assert!(tail.is_empty());
}

#[test]
fn clone_default_and_equality() {
    let v = AlignedVec::<u32>::from_slice(&[1, 2]);
    let c = v.clone();
    assert_eq!(c.as_slice(), v.as_slice());
    assert!(c == v);
    let d: AlignedVec<u32> = Default::default();
    assert!(d.is_empty());
    assert!(!(d == v));
}

#[test]
fn sorting_by_comparator_and_by_key() {
    let mut v = AlignedVec::from_slice(&[3i64, -7, 1, 5, -2]);
    v.sort_unstable_by(|a: &i64, b: &i64| b.cmp(a));
    assert_eq!(v.as_slice(), &[5, 3, 1, -2, -7]);
    v.sort_unstable_by_key(|x: &i64| x.abs());
    assert_eq!(v.as_slice(), &[1, -2, 3, 5, -7]);
    let mut words = AlignedVec::from_slice(&[30u32, 11, 22]);
    words.sort_unstable_by_key(|x: &u32| x % 10);
    assert_eq!(words.as_slice(), &[30, 11, 22]);
}

#[test]
fn writable_chunks_write_through_to_the_buffer() {
    let mut v = AlignedVec::from_slice(&[1u32, 2, 3, 4, 5]);
    let chunks = v.chunks_mut(2);
    assert_eq!(chunks.len(), 3);
    assert_eq!(chunks[2].len(), 1);
    for c in chunks {
        c[0] *= 10;
    }
    assert_eq!(v.as_slice(), &[10, 2, 30, 4, 50]);

    let exact = v.chunks_exact_mut(2);
    assert_eq!(exact.len(), 2);
    for c in exact {
        c.reverse();
    }
    assert_eq!(v.as_slice(), &[2, 10, 4, 30, 50], "the element past the last whole chunk is untouched");
}
