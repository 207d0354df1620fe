use mnemosyne_arena::scratch::AlignedBuf;

#[test]
fn push_and_pop() {
    let mut buf = AlignedBuf::<u32, 4>::new();
    assert!(buf.is_empty());
    assert_eq!(buf.capacity(), 4);
    buf.push(10);
    buf.push(20);
    assert_eq!(buf.len(), 2);
    assert!(!buf.is_full());
    assert_eq!(buf.pop(), Some(20));
    assert_eq!(buf.pop(), Some(10));
    assert_eq!(buf.pop(), None);
}

#[test]
fn try_push_full() {
    let mut buf = AlignedBuf::<u8, 2>::new();
    assert!(buf.try_push(1));
    assert!(buf.try_push(2));
    assert!(buf.is_full());
    assert!(!buf.try_push(3));
    assert_eq!(buf.len(), 2);
}

#[test]
fn from_array_round_trip() {
    let arr = [1u32, 2, 3, 4];
    let buf = AlignedBuf::<u32, 4>::from_array(arr);
    assert_eq!(buf.as_slice(), &[1, 2, 3, 4]);
    let arr2: [u32; 4] = buf.into_array();
    assert_eq!(arr2, [1, 2, 3, 4]);
}

#[test]
fn filled_and_clear() {
    let mut buf = AlignedBuf::<f32, 8>::filled(3.14);
    assert_eq!(buf.len(), 8);
    buf.clear();
    assert!(buf.is_empty());
}

#[test]
fn truncate() {
    let mut buf = AlignedBuf::<u64, 6>::filled(0);
    buf.truncate(3);
    assert_eq!(buf.len(), 3);
    buf.truncate(10);
    assert_eq!(buf.len(), 3);
}

#[test]
fn zero_fill() {
    let mut buf = AlignedBuf::<u32, 4>::filled(0xDEAD_BEEF);
    buf.zero_fill();
    assert!(buf.as_slice().iter().all(|&x| x == 0));
}

#[test]
fn deref_slice_ops() {
    let mut buf = AlignedBuf::<i32, 5>::new();
    for i in 0..5i32 {
        buf.push(i);
    }
    assert_eq!(buf.iter().copied().sum::<i32>(), 10);
    assert_eq!(buf[2], 2);
}

#[test]
fn from_slice_truncating() {
    let src = [1u32, 2, 3, 4, 5, 6];
    let buf = AlignedBuf::<u32, 4>::from_slice_truncating(&src);
    assert_eq!(buf.as_slice(), &[1, 2, 3, 4]);
}

#[test]
fn clone_and_copy() {
    let mut buf = AlignedBuf::<u8, 4>::new();
    buf.push(1);
    buf.push(2);
    let copy = buf;
    let clone = buf.clone();
    assert_eq!(copy.as_slice(), &[1, 2]);
    assert_eq!(clone.as_slice(), &[1, 2]);
}

#[test]
fn partial_eq() {
    let mut a = AlignedBuf::<u32, 4>::new();
    let mut b = AlignedBuf::<u32, 4>::new();
    a.push(1);
    a.push(2);
    b.push(1);
    b.push(2);
    assert_eq!(a, b);
    b.push(3);
    assert_ne!(a, b);
}

#[test]
fn const_new_in_static() {
    let buf: AlignedBuf<u32, 8> = AlignedBuf::new();
    assert!(buf.is_empty());
    assert_eq!(buf.capacity(), 8);
}

#[test]
fn remaining() {
    let mut buf = AlignedBuf::<u8, 4>::new();
    assert_eq!(buf.remaining(), 4);
    buf.push(0);
    assert_eq!(buf.remaining(), 3);
}
