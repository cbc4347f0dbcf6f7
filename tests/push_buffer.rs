use dancepad_abi::{BufferOverflow, PushBuffer};

#[test]
fn capacity_is_exact_and_clear_restores_it() {
    let mut buf = PushBuffer::<4>::new();
    for b in 1..=4u8 {
        assert_eq!(buf.push(b), Ok(()));
    }
    assert!(buf.is_full());
    assert_eq!(buf.push(5), Err(BufferOverflow));
    assert_eq!(buf.as_slice(), &[1, 2, 3, 4]);
    buf.clear();
    assert_eq!(buf.len(), 0);
    for b in 6..=9u8 {
        assert_eq!(buf.push(b), Ok(()));
    }
    assert_eq!(buf.push(10), Err(BufferOverflow));
    assert_eq!(buf.as_slice(), &[6, 7, 8, 9]);
}

#[test]
fn finish_hands_out_the_bytes() {
    let mut buf = PushBuffer::<8>::default();
    assert!(!buf.is_full());
    buf.push(0xaa).unwrap();
    buf.push(0xbb).unwrap();
    let (storage, len) = buf.finish();
    assert_eq!(len, 2);
    assert_eq!(&storage[..len], &[0xaa, 0xbb]);
}

#[test]
fn zero_capacity_refuses_everything() {
    let mut buf = PushBuffer::<0>::new();
    assert!(buf.is_full());
    assert_eq!(buf.push(1), Err(BufferOverflow));
}

#[test]
fn finished_storage_holds_only_this_frame() {
    let mut buf = PushBuffer::<4>::new();
    for b in [7u8, 8, 9, 10] {
        buf.push(b).unwrap();
    }
    buf.clear();
    buf.push(1).unwrap();
    let (storage, len) = buf.finish();
    assert_eq!(len, 1);
    assert_eq!(storage, [1, 0, 0, 0]);
    assert_eq!(PushBuffer::<3>::default().finish(), ([0, 0, 0], 0));
}
