use allocator::bumper::{bump_offset, BumpAllocator};

fn read_i32(bytes: &[u8], offset: usize) -> i32 {
    i32::from_le_bytes([bytes[offset], bytes[offset + 1], bytes[offset + 2], bytes[offset + 3]])
}

#[test]
#[should_panic]
fn allocate_not_enough_space_panic() {
    let mut bumper = BumpAllocator::<2>::new();
    // i32 has layout size of 4 bytes, which is more than the available space (2 bytes)
    bumper
        .allocate(&123i32.to_le_bytes(), std::mem::align_of::<i32>())
        .expect("bump allocation failed");
}

#[test]
fn allocate_enough_space() {
    let mut bumper = BumpAllocator::<4>::new();
    let offset = bumper
        .allocate(&123i32.to_le_bytes(), std::mem::align_of::<i32>())
        .unwrap();

    assert_eq!(read_i32(bumper.arena(), offset), 123);
    let allocated = bumper.allocated();
    assert_eq!(std::mem::size_of::<i32>(), allocated)
}

#[test]
fn dealloc_all_empty_no_panic() {
    let mut bumper = BumpAllocator::<8>::new();
    bumper.dealloc_all(false);
}

#[test]
fn dealloc_all_wipe_memory_empty_no_panic() {
    let mut bumper = BumpAllocator::<8>::new();
    bumper.dealloc_all(true);
}

#[test]
fn dealloc_all() {
    let mut bumper = BumpAllocator::<8>::new();
    bumper.allocate(&123i32.to_le_bytes(), std::mem::align_of::<i32>());

    bumper.dealloc_all(false);
    let allocated = bumper.allocated();
    assert_eq!(0, allocated); // Reset

    // Bytes should still be set to the correct value, no wipe
    let stored_i32 = read_i32(bumper.arena(), 0);
    assert_eq!(123, stored_i32);
}

#[test]
fn dealloc_all_wipe_memory() {
    let mut bumper = BumpAllocator::<8>::new();
    bumper.allocate(&123i32.to_le_bytes(), std::mem::align_of::<i32>());

    bumper.dealloc_all(true);
    let allocated = bumper.allocated();
    assert_eq!(0, allocated); // Reset

    // Bytes should be set to 0
    let stored_i32 = read_i32(bumper.arena(), 0);
    assert_eq!(0, stored_i32);
}

#[test]
fn bump_pads_cursor_to_alignment() {
    let mut bumper = BumpAllocator::<16>::new();
    assert_eq!(Some(0), bumper.bump(3, 1));
    assert_eq!(3, bumper.allocated());
    // From 3, one byte of padding reaches 4.
    assert_eq!(Some(4), bumper.bump(4, 4));
    assert_eq!(8, bumper.allocated());
    assert_eq!(Some(8), bumper.bump(8, 8));
    assert_eq!(16, bumper.allocated());
    assert_eq!(None, bumper.bump(1, 1));
    assert_eq!(16, bumper.allocated());
}

#[test]
fn bump_fails_when_padding_overflows() {
    let mut bumper = BumpAllocator::<8>::new();
    assert_eq!(Some(0), bumper.bump(5, 1));
    // 5 fits the 3 bytes left, but padding to 8 leaves none.
    assert_eq!(None, bumper.bump(1, 8));
    assert_eq!(5, bumper.allocated());
    assert_eq!(Some(5), bumper.bump(3, 1));
}

#[test]
fn bump_offset_formula() {
    assert_eq!(Some(16), bump_offset(9, 4, 8, 32));
    assert_eq!(Some(9), bump_offset(9, 4, 1, 32));
    assert_eq!(None, bump_offset(9, 20, 8, 32));
    assert_eq!(Some(16), bump_offset(9, 16, 8, 32));
    assert_eq!(None, bump_offset(30, 3, 1, 32));
}

#[test]
fn wipe_clears_only_allocated_bytes() {
    let mut bumper = BumpAllocator::<8>::new();
    bumper.allocate(&[1, 2, 3], 1).unwrap();
    bumper.dealloc_all(true);
    assert_eq!(&[0u8; 8], bumper.arena());
    assert_eq!(Some(0), bumper.allocate(&[9, 9], 1));
    assert_eq!(&[9, 9, 0, 0, 0, 0, 0, 0], bumper.arena());
}
