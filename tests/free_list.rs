use allocator::alloc_root::AllocatorRoot;
use allocator::free_list::FreeListAllocator;
use allocator::node::{ALLOCATION_METADATA_LAYOUT_SIZE, NODE_LAYOUT_SIZE};

fn no_two_touch(blocks: &[(usize, usize)]) -> bool {
    blocks.windows(2).all(|w| w[0].0 + w[0].1 < w[1].0)
}

#[test]
fn fresh_arena_first_allocation_at_start() {
    let mut a = FreeListAllocator::<128>::new();
    assert_eq!(vec![(0, 128)], a.free_blocks());

    assert_eq!(Some(0), a.allocate(4, 1));
    // 4 payload bytes and 16 of metadata are rounded up by fill padding to a
    // node header, 24 bytes; the rest stays free.
    let used = NODE_LAYOUT_SIZE;
    assert_eq!(24, 4 + ALLOCATION_METADATA_LAYOUT_SIZE + 4);
    assert_eq!(vec![(used, 128 - used)], a.free_blocks());
}

#[test]
fn allocations_consume_the_arena_then_fail() {
    let mut a = FreeListAllocator::<128>::new();
    // Each 32-byte payload takes 48 bytes with its metadata.
    assert_eq!(Some(0), a.allocate(32, 1));
    assert_eq!(Some(48), a.allocate(32, 1));
    assert_eq!(vec![(96, 32)], a.free_blocks());
    assert_eq!(None, a.allocate(32, 1));
    assert_eq!(vec![(96, 32)], a.free_blocks());
    // 16 bytes and their metadata take the last block whole.
    assert_eq!(Some(96), a.allocate(16, 1));
    assert_eq!(Vec::<(usize, usize)>::new(), a.free_blocks());
    assert_eq!(None, a.allocate(1, 1));
    assert_eq!(None, a.allocate(0, 1));
}

fn three_adjacent() -> (FreeListAllocator<128>, usize, usize, usize) {
    let mut a = FreeListAllocator::<128>::new();
    // 16-byte payloads: 32-byte blocks with their metadata.
    let pa = a.allocate(16, 1).unwrap();
    let pb = a.allocate(16, 1).unwrap();
    let pc = a.allocate(16, 1).unwrap();
    assert_eq!((0, 32, 64), (pa, pb, pc));
    assert_eq!(vec![(96, 32)], a.free_blocks());
    (a, pa, pb, pc)
}

#[test]
fn freeing_middle_block_leaves_it_unmerged() {
    let (mut a, _pa, pb, _pc) = three_adjacent();
    a.deallocate(pb, 16);
    assert_eq!(vec![(32, 32), (96, 32)], a.free_blocks());
}

#[test]
fn freeing_all_three_coalesces_into_one_node() {
    let (mut a, pa, pb, pc) = three_adjacent();
    a.deallocate(pb, 16);
    a.deallocate(pa, 16);
    assert_eq!(vec![(0, 64), (96, 32)], a.free_blocks());
    a.deallocate(pc, 16);
    assert_eq!(vec![(0, 128)], a.free_blocks());
}

#[test]
fn large_alignment_is_padded_or_fails_cleanly() {
    let mut a = FreeListAllocator::<128>::new();
    assert_eq!(Some(0), a.allocate(1, 1));
    assert_eq!(vec![(24, 104)], a.free_blocks());
    // From 24, 40 bytes of padding reach 64.
    let p = a.allocate(8, 64).unwrap();
    assert_eq!(64, p);
    assert_eq!(0, p % 64);
    assert_eq!(vec![(88, 40)], a.free_blocks());
    // Nothing left can hold 64 bytes at 64.
    assert_eq!(None, a.allocate(64, 64));
    assert_eq!(vec![(88, 40)], a.free_blocks());
    // Padding alone would run past the arena.
    assert_eq!(None, a.allocate(1, 256));
}

#[test]
fn payloads_of_successive_allocations_do_not_overlap() {
    let mut a = FreeListAllocator::<512>::new();
    let requests = [(7, 1), (16, 8), (3, 4), (40, 16), (1, 1), (64, 32)];
    let mut ranges = Vec::new();
    for (size, align) in requests {
        let p = a.allocate(size, align).unwrap();
        assert_eq!(0, p % align);
        assert!(p + size <= 512);
        ranges.push((p, p + size));
    }
    for i in 0..ranges.len() {
        for j in 0..ranges.len() {
            if i != j {
                assert!(ranges[i].1 <= ranges[j].0 || ranges[j].1 <= ranges[i].0);
            }
        }
    }
}

#[test]
fn free_list_stays_increasing_and_coalesced() {
    let mut a = FreeListAllocator::<512>::new();
    let mut live = Vec::new();
    for size in [10, 30, 50, 20, 5, 60] {
        live.push((a.allocate(size, 8).unwrap(), size));
    }
    for &i in &[1usize, 4, 2, 0] {
        let (p, size) = live[i];
        a.deallocate(p, size);
        let blocks = a.free_blocks();
        assert!(blocks.windows(2).all(|w| w[0].0 < w[1].0));
        assert!(no_two_touch(&blocks));
    }
    assert!(a.allocate(100, 16).is_some());
    let blocks = a.free_blocks();
    assert!(blocks.windows(2).all(|w| w[0].0 < w[1].0));
    assert!(no_two_touch(&blocks));
}

#[test]
fn deallocation_recovers_the_reserved_block() {
    let mut a = FreeListAllocator::<256>::new();
    let first = a.allocate(5, 1).unwrap();
    // The first block takes 24 bytes; the free node left starts there.
    let before = a.free_blocks();
    assert_eq!(vec![(24, 232)], before);
    let p = a.allocate(10, 16).unwrap();
    assert_eq!(32, p);
    assert_ne!(before, a.free_blocks());
    a.deallocate(p, 10);
    assert_eq!(before, a.free_blocks());
    a.deallocate(first, 5);
    assert_eq!(vec![(0, 256)], a.free_blocks());
}

#[test]
fn every_freed_block_can_hold_a_node() {
    let mut a = FreeListAllocator::<256>::new();
    let p = a.allocate(0, 1).unwrap();
    let q = a.allocate(1, 1).unwrap();
    // Each block takes at least a node header.
    assert_eq!(0, p);
    assert_eq!(NODE_LAYOUT_SIZE, q);
    a.deallocate(p, 0);
    assert_eq!(vec![(0, NODE_LAYOUT_SIZE), (2 * NODE_LAYOUT_SIZE, 256 - 2 * NODE_LAYOUT_SIZE)], a.free_blocks());
}

#[test]
fn arena_too_small_for_a_node_has_no_free_block() {
    let mut a = FreeListAllocator::<16>::new();
    assert_eq!(Vec::<(usize, usize)>::new(), a.free_blocks());
    assert_eq!(None, a.allocate(0, 1));
}

#[test]
fn root_follows_first_free_block() {
    let mut a = FreeListAllocator::<128>::new();
    assert_eq!(Some(0), a.root().free_root());
    let p = a.allocate(16, 1).unwrap();
    assert_eq!(Some(32), a.root().free_root());
    a.deallocate(p, 16);
    assert_eq!(Some(0), a.root().free_root());
    let root = AllocatorRoot::new(8);
    assert_eq!(None, root.free_root());
}

#[test]
fn forty_eight_byte_block_splits_off_a_node() {
    let mut root = AllocatorRoot::with_free_blocks(48, &vec![(0, 48)]).unwrap();
    assert_eq!(Some(0), root.allocate(4, 1));
    assert_eq!(vec![(24, 24)], root.free_blocks());
}

#[test]
fn payload_write_then_read() {
    let mut a = FreeListAllocator::<128>::new();
    let p = a.allocate(4, 4).unwrap();
    let q = a.allocate(8, 8).unwrap();
    a.write(p, &1115i32.to_le_bytes());
    a.write(q, &7u64.to_le_bytes());
    assert_eq!(1115i32.to_le_bytes().to_vec(), a.read(p, 4));
    assert_eq!(7u64.to_le_bytes().to_vec(), a.read(q, 8));
    // A partial write changes only its own bytes.
    a.write(q, &[9]);
    assert_eq!(vec![9, 0, 0, 0, 0, 0, 0, 0], a.read(q, 8));
}

#[test]
fn payloads_survive_other_allocations_and_frees() {
    let mut a = FreeListAllocator::<256>::new();
    let p = a.allocate(16, 1).unwrap();
    let q = a.allocate(16, 1).unwrap();
    let r = a.allocate(16, 1).unwrap();
    a.write(q, &[0xAB; 16]);
    a.deallocate(p, 16);
    a.deallocate(r, 16);
    let s = a.allocate(40, 8).unwrap();
    a.write(s, &[0x11; 40]);
    assert_eq!(vec![0xAB; 16], a.read(q, 16));
    assert_eq!(vec![0x11; 40], a.read(s, 40));
}
