use allocator::node::{Node, ALLOCATION_METADATA_LAYOUT_SIZE, NODE_LAYOUT_SIZE};

#[test]
fn try_get_alloc_specs_not_enough_size() {
    let node = Node {
        size: 16,
        next_ptr: None,
    };

    let result = node.try_get_alloc_specs(64, 1, 0);
    assert!(result.is_err())
}

#[test]
fn try_get_alloc_specs_not_enough_with_padding() {
    let node = Node {
        size: 32,
        next_ptr: None,
    };

    let result = node.try_get_alloc_specs(16, 32, 0x5);
    assert!(result.is_err())
}

#[test]
fn try_get_alloc_specs_not_enough_for_future_node() {
    let node = Node {
        size: 23, // Node layout is 24
        next_ptr: None,
    };

    let result = node.try_get_alloc_specs(4, 1, 0);
    assert!(result.is_err())
}

#[test]
fn try_get_alloc_specs_can_add_node() {
    let node = Node {
        size: 64,
        next_ptr: None,
    };

    let size = 4;
    let result = node.try_get_alloc_specs(size, 1, 0);
    assert!(result.is_ok());
    let specs = result.unwrap();
    assert_eq!(0, specs.padding);
    assert_eq!(size, specs.size);
    assert_eq!(
        NODE_LAYOUT_SIZE - size - ALLOCATION_METADATA_LAYOUT_SIZE,
        specs.fill_padding
    );
    assert_eq!(
        node.size
            - specs.padding
            - specs.size
            - ALLOCATION_METADATA_LAYOUT_SIZE
            - specs.fill_padding,
        specs.remaining_size
    );
}

#[test]
fn try_get_alloc_specs_cannot_add_node() {
    let node = Node {
        size: 64,
        next_ptr: None,
    };

    let size = 32;
    let result = node.try_get_alloc_specs(size, 1, 0);
    assert!(result.is_ok());
    let specs = result.unwrap();
    assert_eq!(0, specs.padding);
    assert_eq!(size, specs.size);
    assert_eq!(
        node.size - specs.padding - size - ALLOCATION_METADATA_LAYOUT_SIZE,
        specs.fill_padding
    );
    assert_eq!(0, specs.remaining_size);
}

#[test]
fn layout_sizes_are_three_and_two_words() {
    assert_eq!(24, NODE_LAYOUT_SIZE);
    assert_eq!(16, ALLOCATION_METADATA_LAYOUT_SIZE);
}

#[test]
fn try_get_alloc_specs_pads_to_alignment() {
    let node = Node {
        size: 128,
        next_ptr: None,
    };
    // 5 bytes past a multiple of 8: three bytes of padding.
    let specs = node.try_get_alloc_specs(8, 8, 13).unwrap();
    assert_eq!(3, specs.padding);
    assert_eq!(8, specs.size);
    assert_eq!(0, specs.fill_padding);
    assert_eq!(128 - 3 - 8 - 16, specs.remaining_size);
}

#[test]
fn try_get_alloc_specs_small_request_leaves_room_for_a_node() {
    // 1 + 16 bytes round up to a node header; 42 - 24 leaves 18, too small
    // for a node, so the whole node is taken.
    let node = Node {
        size: 42,
        next_ptr: None,
    };
    let specs = node.try_get_alloc_specs(1, 1, 0).unwrap();
    assert_eq!(0, specs.remaining_size);
    assert_eq!(42 - 1 - 16, specs.fill_padding);
}

#[test]
fn try_get_alloc_specs_exact_fit_takes_whole_node() {
    let node = Node {
        size: 48,
        next_ptr: None,
    };
    let specs = node.try_get_alloc_specs(32, 1, 0).unwrap();
    assert_eq!(0, specs.fill_padding);
    assert_eq!(0, specs.remaining_size);
    assert!(node.try_get_alloc_specs(33, 1, 0).is_err());
}

#[test]
fn try_get_alloc_specs_huge_alignment_is_rejected() {
    let node = Node {
        size: 64,
        next_ptr: None,
    };
    assert!(node.try_get_alloc_specs(1, usize::MAX, 1).is_err());
}

#[test]
fn try_get_alloc_specs_splits_off_exactly_one_header() {
    // 4 + 16 bytes round up to 24; the 24 left can hold a node header.
    let node = Node {
        size: 48,
        next_ptr: None,
    };
    let specs = node.try_get_alloc_specs(4, 1, 0).unwrap();
    assert_eq!(0, specs.padding);
    assert_eq!(4, specs.size);
    assert_eq!(4, specs.fill_padding);
    assert_eq!(24, specs.remaining_size);
}
