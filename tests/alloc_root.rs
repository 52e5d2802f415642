use allocator::alloc_root::AllocatorRoot;
use allocator::node::NODE_LAYOUT_SIZE;

#[test]
fn create_free_node_no_root_becomes_root() {
    let mut alloc_data = init_allocator(128, vec![
        TestNode {
            size: 32,
            free: false,
        },
        TestNode {
            size: 32,
            free: false,
        },
        TestNode {
            size: 64,
            free: false,
        },
    ]);

    alloc_data
        .allocator
        .create_free_node(alloc_data.ptr_collection[1], 32);

    assert_eq!(
        alloc_data.ptr_collection[1],
        alloc_data.allocator.free_root().unwrap()
    );
}

#[test]
fn create_free_node_no_previous_node_becomes_root() {
    let mut alloc_data = init_allocator(128, vec![
        TestNode {
            size: 32,
            free: false,
        },
        TestNode {
            size: 32,
            free: false,
        },
        TestNode {
            size: 64,
            free: true, // Current root
        },
    ]);

    alloc_data
        .allocator
        .create_free_node(alloc_data.ptr_collection[1], 32);

    assert_eq!(
        alloc_data.ptr_collection[1],
        alloc_data.allocator.free_root().unwrap()
    );
}

#[test]
fn create_free_node_previous_node_exists_doesnt_become_root() {
    let mut alloc_data = init_allocator(128, vec![
        TestNode {
            size: 32,
            free: true, // Current root
        },
        TestNode {
            size: 32,
            free: false,
        },
        TestNode {
            size: 64,
            free: false,
        },
    ]);

    alloc_data
        .allocator
        .create_free_node(alloc_data.ptr_collection[1], 32);

    assert_eq!(
        alloc_data.ptr_collection[0], // Still old root
        alloc_data.allocator.free_root().unwrap()
    );
}

#[test]
fn find_insertion_point_at_root() {
    let alloc_data = init_allocator(128, vec![
        TestNode {
            size: 32,
            free: false,
        },
        TestNode {
            size: 32,
            free: true,
        },
        TestNode {
            size: 64,
            free: true,
        },
    ]);

    // Find insertion point for first node
    let (previous, next) = alloc_data.allocator.find_insertion_point(
        alloc_data.ptr_collection[0],
        alloc_data.free_root_ptr.unwrap(),
    );

    assert_eq!(None, previous);

    let next_ptr = next.unwrap();
    assert_eq!(alloc_data.ptr_collection[1], next_ptr);
}

#[test]
fn find_insertion_point_between_nodes() {
    let alloc_data = init_allocator(128, vec![
        TestNode {
            size: 32,
            free: true,
        },
        TestNode {
            size: 32,
            free: false,
        },
        TestNode {
            size: 64,
            free: true,
        },
    ]);

    // Find insertion point for second node
    let (previous, next) = alloc_data.allocator.find_insertion_point(
        alloc_data.ptr_collection[1],
        alloc_data.free_root_ptr.unwrap(),
    );

    let previous_ptr = previous.unwrap();
    assert_eq!(alloc_data.ptr_collection[0], previous_ptr);

    let next_ptr = next.unwrap();
    assert_eq!(alloc_data.ptr_collection[2], next_ptr);
}

#[test]
fn find_insertion_point_at_end() {
    let alloc_data = init_allocator(128, vec![
        TestNode {
            size: 32,
            free: true,
        },
        TestNode {
            size: 32,
            free: true,
        },
        TestNode {
            size: 64,
            free: false,
        },
    ]);

    // Find insertion point for first node
    let (previous, next) = alloc_data.allocator.find_insertion_point(
        alloc_data.ptr_collection[2],
        alloc_data.free_root_ptr.unwrap(),
    );

    let previous_ptr = previous.unwrap();
    assert_eq!(alloc_data.ptr_collection[1], previous_ptr);

    assert_eq!(None, next);
}

#[test]
fn try_merge_nodes_can_merge_previous() {
    let alloc_data = init_allocator(128, vec![
        TestNode {
            size: 32,
            free: true,
        },
        TestNode {
            size: 32,
            free: false,
        },
        TestNode {
            size: 32,
            free: false,
        },
        TestNode {
            size: 32,
            free: true,
        },
    ]);

    // Try to merge second node
    let (node_result, destination_ptr) = alloc_data.allocator.try_merge_nodes(
        alloc_data.ptr_collection[1],
        32,
        Some(alloc_data.ptr_collection[0]),
        Some(alloc_data.ptr_collection[3]),
    );

    assert_eq!(32 * 2, node_result.size);
    assert_eq!(alloc_data.ptr_collection[3], node_result.next_ptr.unwrap());
    assert_eq!(alloc_data.ptr_collection[0], destination_ptr);
}

#[test]
fn try_merge_nodes_can_merge_previous_none_next() {
    let alloc_data = init_allocator(128, vec![
        TestNode {
            size: 32,
            free: true,
        },
        TestNode {
            size: 32,
            free: false,
        },
        TestNode {
            size: 32,
            free: false,
        },
        TestNode {
            size: 32,
            free: false,
        },
    ]);

    // Try to merge second node
    let (node_result, destination_ptr) = alloc_data.allocator.try_merge_nodes(
        alloc_data.ptr_collection[1],
        32,
        Some(alloc_data.ptr_collection[0]),
        None,
    );

    assert_eq!(32 * 2, node_result.size);
    assert_eq!(None, node_result.next_ptr);
    assert_eq!(alloc_data.ptr_collection[0], destination_ptr);
}

#[test]
fn try_merge_nodes_can_merge_next() {
    let alloc_data = init_allocator(128, vec![
        TestNode {
            size: 32,
            free: true,
        },
        TestNode {
            size: 32,
            free: false,
        },
        TestNode {
            size: 32,
            free: false,
        },
        TestNode {
            size: 32,
            free: true,
        },
    ]);

    // Try to merge third node
    let (node_result, destination_ptr) = alloc_data.allocator.try_merge_nodes(
        alloc_data.ptr_collection[2],
        32,
        Some(alloc_data.ptr_collection[0]),
        Some(alloc_data.ptr_collection[3]),
    );

    assert_eq!(32 * 2, node_result.size);
    assert_eq!(None, node_result.next_ptr);
    assert_eq!(alloc_data.ptr_collection[2], destination_ptr);
}

#[test]
fn try_merge_nodes_can_merge_next_none_previous() {
    let alloc_data = init_allocator(128, vec![
        TestNode {
            size: 32,
            free: false,
        },
        TestNode {
            size: 32,
            free: false,
        },
        TestNode {
            size: 32,
            free: false,
        },
        TestNode {
            size: 32,
            free: true,
        },
    ]);

    // Try to merge third node
    let (node_result, destination_ptr) = alloc_data.allocator.try_merge_nodes(
        alloc_data.ptr_collection[2],
        32,
        None,
        Some(alloc_data.ptr_collection[3]),
    );

    assert_eq!(32 * 2, node_result.size);
    assert_eq!(None, node_result.next_ptr);
    assert_eq!(alloc_data.ptr_collection[2], destination_ptr);
}

#[test]
fn try_merge_nodes_can_merge_previous_and_next() {
    let alloc_data = init_allocator(128, vec![
        TestNode {
            size: 32,
            free: true,
        },
        TestNode {
            size: 32,
            free: false,
        },
        TestNode {
            size: 32,
            free: true,
        },
        TestNode {
            size: 32,
            free: false,
        },
    ]);

    // Try to merge second node
    let (node_result, destination_ptr) = alloc_data.allocator.try_merge_nodes(
        alloc_data.ptr_collection[1],
        32,
        Some(alloc_data.ptr_collection[0]),
        Some(alloc_data.ptr_collection[2]),
    );

    assert_eq!(32 * 3, node_result.size);
    assert_eq!(None, node_result.next_ptr);
    assert_eq!(alloc_data.ptr_collection[0], destination_ptr);
}

#[test]
fn try_merge_nodes_cannot_merge_any() {
    let alloc_data = init_allocator(256, vec![
        TestNode {
            size: 32,
            free: true,
        },
        TestNode {
            size: 32,
            free: false,
        },
        TestNode {
            size: 32,
            free: true,
        },
        TestNode {
            size: 32,
            free: false,
        },
        TestNode {
            size: 32,
            free: true,
        },
    ]);

    // Try to merge third node (middle)
    let (node_result, destination_ptr) = alloc_data.allocator.try_merge_nodes(
        alloc_data.ptr_collection[2],
        32,
        Some(alloc_data.ptr_collection[0]),
        Some(alloc_data.ptr_collection[4]),
    );

    // No change was made
    assert_eq!(32, node_result.size);
    assert_eq!(alloc_data.ptr_collection[4], node_result.next_ptr.unwrap());
    assert_eq!(alloc_data.ptr_collection[2], destination_ptr);
}

#[test]
fn try_merge_nodes_cannot_merge_any_none_previous_and_next() {
    let alloc_data = init_allocator(256, vec![
        TestNode {
            size: 32,
            free: false,
        },
        TestNode {
            size: 32,
            free: true,
        },
        TestNode {
            size: 32,
            free: false,
        },
    ]);

    // Try to merge third node (middle)
    let (node_result, destination_ptr) = alloc_data
        .allocator
        .try_merge_nodes(alloc_data.ptr_collection[1], 32, None, None);

    // No change was made
    assert_eq!(32, node_result.size);
    assert_eq!(None, node_result.next_ptr);
    assert_eq!(alloc_data.ptr_collection[1], destination_ptr);
}

/// Builds an allocator over `capacity` bytes laid out as `nodes`, placed from
/// the end of the arena backwards, with the free ones in its free list.
fn init_allocator(capacity: usize, nodes: Vec<TestNode>) -> AllocatorData {
    let mut node_ptr_collection = Vec::new();
    let mut free_blocks = Vec::new();
    let mut current_ptr = capacity;
    for node in nodes.iter().rev() {
        if node.size < NODE_LAYOUT_SIZE {
            panic!("node size can't be less than that of a Node layout size")
        }
        current_ptr -= node.size;
        node_ptr_collection.push(current_ptr);
        if node.free {
            free_blocks.push((current_ptr, node.size));
        }
    }
    node_ptr_collection.reverse();
    free_blocks.reverse();

    let free_root_ptr = free_blocks.first().map(|b| b.0);
    let allocator = AllocatorRoot::with_free_blocks(capacity, &free_blocks).unwrap();
    assert_eq!(free_root_ptr, allocator.free_root());
    AllocatorData {
        allocator,
        ptr_collection: node_ptr_collection,
        free_root_ptr,
    }
}

struct AllocatorData {
    allocator: AllocatorRoot,
    ptr_collection: Vec<usize>,
    free_root_ptr: Option<usize>,
}

struct TestNode {
    size: usize,
    free: bool,
}

#[test]
fn create_free_node_links_previous_node_to_new_node() {
    let mut alloc_data = init_allocator(
        128,
        vec![
            TestNode { size: 32, free: true },
            TestNode { size: 32, free: false },
            TestNode { size: 32, free: false },
            TestNode { size: 32, free: false },
        ],
    );

    alloc_data.allocator.create_free_node(alloc_data.ptr_collection[2], 32);

    assert_eq!(vec![(0, 32), (64, 32)], alloc_data.allocator.free_blocks());
}

#[test]
fn create_free_node_merges_both_neighbours() {
    let mut alloc_data = init_allocator(
        128,
        vec![
            TestNode { size: 32, free: true },
            TestNode { size: 32, free: false },
            TestNode { size: 32, free: true },
            TestNode { size: 32, free: false },
        ],
    );

    alloc_data.allocator.create_free_node(alloc_data.ptr_collection[1], 32);

    assert_eq!(vec![(0, 96)], alloc_data.allocator.free_blocks());
    assert_eq!(Some(0), alloc_data.allocator.free_root());
}

#[test]
fn with_free_blocks_rejects_bad_layouts() {
    // Overlapping blocks.
    assert!(AllocatorRoot::with_free_blocks(128, &vec![(0, 32), (16, 32)]).is_none());
    // Out of order.
    assert!(AllocatorRoot::with_free_blocks(128, &vec![(64, 32), (0, 32)]).is_none());
    // Past the arena's end.
    assert!(AllocatorRoot::with_free_blocks(128, &vec![(100, 32)]).is_none());
    // Too small for a node header.
    assert!(AllocatorRoot::with_free_blocks(128, &vec![(0, 23)]).is_none());
    let root = AllocatorRoot::with_free_blocks(128, &vec![(0, 32), (32, 32)]).unwrap();
    assert_eq!(vec![(0, 32), (32, 32)], root.free_blocks());
}

#[test]
fn find_insertion_point_skips_to_last_node_before_block() {
    let alloc_data = init_allocator(
        256,
        vec![
            TestNode { size: 32, free: true },
            TestNode { size: 32, free: false },
            TestNode { size: 32, free: true },
            TestNode { size: 32, free: false },
            TestNode { size: 32, free: true },
            TestNode { size: 96, free: false },
        ],
    );
    let (previous, next) = alloc_data
        .allocator
        .find_insertion_point(alloc_data.ptr_collection[3], alloc_data.free_root_ptr.unwrap());
    assert_eq!(Some(alloc_data.ptr_collection[2]), previous);
    assert_eq!(Some(alloc_data.ptr_collection[4]), next);
}
