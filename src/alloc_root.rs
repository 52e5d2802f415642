//! The free list: an address-ordered list of free blocks whose headers live in
//! the arena's own bytes, with splitting on allocation and coalescing on
//! deallocation.
use crate::arena::{lemma_word_frame, read_word, word_at, write_word};
use crate::block_list::{
    blocks_in_arena, blocks_of, blocks_sorted, blocks_coalesced, fits, insert_merge,
    insertion_index, insertion_pair, is_first_fit, is_insertion_index, lemma_insert_merge,
    lemma_insert_merge_coalesces, lemma_insert_merge_first, merge_outcome,
    lemma_insertion_index, merge_bounds, next_link, ranges_disjoint, reservation_end,
    reservation_start, specs_in, split_blocks, Block, Reservation,
};
use crate::node::{
    alloc_specs_for, consumed_size, lemma_alloc_specs_shape, AllocationSpecs, Node,
    ALLOCATION_METADATA_LAYOUT_SIZE, NODE_LAYOUT_SIZE,
};
use vstd::prelude::*;

verus! {

/// The node that the header of block `i` holds.
pub open spec fn node_of(s: Seq<Block>, i: int) -> Node {
    Node { next_ptr: next_link(s, i), size: s[i].1 as usize }
}

/// Whether the bytes at `a` hold the header of node `n`.
pub open spec fn stores_node(mem: Seq<u8>, a: int, n: Node) -> bool {
    &&& 0 <= a
    &&& a + NODE_LAYOUT_SIZE <= mem.len()
    &&& word_at(mem, a) == (if n.next_ptr is Some {
        1u64
    } else {
        0u64
    })
    &&& word_at(mem, a + 8) == (if n.next_ptr is Some {
        n.next_ptr->Some_0 as u64
    } else {
        0u64
    })
    &&& word_at(mem, a + 16) == n.size as u64
}

/// The node that the header at `a` decodes to.
pub open spec fn node_at(mem: Seq<u8>, a: int) -> Node {
    Node {
        next_ptr: if word_at(mem, a) == 0 {
            None
        } else {
            Some(word_at(mem, a + 8) as usize)
        },
        size: word_at(mem, a + 16) as usize,
    }
}

/// Whether the bytes at `a` hold allocation metadata with these paddings.
pub open spec fn stores_metadata(mem: Seq<u8>, a: int, align_padding: int, fill_padding: int) -> bool {
    &&& 0 <= a
    &&& a + ALLOCATION_METADATA_LAYOUT_SIZE <= mem.len()
    &&& word_at(mem, a) == align_padding
    &&& word_at(mem, a + 8) == fill_padding
}

/// Every block's header is written at its position and links to the next block.
pub open spec fn headers_stored(mem: Seq<u8>, s: Seq<Block>) -> bool {
    forall|i: int| 0 <= i < s.len() ==> stores_node(mem, (#[trigger] s[i]).0, node_of(s, i))
}

/// Each live allocation's block lies in the arena and can host a node header,
/// and its metadata is stored right after its payload.
pub open spec fn live_stored(mem: Seq<u8>, live: Map<int, Reservation>) -> bool {
    forall|p: int|
        #[trigger] live.contains_key(p) ==> {
            let r = live[p];
            &&& 0 <= r.0 && 0 <= r.1 && 0 <= r.2
            &&& 0 <= reservation_start(p, r)
            &&& reservation_end(p, r) <= mem.len()
            &&& reservation_end(p, r) - reservation_start(p, r) >= NODE_LAYOUT_SIZE
            &&& stores_metadata(mem, p + r.0, r.1, r.2)
        }
}

/// No two live allocations' blocks overlap.
pub open spec fn live_disjoint(live: Map<int, Reservation>) -> bool {
    forall|p: int, q: int|
        #[trigger] live.contains_key(p) && #[trigger] live.contains_key(q) && p != q
            ==> ranges_disjoint(
            reservation_start(p, live[p]),
            reservation_end(p, live[p]),
            reservation_start(q, live[q]),
            reservation_end(q, live[q]),
        )
}

/// No live allocation's block overlaps a free block.
pub open spec fn live_clear_of(live: Map<int, Reservation>, s: Seq<Block>) -> bool {
    forall|p: int, i: int|
        #[trigger] live.contains_key(p) && 0 <= i < s.len() ==> ranges_disjoint(
            reservation_start(p, live[p]),
            reservation_end(p, live[p]),
            (#[trigger] s[i]).0,
            s[i].0 + s[i].1,
        )
}

/// The node that freeing `size` bytes at `block` produces between `prev` and
/// `next` (each a position with the node stored there), and where it is
/// written: it absorbs `prev` when `prev` ends at `block`, and `next` when the
/// result ends where `next` starts.
pub open spec fn merged_node(
    block: int,
    size: int,
    prev: Option<(usize, Node)>,
    next: Option<(usize, Node)>,
) -> (Node, usize) {
    let merge_prev = prev is Some && prev->Some_0.0 + prev->Some_0.1.size == block;
    let dest = if merge_prev {
        prev->Some_0.0 as int
    } else {
        block
    };
    let sz = if merge_prev {
        size + prev->Some_0.1.size
    } else {
        size
    };
    let link = if prev is Some {
        prev->Some_0.1.next_ptr
    } else {
        None
    };
    if next is Some {
        if dest + sz == next->Some_0.0 {
            (
                Node { next_ptr: next->Some_0.1.next_ptr, size: (sz + next->Some_0.1.size) as usize },
                dest as usize,
            )
        } else {
            (Node { next_ptr: Some(next->Some_0.0), size: sz as usize }, dest as usize)
        }
    } else {
        (Node { next_ptr: link, size: sz as usize }, dest as usize)
    }
}

/// A position paired with the node decoded there, when there is a position.
pub open spec fn with_node(mem: Seq<u8>, p: Option<usize>) -> Option<(usize, Node)> {
    match p {
        Some(a) => Some((a, node_at(mem, a as int))),
        None => None,
    }
}

/// Decoding a stored header gives the node back.
pub proof fn lemma_node_at(mem: Seq<u8>, a: int, n: Node)
    requires
        stores_node(mem, a, n),
    ensures
        node_at(mem, a) == n,
{
}

/// A header survives any change of bytes outside it.
pub proof fn lemma_stores_node_frame(m1: Seq<u8>, m2: Seq<u8>, a: int, n: Node, lo: int, hi: int)
    requires
        stores_node(m1, a, n),
        m1.len() == m2.len(),
        forall|i: int| 0 <= i < m1.len() && !(lo <= i < hi) ==> m2[i] == m1[i],
        ranges_disjoint(a, a + NODE_LAYOUT_SIZE, lo, hi),
    ensures
        stores_node(m2, a, n),
{
    lemma_word_frame(m1, m2, a);
    lemma_word_frame(m1, m2, a + 8);
    lemma_word_frame(m1, m2, a + 16);
}

/// A header depends on its own bytes only.
pub proof fn lemma_stores_node_same(m1: Seq<u8>, m2: Seq<u8>, a: int, n: Node)
    requires
        stores_node(m1, a, n),
        m1.len() == m2.len(),
        forall|i: int| a <= i < a + NODE_LAYOUT_SIZE ==> m2[i] == m1[i],
    ensures
        stores_node(m2, a, n),
{
    lemma_word_frame(m1, m2, a);
    lemma_word_frame(m1, m2, a + 8);
    lemma_word_frame(m1, m2, a + 16);
}

/// Allocation metadata depends on its own bytes only.
pub proof fn lemma_stores_metadata_same(m1: Seq<u8>, m2: Seq<u8>, a: int, pad: int, fill: int)
    requires
        stores_metadata(m1, a, pad, fill),
        m1.len() == m2.len(),
        forall|i: int| a <= i < a + ALLOCATION_METADATA_LAYOUT_SIZE ==> m2[i] == m1[i],
    ensures
        stores_metadata(m2, a, pad, fill),
{
    lemma_word_frame(m1, m2, a);
    lemma_word_frame(m1, m2, a + 8);
}

/// Reads the node header stored at `a`.
fn read_node(mem: &Vec<u8>, a: usize, Ghost(n): Ghost<Node>) -> (r: Node)
    requires
        stores_node(mem@, a as int, n),
    ensures
        r == n,
        r == node_at(mem@, a as int),
{
    let _len = mem.len();
    let tag = read_word(mem, a);
    let next = read_word(mem, a + 8);
    let size = read_word(mem, a + 16);
    Node {
        next_ptr: if tag != 0 {
            Some(next)
        } else {
            None
        },
        size,
    }
}

/// Writes the header of node `n` at `a`.
fn write_node(mem: &mut Vec<u8>, a: usize, n: Node)
    requires
        a + NODE_LAYOUT_SIZE <= old(mem)@.len(),
    ensures
        final(mem)@.len() == old(mem)@.len(),
        stores_node(final(mem)@, a as int, n),
        forall|i: int|
            0 <= i < old(mem)@.len() && !(a <= i < a + NODE_LAYOUT_SIZE)
                ==> #[trigger] final(mem)@[i] == old(mem)@[i],
{
    let _len = mem.len();
    let (tag, next) = match n.next_ptr {
        Some(next) => (1usize, next),
        None => (0usize, 0usize),
    };
    write_word(mem, a, tag);
    let ghost m0 = mem@;
    write_word(mem, a + 8, next);
    proof {
        lemma_word_frame(m0, mem@, a as int);
    }
    let ghost m1 = mem@;
    write_word(mem, a + 16, n.size);
    proof {
        lemma_word_frame(m1, mem@, a as int);
        lemma_word_frame(m1, mem@, a + 8);
    }
}

/// The free-list state: the arena's bytes, the position of the first free
/// node, and the model of the free blocks and of the live allocations.
pub struct AllocatorRoot {
    free_root: Option<usize>,
    memory: Vec<u8>,
    free_blocks: Ghost<Seq<Block>>,
    live: Ghost<Map<int, Reservation>>,
}

/// The bytes that freeing a block writes: the new node's header and, when
/// the previous node does not absorb the block, the previous node's header.
pub open spec fn freed_bytes_only(m0: Seq<u8>, m2: Seq<u8>, s: Seq<Block>, a: int, size: int) -> bool {
    let k = insertion_index(s, a);
    let mb = merge_bounds(s, a, size);
    let relink = k > 0 && mb.0 == k;
    &&& m0.len() == m2.len()
    &&& forall|i: int|
        0 <= i < m0.len() && !(mb.2 <= i < mb.2 + NODE_LAYOUT_SIZE) && !(relink && s[k - 1].0 <= i
            < s[k - 1].0 + NODE_LAYOUT_SIZE) ==> m2[i] == m0[i]
}

/// After freeing a block, the headers before the new node that are not
/// rewritten stay as they were.
proof fn lemma_freed_headers_before(m0: Seq<u8>, m2: Seq<u8>, s: Seq<Block>, a: int, size: int)
    requires
        blocks_sorted(s),
        blocks_in_arena(s, m0.len() as int),
        size >= NODE_LAYOUT_SIZE,
        0 <= a,
        a + size <= m0.len(),
        forall|i: int|
            0 <= i < s.len() ==> ranges_disjoint(a, a + size, (#[trigger] s[i]).0, s[i].0 + s[i].1),
        headers_stored(m0, s),
        freed_bytes_only(m0, m2, s, a, size),
    ensures
        ({
            let k = insertion_index(s, a);
            let lo = merge_bounds(s, a, size).0;
            let t = insert_merge(s, a, size);
            forall|j: int|
                0 <= j < lo && !(k > 0 && lo == k && j == k - 1) ==> stores_node(
                    m2,
                    (#[trigger] t[j]).0,
                    node_of(t, j),
                )
        }),
{
    lemma_insert_merge(s, a, size, m0.len() as int);
    let k = insertion_index(s, a);
    let mb = merge_bounds(s, a, size);
    let lo = mb.0;
    let t = insert_merge(s, a, size);
    let relink = k > 0 && lo == k;
    assert forall|j: int| 0 <= j < lo && !(relink && j == k - 1) implies stores_node(
        m2,
        (#[trigger] t[j]).0,
        node_of(t, j),
    ) by {
        if relink {
            assert(s[j].0 + s[j].1 <= s[k - 1].0);
        }
        assert(t[j] == s[j]);
        if j + 1 < lo {
            assert(t[j + 1] == s[j + 1]);
        }
        assert(node_of(t, j) == node_of(s, j));
        assert(stores_node(m0, s[j].0, node_of(s, j)));
        lemma_stores_node_same(m0, m2, s[j].0, node_of(s, j));
    }
}

/// After freeing a block, the headers after the new node stay as they were.
proof fn lemma_freed_headers_after(m0: Seq<u8>, m2: Seq<u8>, s: Seq<Block>, a: int, size: int)
    requires
        blocks_sorted(s),
        blocks_in_arena(s, m0.len() as int),
        size >= NODE_LAYOUT_SIZE,
        0 <= a,
        a + size <= m0.len(),
        forall|i: int|
            0 <= i < s.len() ==> ranges_disjoint(a, a + size, (#[trigger] s[i]).0, s[i].0 + s[i].1),
        headers_stored(m0, s),
        freed_bytes_only(m0, m2, s, a, size),
    ensures
        ({
            let lo = merge_bounds(s, a, size).0;
            let t = insert_merge(s, a, size);
            forall|j: int| lo < j < t.len() ==> stores_node(m2, (#[trigger] t[j]).0, node_of(t, j))
        }),
{
    lemma_insert_merge(s, a, size, m0.len() as int);
    let k = insertion_index(s, a);
    let mb = merge_bounds(s, a, size);
    let (lo, hi) = (mb.0, mb.1);
    let t = insert_merge(s, a, size);
    let relink = k > 0 && lo == k;
    assert forall|j: int| lo < j < t.len() implies stores_node(
        m2,
        (#[trigger] t[j]).0,
        node_of(t, j),
    ) by {
        let jj = j - lo - 1 + hi;
        assert(t[j] == s[jj]);
        if j + 1 < t.len() {
            assert(t[j + 1] == s[jj + 1]);
        }
        assert(node_of(t, j) == node_of(s, jj));
        assert(stores_node(m0, s[jj].0, node_of(s, jj)));
        if relink {
            assert(s[k - 1].0 + s[k - 1].1 <= a);
        }
        lemma_stores_node_same(m0, m2, s[jj].0, node_of(s, jj));
    }
}

/// After freeing a block, every header but the rewritten ones stays, and with
/// those the new list links up.
proof fn lemma_freed_headers(m0: Seq<u8>, m2: Seq<u8>, s: Seq<Block>, a: int, size: int)
    requires
        blocks_sorted(s),
        blocks_in_arena(s, m0.len() as int),
        size >= NODE_LAYOUT_SIZE,
        0 <= a,
        a + size <= m0.len(),
        forall|i: int|
            0 <= i < s.len() ==> ranges_disjoint(a, a + size, (#[trigger] s[i]).0, s[i].0 + s[i].1),
        headers_stored(m0, s),
        freed_bytes_only(m0, m2, s, a, size),
        ({
            let k = insertion_index(s, a);
            let mb = merge_bounds(s, a, size);
            let t = insert_merge(s, a, size);
            &&& stores_node(m2, mb.2, node_of(t, mb.0))
            &&& k > 0 && mb.0 == k ==> stores_node(m2, s[k - 1].0, node_of(t, k - 1))
        }),
    ensures
        headers_stored(m2, insert_merge(s, a, size)),
{
    lemma_insert_merge(s, a, size, m0.len() as int);
    lemma_freed_headers_before(m0, m2, s, a, size);
    lemma_freed_headers_after(m0, m2, s, a, size);
    let k = insertion_index(s, a);
    let lo = merge_bounds(s, a, size).0;
    let t = insert_merge(s, a, size);
    assert forall|j: int| 0 <= j < t.len() implies stores_node(
        m2,
        (#[trigger] t[j]).0,
        node_of(t, j),
    ) by {
        if j == lo {
        } else if k > 0 && lo == k && j == k - 1 {
        }
    }
}

/// After freeing a block that no live allocation overlaps, live metadata
/// stays, and no live block overlaps the new list.
proof fn lemma_freed_live(
    m0: Seq<u8>,
    m2: Seq<u8>,
    s: Seq<Block>,
    live: Map<int, Reservation>,
    a: int,
    size: int,
)
    requires
        blocks_sorted(s),
        blocks_in_arena(s, m0.len() as int),
        size >= NODE_LAYOUT_SIZE,
        0 <= a,
        a + size <= m0.len(),
        forall|i: int|
            0 <= i < s.len() ==> ranges_disjoint(a, a + size, (#[trigger] s[i]).0, s[i].0 + s[i].1),
        freed_bytes_only(m0, m2, s, a, size),
        live_stored(m0, live),
        live_clear_of(live, s),
        forall|p: int|
            #[trigger] live.contains_key(p) ==> ranges_disjoint(
                a,
                a + size,
                reservation_start(p, live[p]),
                reservation_end(p, live[p]),
            ),
    ensures
        live_stored(m2, live),
        live_clear_of(live, insert_merge(s, a, size)),
{
    lemma_insert_merge(s, a, size, m0.len() as int);
    let k = insertion_index(s, a);
    let mb = merge_bounds(s, a, size);
    let (lo, hi, dest, sz) = (mb.0, mb.1, mb.2, mb.3);
    let t = insert_merge(s, a, size);
    assert forall|p: int| #[trigger] live.contains_key(p) implies stores_metadata(
        m2,
        p + live[p].0,
        live[p].1,
        live[p].2,
    ) by {
        let r = live[p];
        if k > 0 {
            assert(ranges_disjoint(
                reservation_start(p, r),
                reservation_end(p, r),
                s[k - 1].0,
                s[k - 1].0 + s[k - 1].1,
            ));
        }
        if k < s.len() {
            assert(ranges_disjoint(
                reservation_start(p, r),
                reservation_end(p, r),
                s[k].0,
                s[k].0 + s[k].1,
            ));
        }
        lemma_stores_metadata_same(m0, m2, p + r.0, r.1, r.2);
    }
    assert forall|p: int, i: int|
        #[trigger] live.contains_key(p) && 0 <= i < t.len() implies ranges_disjoint(
        reservation_start(p, live[p]),
        reservation_end(p, live[p]),
        (#[trigger] t[i]).0,
        t[i].0 + t[i].1,
    ) by {
        let r = live[p];
        if i < lo {
        } else if i == lo {
            if lo < k {
                assert(ranges_disjoint(
                    reservation_start(p, r),
                    reservation_end(p, r),
                    s[k - 1].0,
                    s[k - 1].0 + s[k - 1].1,
                ));
            }
            if hi > k {
                assert(ranges_disjoint(
                    reservation_start(p, r),
                    reservation_end(p, r),
                    s[k].0,
                    s[k].0 + s[k].1,
                ));
            }
        } else {
            assert(t[i] == s[i - lo - 1 + hi]);
        }
    }
}

/// The bytes that carving an allocation out of block `i` writes: bytes of the
/// block itself and the header of the block before it.
pub open spec fn split_bytes_only(m0: Seq<u8>, m2: Seq<u8>, s: Seq<Block>, i: int) -> bool {
    &&& m0.len() == m2.len()
    &&& forall|x: int|
        0 <= x < m0.len() && !(s[i].0 <= x < s[i].0 + s[i].1) && !(i > 0 && s[i - 1].0 <= x < s[i
            - 1].0 + NODE_LAYOUT_SIZE) ==> m2[x] == m0[x]
}

/// After carving an allocation out of block `i`, the new list is sorted and in
/// the arena, and with the rewritten headers it links up.
proof fn lemma_split_headers(m0: Seq<u8>, m2: Seq<u8>, s: Seq<Block>, i: int, a: AllocationSpecs)
    requires
        blocks_sorted(s),
        blocks_in_arena(s, m0.len() as int),
        headers_stored(m0, s),
        0 <= i < s.len(),
        consumed_size(a) + a.remaining_size == s[i].1,
        a.remaining_size == 0 || a.remaining_size >= NODE_LAYOUT_SIZE,
        consumed_size(a) >= NODE_LAYOUT_SIZE,
        split_bytes_only(m0, m2, s, i),
        a.remaining_size != 0 ==> stores_node(
            m2,
            split_blocks(s, i, a)[i].0,
            node_of(split_blocks(s, i, a), i),
        ),
        i > 0 ==> stores_node(m2, s[i - 1].0, node_of(split_blocks(s, i, a), i - 1)),
    ensures
        headers_stored(m2, split_blocks(s, i, a)),
        blocks_sorted(split_blocks(s, i, a)),
        blocks_in_arena(split_blocks(s, i, a), m0.len() as int),
{
    let t = split_blocks(s, i, a);
    let gone: int = if a.remaining_size == 0 {
        1
    } else {
        0
    };
    assert(t.len() == s.len() - gone);
    assert forall|j: int| 0 <= j < t.len() implies #[trigger] t[j] == (if j < i || gone == 0 {
        if j == i {
            (s[i].0 + consumed_size(a), a.remaining_size as int)
        } else {
            s[j]
        }
    } else {
        s[j + 1]
    }) by {}
    assert forall|j: int| 0 <= j < t.len() && j != i && j != i - 1 implies stores_node(
        m2,
        (#[trigger] t[j]).0,
        node_of(t, j),
    ) by {
        let jj = if j < i || gone == 0 {
            j
        } else {
            j + 1
        };
        assert(t[j] == s[jj]);
        if j + 1 < t.len() {
            if j + 1 != i || gone == 1 {
                assert(t[j + 1] == s[jj + 1]);
            }
        }
        assert(node_of(t, j) == node_of(s, jj));
        assert(stores_node(m0, s[jj].0, node_of(s, jj)));
        if jj < i {
            assert(s[jj].0 + s[jj].1 <= s[i].0);
            if i > 0 && jj < i - 1 {
                assert(s[jj].0 + s[jj].1 <= s[i - 1].0);
            }
        } else {
            assert(s[i].0 + s[i].1 <= s[jj].0);
        }
        lemma_stores_node_same(m0, m2, s[jj].0, node_of(s, jj));
    }
    assert forall|j: int| 0 <= j < t.len() implies stores_node(
        m2,
        (#[trigger] t[j]).0,
        node_of(t, j),
    ) by {
        if j == i && gone == 1 {
            let jj = j + 1;
            assert(t[j] == s[jj]);
            if j + 1 < t.len() {
                assert(t[j + 1] == s[jj + 1]);
            }
            assert(node_of(t, j) == node_of(s, jj));
            assert(stores_node(m0, s[jj].0, node_of(s, jj)));
            assert(s[i].0 + s[i].1 <= s[jj].0);
            lemma_stores_node_same(m0, m2, s[jj].0, node_of(s, jj));
        }
    }
    assert forall|x: int, y: int| #![trigger t[x], t[y]] 0 <= x < y < t.len() implies t[x].0 + t[x].1
        <= t[y].0 by {
        let xx = if x < i || gone == 0 {
            x
        } else {
            x + 1
        };
        let yy = if y < i || gone == 0 {
            y
        } else {
            y + 1
        };
        assert(s[xx].0 + s[xx].1 <= s[yy].0);
    }
    assert forall|j: int| 0 <= j < t.len() implies 0 <= (#[trigger] t[j]).0 && t[j].1
        >= NODE_LAYOUT_SIZE && t[j].0 + t[j].1 <= m0.len() by {
        let jj = if j < i || gone == 0 {
            j
        } else {
            j + 1
        };
        assert(s[jj].0 >= 0);
    }
}

/// After carving an allocation out of block `i`, the existing live metadata
/// stays and no live block overlaps the new list.
proof fn lemma_split_live(
    m0: Seq<u8>,
    m2: Seq<u8>,
    s: Seq<Block>,
    live: Map<int, Reservation>,
    i: int,
    a: AllocationSpecs,
)
    requires
        blocks_sorted(s),
        blocks_in_arena(s, m0.len() as int),
        0 <= i < s.len(),
        consumed_size(a) + a.remaining_size == s[i].1,
        split_bytes_only(m0, m2, s, i),
        live_stored(m0, live),
        live_clear_of(live, s),
    ensures
        live_stored(m2, live),
        live_clear_of(live, split_blocks(s, i, a)),
{
    let t = split_blocks(s, i, a);
    assert forall|p: int| #[trigger] live.contains_key(p) implies stores_metadata(
        m2,
        p + live[p].0,
        live[p].1,
        live[p].2,
    ) by {
        let r = live[p];
        assert(ranges_disjoint(reservation_start(p, r), reservation_end(p, r), s[i].0, s[i].0 + s[i].1));
        if i > 0 {
            assert(ranges_disjoint(
                reservation_start(p, r),
                reservation_end(p, r),
                s[i - 1].0,
                s[i - 1].0 + s[i - 1].1,
            ));
        }
        lemma_stores_metadata_same(m0, m2, p + r.0, r.1, r.2);
    }
    assert forall|p: int, j: int|
        #[trigger] live.contains_key(p) && 0 <= j < t.len() implies ranges_disjoint(
        reservation_start(p, live[p]),
        reservation_end(p, live[p]),
        (#[trigger] t[j]).0,
        t[j].0 + t[j].1,
    ) by {
        if a.remaining_size == 0 && j >= i {
            assert(t[j] == s[j + 1]);
        } else if j != i {
            assert(t[j] == s[j]);
        } else {
            assert(ranges_disjoint(
                reservation_start(p, live[p]),
                reservation_end(p, live[p]),
                s[i].0,
                s[i].0 + s[i].1,
            ));
        }
    }
}

/// The allocation carved out of block `i` at payload position `p` is a new
/// live allocation whose block overlaps no other live block and no block of
/// the new list.
proof fn lemma_split_reserve(
    m2: Seq<u8>,
    s: Seq<Block>,
    live: Map<int, Reservation>,
    i: int,
    a: AllocationSpecs,
    p: int,
)
    requires
        blocks_sorted(s),
        blocks_in_arena(s, m2.len() as int),
        0 <= i < s.len(),
        consumed_size(a) + a.remaining_size == s[i].1,
        consumed_size(a) >= NODE_LAYOUT_SIZE,
        p == s[i].0 + a.padding,
        live_stored(m2, live),
        live_disjoint(live),
        live_clear_of(live, s),
        live_clear_of(live, split_blocks(s, i, a)),
        stores_metadata(m2, p + a.size, a.padding as int, a.fill_padding as int),
    ensures
        !live.contains_key(p),
        ({
            let l2 = live.insert(p, (a.size as int, a.padding as int, a.fill_padding as int));
            &&& live_stored(m2, l2)
            &&& live_disjoint(l2)
            &&& live_clear_of(l2, split_blocks(s, i, a))
        }),
{
    let res = (a.size as int, a.padding as int, a.fill_padding as int);
    let l2 = live.insert(p, res);
    let t = split_blocks(s, i, a);
    assert(reservation_start(p, res) == s[i].0);
    assert(reservation_end(p, res) == s[i].0 + consumed_size(a));
    if live.contains_key(p) {
        assert(ranges_disjoint(
            reservation_start(p, live[p]),
            reservation_end(p, live[p]),
            s[i].0,
            s[i].0 + s[i].1,
        ));
    }
    assert forall|q: int| #[trigger] l2.contains_key(q) implies stores_metadata(
        m2,
        q + l2[q].0,
        l2[q].1,
        l2[q].2,
    ) && 0 <= l2[q].0 && 0 <= l2[q].1 && 0 <= l2[q].2 && 0 <= reservation_start(q, l2[q])
        && reservation_end(q, l2[q]) <= m2.len() && reservation_end(q, l2[q]) - reservation_start(
        q,
        l2[q],
    ) >= NODE_LAYOUT_SIZE by {}
    assert forall|q: int, j: int|
        #[trigger] l2.contains_key(q) && 0 <= j < t.len() implies ranges_disjoint(
        reservation_start(q, l2[q]),
        reservation_end(q, l2[q]),
        (#[trigger] t[j]).0,
        t[j].0 + t[j].1,
    ) by {
        if q == p {
            if a.remaining_size == 0 && j >= i {
                assert(t[j] == s[j + 1]);
                assert(s[i].0 + s[i].1 <= s[j + 1].0);
            } else if j < i {
                assert(t[j] == s[j]);
                assert(s[j].0 + s[j].1 <= s[i].0);
            } else if j > i {
                assert(t[j] == s[j]);
                assert(s[i].0 + s[i].1 <= s[j].0);
            }
        }
    }
    assert forall|q: int, q2: int|
        #[trigger] l2.contains_key(q) && #[trigger] l2.contains_key(q2) && q != q2
            implies ranges_disjoint(
        reservation_start(q, l2[q]),
        reservation_end(q, l2[q]),
        reservation_start(q2, l2[q2]),
        reservation_end(q2, l2[q2]),
    ) by {
        if q == p {
            assert(ranges_disjoint(
                reservation_start(q2, live[q2]),
                reservation_end(q2, live[q2]),
                s[i].0,
                s[i].0 + s[i].1,
            ));
        } else if q2 == p {
            assert(ranges_disjoint(
                reservation_start(q, live[q]),
                reservation_end(q, live[q]),
                s[i].0,
                s[i].0 + s[i].1,
            ));
        }
    }
}

/// The node that `merged_node` builds from the stored neighbours of a freed
/// block is the node that the new list holds at the block's place.
proof fn lemma_merged_node_matches(mem: Seq<u8>, s: Seq<Block>, a: int, size: int)
    requires
        blocks_sorted(s),
        blocks_in_arena(s, mem.len() as int),
        mem.len() <= usize::MAX,
        headers_stored(mem, s),
        size >= NODE_LAYOUT_SIZE,
        0 <= a,
        a + size <= mem.len(),
        forall|i: int|
            0 <= i < s.len() ==> ranges_disjoint(a, a + size, (#[trigger] s[i]).0, s[i].0 + s[i].1),
    ensures
        ({
            let p = insertion_pair(s, insertion_index(s, a));
            let mb = merge_bounds(s, a, size);
            merged_node(a, size, with_node(mem, p.0), with_node(mem, p.1)) == (
                node_of(insert_merge(s, a, size), mb.0),
                mb.2 as usize,
            )
        }),
{
    lemma_insert_merge(s, a, size, mem.len() as int);
    let k = insertion_index(s, a);
    if k > 0 {
        lemma_node_at(mem, s[k - 1].0, node_of(s, k - 1));
    }
    if k < s.len() {
        lemma_node_at(mem, s[k].0, node_of(s, k));
    }
}

/// What allocating `size` bytes at alignment `align` does: with `r` of `None`
/// exactly when no free block can hold the allocation, and then nothing
/// changes; otherwise the first block that can hold it, in address order, is
/// split, its payload position is returned, a new live allocation records
/// the payload size and both paddings, and no byte changes outside that block
/// and the header of the block before it.
pub open spec fn allocate_post(
    pre: AllocatorRoot,
    post: AllocatorRoot,
    size: int,
    align: int,
    r: Option<usize>,
) -> bool {
    let s = pre.free_list();
    &&& post.capacity() == pre.capacity()
    &&& r is None <==> forall|j: int| 0 <= j < s.len() ==> !fits(#[trigger] s[j], size, align)
    &&& r is None ==> post == pre
    &&& r is Some ==> !pre.live().contains_key(r->Some_0 as int)
    &&& r is Some ==> exists|i: int|
        #![trigger is_first_fit(s, size, align, i)]
        {
            let a = specs_in(s[i], size, align);
            &&& is_first_fit(s, size, align, i)
            &&& r->Some_0 == s[i].0 + a.padding
            &&& post.free_list() == split_blocks(s, i, a)
            &&& split_bytes_only(pre.bytes(), post.bytes(), s, i)
            &&& post.live() == pre.live().insert(
                r->Some_0 as int,
                (size, a.padding as int, a.fill_padding as int),
            )
        }
}

/// What freeing the live allocation at payload position `p` does: it is no
/// longer live, its whole block, as recorded when it was made, returns to
/// the free list, and no byte changes but the new node's header and the header
/// of the node before it.
pub open spec fn deallocate_post(pre: AllocatorRoot, post: AllocatorRoot, p: int) -> bool {
    let r = pre.live()[p];
    &&& post.capacity() == pre.capacity()
    &&& post.live() == pre.live().remove(p)
    &&& freed_bytes_only(
        pre.bytes(),
        post.bytes(),
        pre.free_list(),
        reservation_start(p, r),
        reservation_end(p, r) - reservation_start(p, r),
    )
    &&& post.free_list() == insert_merge(
        pre.free_list(),
        reservation_start(p, r),
        reservation_end(p, r) - reservation_start(p, r),
    )
}

impl AllocatorRoot {
    /// The free blocks, in list order.
    pub closed spec fn free_list(&self) -> Seq<Block> {
        self.free_blocks@
    }

    /// The live allocations, by payload position.
    pub closed spec fn live(&self) -> Map<int, Reservation> {
        self.live@
    }

    /// The arena's bytes.
    pub closed spec fn bytes(&self) -> Seq<u8> {
        self.memory@
    }

    /// The position of the first free node, as stored.
    pub closed spec fn root(&self) -> Option<usize> {
        self.free_root
    }

    /// The arena's capacity in bytes.
    pub open spec fn capacity(&self) -> int {
        self.bytes().len() as int
    }

    /// Whether `a` is the position of a free block.
    pub open spec fn is_free_position(&self, a: int) -> bool {
        exists|i: int| 0 <= i < self.free_list().len() && (#[trigger] self.free_list()[i]).0 == a
    }

    /// Whether the byte range `[lo, hi)` overlaps no free block and no live
    /// allocation's block.
    pub open spec fn is_unclaimed(&self, lo: int, hi: int) -> bool {
        &&& forall|i: int|
            0 <= i < self.free_list().len() ==> ranges_disjoint(
                lo,
                hi,
                (#[trigger] self.free_list()[i]).0,
                self.free_list()[i].0 + self.free_list()[i].1,
            )
        &&& forall|p: int|
            #[trigger] self.live().contains_key(p) ==> ranges_disjoint(
                lo,
                hi,
                reservation_start(p, self.live()[p]),
                reservation_end(p, self.live()[p]),
            )
    }

    /// The state's invariant: the stored root and headers match the free list,
    /// which is sorted and inside the arena; each live allocation's metadata is
    /// stored after its payload, its block can host a node, and live blocks and
    /// free blocks never overlap.
    pub open spec fn wf(&self) -> bool {
        let s = self.free_list();
        let live = self.live();
        let mem = self.bytes();
        &&& mem.len() <= usize::MAX
        &&& self.root() == (if s.len() == 0 {
            None
        } else {
            Some(s[0].0 as usize)
        })
        &&& blocks_sorted(s)
        &&& blocks_in_arena(s, mem.len() as int)
        &&& headers_stored(mem, s)
        &&& live_stored(mem, live)
        &&& live_disjoint(live)
        &&& live_clear_of(live, s)
    }

    /// Whether no two free blocks of the list touch.
    pub open spec fn coalesced(&self) -> bool {
        blocks_coalesced(self.free_list())
    }

    /// An arena of `capacity` zeroed bytes whose whole extent is one free node,
    /// or with no free node when it is too small to hold a node header.
    pub fn new(capacity: usize) -> (r: Self)
        ensures
            r.wf(),
            r.coalesced(),
            r.capacity() == capacity,
            r.live() == Map::<int, Reservation>::empty(),
            r.free_list() == (if capacity >= NODE_LAYOUT_SIZE {
                seq![(0int, capacity as int)]
            } else {
                Seq::<Block>::empty()
            }),
    {
        let mut memory: Vec<u8> = vec![0u8; capacity];
        if capacity >= NODE_LAYOUT_SIZE {
            write_node(&mut memory, 0, Node { size: capacity, next_ptr: None });
            let ghost whole = seq![(0int, capacity as int)];
            let ghost none = Map::<int, Reservation>::empty();
            let r = AllocatorRoot {
                free_root: Some(0),
                memory,
                free_blocks: Ghost(whole),
                live: Ghost(none),
            };
            assert(node_of(r.free_list(), 0) == Node { size: capacity, next_ptr: None });
            r
        } else {
            let ghost empty = Seq::<Block>::empty();
            let ghost none = Map::<int, Reservation>::empty();
            AllocatorRoot { free_root: None, memory, free_blocks: Ghost(empty), live: Ghost(none) }
        }
    }

    /// An arena of `capacity` bytes whose free list is `blocks`, given as
    /// `(position, size)` pairs, with no live allocation; `None` unless the
    /// blocks are in increasing order without overlap, inside the arena, and
    /// each large enough for a node header.
    pub fn with_free_blocks(capacity: usize, blocks: &Vec<(usize, usize)>) -> (r: Option<Self>)
        ensures
            r is Some <==> blocks_sorted(blocks_of(blocks@)) && blocks_in_arena(
                blocks_of(blocks@),
                capacity as int,
            ),
            r is Some ==> {
                let a = r->Some_0;
                &&& a.wf()
                &&& a.capacity() == capacity
                &&& a.free_list() == blocks_of(blocks@)
                &&& a.live() == Map::<int, Reservation>::empty()
            },
    {
        let ghost t = blocks_of(blocks@);
        let n = blocks.len();
        let mut j: usize = 0;
        while j < n
            invariant
                n == blocks@.len(),
                t == blocks_of(blocks@),
                t.len() == n,
                0 <= j <= n,
                blocks_sorted(t.subrange(0, j as int)),
                blocks_in_arena(t.subrange(0, j as int), capacity as int),
            decreases n - j,
        {
            let (start, size) = blocks[j];
            if size < NODE_LAYOUT_SIZE || start > capacity || size > capacity - start {
                assert(!blocks_in_arena(t, capacity as int)) by {
                    assert(t[j as int] == (start as int, size as int));
                }
                return None;
            }
            if j > 0 {
                let (prev_start, prev_size) = blocks[j - 1];
                assert(t.subrange(0, j as int)[j - 1] == t[j - 1]);
                assert(t[j - 1] == (prev_start as int, prev_size as int));
                if prev_start + prev_size > start {
                    assert(!blocks_sorted(t)) by {
                        assert(t[j - 1] == (prev_start as int, prev_size as int));
                        assert(t[j as int] == (start as int, size as int));
                    }
                    return None;
                }
            }
            proof {
                let u = t.subrange(0, j + 1);
                assert forall|x: int, y: int| #![trigger u[x], u[y]] 0 <= x < y < u.len() implies u[x].0
                    + u[x].1 <= u[y].0 by {
                    if y == j && x < j - 1 {
                        assert(t.subrange(0, j as int)[x] == t[x]);
                        assert(t.subrange(0, j as int)[j - 1] == t[j - 1]);
                    } else if y < j {
                        assert(t.subrange(0, j as int)[x] == t[x]);
                        assert(t.subrange(0, j as int)[y] == t[y]);
                    }
                }
                assert forall|x: int| 0 <= x < u.len() implies 0 <= (#[trigger] u[x]).0 && u[x].1
                    >= NODE_LAYOUT_SIZE && u[x].0 + u[x].1 <= capacity by {
                    if x < j {
                        assert(t.subrange(0, j as int)[x] == t[x]);
                    }
                }
            }
            j += 1;
        }
        assert(t.subrange(0, n as int) =~= t);
        let mut memory: Vec<u8> = vec![0u8; capacity];
        let mut next_ptr: Option<usize> = None;
        let mut k: usize = n;
        while k > 0
            invariant
                t == blocks_of(blocks@),
                t.len() == n,
                n == blocks@.len(),
                0 <= k <= n,
                memory@.len() == capacity,
                blocks_sorted(t),
                blocks_in_arena(t, capacity as int),
                next_ptr == (if k < n {
                    Some(t[k as int].0 as usize)
                } else {
                    None
                }),
                forall|x: int| k <= x < n ==> stores_node(memory@, (#[trigger] t[x]).0, node_of(t, x)),
            decreases k,
        {
            let (start, size) = blocks[k - 1];
            let ghost m0 = memory@;
            proof {
                assert(t[k - 1] == (start as int, size as int));
            }
            write_node(&mut memory, start, Node { next_ptr, size });
            proof {
                assert forall|x: int| k <= x < n implies stores_node(
                    memory@,
                    (#[trigger] t[x]).0,
                    node_of(t, x),
                ) by {
                    assert(t[k - 1].0 + t[k - 1].1 <= t[x].0);
                    lemma_stores_node_same(m0, memory@, t[x].0, node_of(t, x));
                }
            }
            next_ptr = Some(start);
            k -= 1;
        }
        let ghost none = Map::<int, Reservation>::empty();
        Some(AllocatorRoot { free_root: next_ptr, memory, free_blocks: Ghost(t), live: Ghost(none) })
    }

    /// The free blocks as `(position, size)` pairs, found by walking the list
    /// from its root.
    pub fn free_blocks(&self) -> (r: Vec<(usize, usize)>)
        requires
            self.wf(),
        ensures
            blocks_of(r@) == self.free_list(),
    {
        let ghost s = self.free_list();
        let mut r: Vec<(usize, usize)> = Vec::new();
        let mut cursor = self.free_root;
        let ghost mut i: int = 0;
        while cursor.is_some()
            invariant
                self.wf(),
                s == self.free_list(),
                0 <= i <= s.len(),
                cursor == (if i < s.len() {
                    Some(s[i].0 as usize)
                } else {
                    None
                }),
                blocks_of(r@) == s.subrange(0, i),
            decreases s.len() - i,
        {
            let ptr = cursor.unwrap();
            let node = read_node(&self.memory, ptr, Ghost(node_of(s, i)));
            let ghost before = r@;
            r.push((ptr, node.size));
            proof {
                assert(s[i].0 + s[i].1 <= self.capacity());
                assert(blocks_of(before).len() == before.len());
                assert(before.len() == i);
                assert(r@.len() == i + 1);
                assert(blocks_of(r@).len() == i + 1);
                assert forall|x: int| 0 <= x < i implies blocks_of(r@)[x] == s[x] by {
                    assert(r@[x] == before[x]);
                    assert(blocks_of(before)[x] == s.subrange(0, i)[x]);
                }
                assert(blocks_of(r@)[i] == s[i]);
                assert(blocks_of(r@) =~= s.subrange(0, i + 1));
                if i + 1 < s.len() {
                    assert(s[i + 1].0 + s[i + 1].1 <= self.capacity());
                }
                i = i + 1;
            }
            cursor = node.next_ptr;
        }
        assert(s.subrange(0, i) =~= s);
        r
    }

    /// The position of the first free node, if any.
    pub fn free_root(&self) -> (r: Option<usize>)
        ensures
            r == self.root(),
    {
        self.free_root
    }

    /// Finds where a block at `block_ptr` enters the list that starts at
    /// `root_ptr`: the free node before it and the free node after it.
    pub fn find_insertion_point(&self, block_ptr: usize, root_ptr: usize) -> (r: (
        Option<usize>,
        Option<usize>,
    ))
        requires
            self.wf(),
            self.free_list().len() > 0,
            root_ptr == self.free_list()[0].0,
        ensures
            r == insertion_pair(self.free_list(), insertion_index(self.free_list(), block_ptr as int)),
    {
        let ghost s = self.free_list();
        proof {
            assert forall|i: int, j: int| #![trigger s[i], s[j]] 0 <= i < j < s.len() implies s[i].0 < s[j].0 by {
                assert(s[i].1 >= NODE_LAYOUT_SIZE);
            }
            lemma_insertion_index(s, block_ptr as int);
        }
        if block_ptr < root_ptr {
            assert(is_insertion_index(s, block_ptr as int, 0));
            return (None, Some(root_ptr));
        }
        let mut previous_node_ptr = root_ptr;
        let ghost mut i: int = 0;
        loop
            invariant
                s == self.free_list(),
                headers_stored(self.bytes(), s),
                blocks_in_arena(s, self.capacity()),
                self.capacity() <= usize::MAX,
                0 <= i < s.len(),
                previous_node_ptr == s[i].0,
                s[i].0 <= block_ptr,
                forall|i: int, j: int| #![trigger s[i], s[j]] 0 <= i < j < s.len() ==> s[i].0 < s[j].0,
                forall|k: int|
                    is_insertion_index(s, block_ptr as int, k) ==> k == insertion_index(
                        s,
                        block_ptr as int,
                    ),
            decreases s.len() - i,
        {
            let previous_node = read_node(&self.memory, previous_node_ptr, Ghost(node_of(s, i)));
            match previous_node.next_ptr {
                Some(ptr) => {
                    assert(i + 1 < s.len());
                    assert(s[i + 1].0 + s[i + 1].1 <= self.capacity());
                    if block_ptr < ptr {
                        assert(is_insertion_index(s, block_ptr as int, i + 1));
                        return (Some(previous_node_ptr), Some(ptr));
                    }
                    previous_node_ptr = ptr;
                    proof {
                        i = i + 1;
                    }
                },
                None => {
                    assert(is_insertion_index(s, block_ptr as int, s.len() as int));
                    return (Some(previous_node_ptr), None);
                },
            }
        }
    }
    /// Reads the free node at `a`, which is the position of a free block.
    fn read_free_node(&self, a: usize) -> (r: Node)
        requires
            self.wf(),
            self.is_free_position(a as int),
        ensures
            r == node_at(self.bytes(), a as int),
            exists|i: int|
                0 <= i < self.free_list().len() && (#[trigger] self.free_list()[i]).0 == a && r
                    == node_of(self.free_list(), i),
    {
        let ghost s = self.free_list();
        let ghost i = choose|i: int| 0 <= i < s.len() && (#[trigger] s[i]).0 == a;
        read_node(&self.memory, a, Ghost(node_of(s, i)))
    }

    /// Builds the node that freeing `block_size` bytes at `block_ptr` produces
    /// between the free nodes `previous_ptr` and `next_ptr`, merging it with
    /// either when they touch, and gives the position to write it at.
    pub fn try_merge_nodes(
        &self,
        block_ptr: usize,
        block_size: usize,
        previous_ptr: Option<usize>,
        next_ptr: Option<usize>,
    ) -> (r: (Node, usize))
        requires
            self.wf(),
            block_ptr + block_size <= self.capacity(),
            previous_ptr is Some ==> self.is_free_position(previous_ptr->Some_0 as int),
            next_ptr is Some ==> self.is_free_position(next_ptr->Some_0 as int),
        ensures
            r == merged_node(
                block_ptr as int,
                block_size as int,
                with_node(self.bytes(), previous_ptr),
                with_node(self.bytes(), next_ptr),
            ),
    {
        let ghost s = self.free_list();
        let mut node = Node { size: block_size, next_ptr: None };
        let mut new_ptr = block_ptr;
        if let Some(ptr) = previous_ptr {
            let previous = self.read_free_node(ptr);
            if new_ptr == ptr + previous.size {
                // The block extends the previous node.
                new_ptr = ptr;
                node.size = node.size + previous.size;
            }
            node.next_ptr = previous.next_ptr;
        }
        if let Some(ptr) = next_ptr {
            if new_ptr + node.size == ptr {
                // The next node extends the block.
                let next = self.read_free_node(ptr);
                node.size = node.size + next.size;
                node.next_ptr = next.next_ptr;
            } else {
                node.next_ptr = next_ptr;
            }
        }
        (node, new_ptr)
    }
    /// Makes `initial_size` bytes at `block_ptr` a free node, in address order,
    /// merged with a free neighbour that it touches on either side.
    #[verifier::rlimit(80)]
    pub fn create_free_node(&mut self, block_ptr: usize, initial_size: usize)
        requires
            old(self).wf(),
            block_ptr + initial_size <= old(self).capacity(),
            initial_size >= NODE_LAYOUT_SIZE,
            old(self).is_unclaimed(block_ptr as int, block_ptr + initial_size),
        ensures
            final(self).wf(),
            final(self).free_list() == insert_merge(
                old(self).free_list(),
                block_ptr as int,
                initial_size as int,
            ),
            final(self).live() == old(self).live(),
            final(self).capacity() == old(self).capacity(),
            freed_bytes_only(
                old(self).bytes(),
                final(self).bytes(),
                old(self).free_list(),
                block_ptr as int,
                initial_size as int,
            ),
            final(self).root() == Some(
                if old(self).root() is Some && old(self).root()->Some_0 < block_ptr {
                    old(self).root()->Some_0
                } else {
                    block_ptr
                },
            ),
            old(self).coalesced() ==> final(self).coalesced() && merge_outcome(
                old(self).free_list(),
                final(self).free_list(),
                block_ptr as int,
                initial_size as int,
            ),
    {
        let ghost s = self.free_list();
        let ghost a = block_ptr as int;
        let ghost size = initial_size as int;
        let ghost m0 = self.memory@;
        proof {
            lemma_insert_merge(s, a, size, self.capacity());
        }
        let ghost k = insertion_index(s, a);
        let ghost mb = merge_bounds(s, a, size);
        let ghost t = insert_merge(s, a, size);
        let (previous_ptr, dest_ptr) = match self.free_root {
            None => {
                // An empty list: the block becomes the only node.
                let node = Node { size: initial_size, next_ptr: None };
                write_node(&mut self.memory, block_ptr, node);
                self.free_root = Some(block_ptr);
                assert(t =~= seq![(a, size)]);
                (None, block_ptr)
            },
            Some(root_ptr) => {
                let (previous_ptr, next_ptr) = self.find_insertion_point(block_ptr, root_ptr);
                proof {
                    lemma_merged_node_matches(m0, s, a, size);
                }
                let (node, dest_ptr) = self.try_merge_nodes(
                    block_ptr,
                    initial_size,
                    previous_ptr,
                    next_ptr,
                );
                let previous = match previous_ptr {
                    Some(ptr) => Some(self.read_free_node(ptr)),
                    None => None,
                };
                write_node(&mut self.memory, dest_ptr, node);
                match previous_ptr {
                    None => {
                        self.free_root = Some(dest_ptr);
                    },
                    Some(ptr) => {
                        if ptr != dest_ptr {
                            // The previous node now links to the new one.
                            let ghost m1 = self.memory@;
                            let relinked = Node {
                                next_ptr: Some(dest_ptr),
                                size: previous.unwrap().size,
                            };
                            write_node(&mut self.memory, ptr, relinked);
                            proof {
                                lemma_stores_node_frame(
                                    m1,
                                    self.memory@,
                                    dest_ptr as int,
                                    node,
                                    ptr as int,
                                    ptr + NODE_LAYOUT_SIZE,
                                );
                            }
                        }
                    },
                }
                (previous_ptr, dest_ptr)
            },
        };
        self.free_blocks = Ghost(t);
        proof {
            assert(dest_ptr == mb.2);
            assert(freed_bytes_only(m0, self.memory@, s, a, size));
            lemma_insert_merge_first(s, a, size, self.capacity());
            if blocks_coalesced(s) {
                lemma_insert_merge_coalesces(s, a, size, self.capacity());
            }
            lemma_freed_headers(m0, self.memory@, s, a, size);
            lemma_freed_live(m0, self.memory@, s, self.live(), a, size);
        }
    }
    /// Carves the allocation laid out as `alloc_specs` out of the free node
    /// `current`, which stands at `current_ptr` after the free node at
    /// `previous_ptr`: writes the metadata after the payload, leaves the
    /// remainder as a free node in its place or unlinks it, and returns the
    /// payload's position.
    #[verifier::rlimit(80)]
    fn split_alloc(
        &mut self,
        previous_ptr: Option<usize>,
        current_ptr: usize,
        current: Node,
        alloc_specs: AllocationSpecs,
        Ghost(i): Ghost<int>,
        Ghost(align): Ghost<int>,
    ) -> (r: usize)
        requires
            old(self).wf(),
            0 <= i < old(self).free_list().len(),
            0 < align <= usize::MAX,
            current_ptr == old(self).free_list()[i].0,
            current == node_of(old(self).free_list(), i),
            previous_ptr == (if i > 0 {
                Some(old(self).free_list()[i - 1].0 as usize)
            } else {
                None
            }),
            alloc_specs_for(current.size as int, alloc_specs.size as int, align, current_ptr as int)
                == Ok::<AllocationSpecs, ()>(alloc_specs),
        ensures
            final(self).wf(),
            final(self).capacity() == old(self).capacity(),
            r == current_ptr + alloc_specs.padding,
            final(self).free_list() == split_blocks(old(self).free_list(), i, alloc_specs),
            !old(self).live().contains_key(r as int),
            final(self).live() == old(self).live().insert(
                r as int,
                (alloc_specs.size as int, alloc_specs.padding as int, alloc_specs.fill_padding as int),
            ),
            split_bytes_only(old(self).bytes(), final(self).bytes(), old(self).free_list(), i),
    {
        let ghost s = self.free_list();
        let ghost m0 = self.memory@;
        let ghost t = split_blocks(s, i, alloc_specs);
        proof {
            lemma_alloc_specs_shape(
                current.size as int,
                alloc_specs.size as int,
                align,
                current_ptr as int,
            );
        }
        let previous = match previous_ptr {
            Some(ptr) => Some(read_node(&self.memory, ptr, Ghost(node_of(s, i - 1)))),
            None => None,
        };
        let alloc_ptr = current_ptr + alloc_specs.padding;
        // Metadata right after the payload.
        let metadata_ptr = alloc_ptr + alloc_specs.size;
        write_word(&mut self.memory, metadata_ptr, alloc_specs.padding);
        let ghost m_pad = self.memory@;
        write_word(&mut self.memory, metadata_ptr + 8, alloc_specs.fill_padding);
        proof {
            lemma_word_frame(m_pad, self.memory@, metadata_ptr as int);
        }
        let ghost m_meta = self.memory@;
        let next_ptr = if alloc_specs.remaining_size != 0 {
            // The remainder becomes a free node in place of the current one.
            let node_ptr = metadata_ptr + ALLOCATION_METADATA_LAYOUT_SIZE + alloc_specs.fill_padding;
            write_node(
                &mut self.memory,
                node_ptr,
                Node { next_ptr: current.next_ptr, size: alloc_specs.remaining_size },
            );
            proof {
                lemma_stores_metadata_same(
                    m_meta,
                    self.memory@,
                    metadata_ptr as int,
                    alloc_specs.padding as int,
                    alloc_specs.fill_padding as int,
                );
            }
            Some(node_ptr)
        } else {
            // Nothing remains: the current node leaves the list.
            current.next_ptr
        };
        let ghost m_node = self.memory@;
        match previous_ptr {
            None => {
                self.free_root = next_ptr;
            },
            Some(ptr) => {
                let relinked = Node { next_ptr, size: previous.unwrap().size };
                write_node(&mut self.memory, ptr, relinked);
                proof {
                    assert(s[i - 1].0 + s[i - 1].1 <= s[i].0);
                    lemma_stores_metadata_same(
                        m_node,
                        self.memory@,
                        metadata_ptr as int,
                        alloc_specs.padding as int,
                        alloc_specs.fill_padding as int,
                    );
                    if alloc_specs.remaining_size != 0 {
                        lemma_stores_node_same(
                            m_node,
                            self.memory@,
                            t[i].0,
                            node_of(t, i),
                        );
                    }
                }
            },
        }
        let ghost res = (
            alloc_specs.size as int,
            alloc_specs.padding as int,
            alloc_specs.fill_padding as int,
        );
        proof {
            let m2 = self.memory@;
            if alloc_specs.remaining_size != 0 {
                assert(node_of(t, i) == Node {
                    next_ptr: current.next_ptr,
                    size: alloc_specs.remaining_size,
                });
            }
            if i > 0 {
                assert(node_of(t, i - 1).next_ptr == next_ptr);
            }
            assert(split_bytes_only(m0, m2, s, i));
            lemma_split_headers(m0, m2, s, i, alloc_specs);
            lemma_split_live(m0, m2, s, self.live(), i, alloc_specs);
            lemma_split_reserve(m2, s, self.live(), i, alloc_specs, alloc_ptr as int);
        }
        self.free_blocks = Ghost(t);
        self.live = Ghost(self.live@.insert(alloc_ptr as int, res));
        alloc_ptr
    }
    /// Allocates `size` bytes at alignment `align` in the first free node, in
    /// address order, that can hold them, and returns the payload's position;
    /// `None`, with nothing changed, when no free node can.
    pub fn allocate(&mut self, size: usize, align: usize) -> (r: Option<usize>)
        requires
            old(self).wf(),
            align > 0,
        ensures
            final(self).wf(),
            allocate_post(*old(self), *final(self), size as int, align as int, r),
    {
        let ghost s = self.free_list();
        let root_ptr = match self.free_root {
            Some(ptr) => ptr,
            None => return None,
        };
        let mut previous_ptr: Option<usize> = None;
        let mut node_ptr = root_ptr;
        let ghost mut i: int = 0;
        loop
            invariant
                self.wf(),
                *self == *old(self),
                s == self.free_list(),
                align > 0,
                0 <= i < s.len(),
                node_ptr == s[i].0,
                previous_ptr == (if i > 0 {
                    Some(s[i - 1].0 as usize)
                } else {
                    None
                }),
                forall|j: int| 0 <= j < i ==> !fits(#[trigger] s[j], size as int, align as int),
            decreases s.len() - i,
        {
            let node = read_node(&self.memory, node_ptr, Ghost(node_of(s, i)));
            match node.try_get_alloc_specs(size, align, node_ptr) {
                Ok(alloc_specs) => {
                    let r = self.split_alloc(
                        previous_ptr,
                        node_ptr,
                        node,
                        alloc_specs,
                        Ghost(i),
                        Ghost(align as int),
                    );
                    assert(is_first_fit(s, size as int, align as int, i));
                    return Some(r);
                },
                Err(()) => {},
            }
            match node.next_ptr {
                Some(next_ptr) => {
                    assert(s[i + 1].0 + s[i + 1].1 <= self.capacity());
                    previous_ptr = Some(node_ptr);
                    node_ptr = next_ptr;
                    proof {
                        i = i + 1;
                    }
                },
                None => {
                    return None;
                },
            }
        }
    }

    /// Frees the live allocation whose payload of `size` bytes is at `ptr`: the
    /// metadata after the payload gives back the block's start and size, and the
    /// block returns to the free list, merged with the free neighbours it touches.
    pub fn deallocate(&mut self, ptr: usize, size: usize)
        requires
            old(self).wf(),
            old(self).live().contains_key(ptr as int),
            old(self).live()[ptr as int].0 == size,
        ensures
            final(self).wf(),
            deallocate_post(*old(self), *final(self), ptr as int),
    {
        let ghost r = self.live()[ptr as int];
        let metadata = self.read_metadata(ptr, size);
        let block_ptr = ptr - metadata.align_padding;
        let block_size = metadata.align_padding + size + ALLOCATION_METADATA_LAYOUT_SIZE
            + metadata.fill_padding;
        self.live = Ghost(self.live@.remove(ptr as int));
        proof {
            let live = self.live();
            assert forall|q: int| #[trigger] live.contains_key(q) implies ranges_disjoint(
                block_ptr as int,
                block_ptr + block_size,
                reservation_start(q, live[q]),
                reservation_end(q, live[q]),
            ) by {
                assert(old(self).live().contains_key(q));
            }
            assert forall|j: int| 0 <= j < self.free_list().len() implies ranges_disjoint(
                block_ptr as int,
                block_ptr + block_size,
                (#[trigger] self.free_list()[j]).0,
                self.free_list()[j].0 + self.free_list()[j].1,
            ) by {}
        }
        self.create_free_node(block_ptr, block_size);
    }

    /// Reads the metadata stored after the live payload of `size` bytes at `ptr`.
    fn read_metadata(&self, ptr: usize, size: usize) -> (r: crate::node::AllocationMetadata)
        requires
            self.wf(),
            self.live().contains_key(ptr as int),
            self.live()[ptr as int].0 == size,
        ensures
            r.align_padding == self.live()[ptr as int].1,
            r.fill_padding == self.live()[ptr as int].2,
    {
        let metadata_ptr = ptr + size;
        let align_padding = read_word(&self.memory, metadata_ptr);
        let fill_padding = read_word(&self.memory, metadata_ptr + 8);
        crate::node::AllocationMetadata { align_padding, fill_padding }
    }
    /// Stores `data` at the start of the live payload at `ptr`; no other byte
    /// changes.
    pub fn write_payload(&mut self, ptr: usize, data: &[u8])
        requires
            old(self).wf(),
            old(self).live().contains_key(ptr as int),
            data@.len() <= old(self).live()[ptr as int].0,
        ensures
            final(self).wf(),
            final(self).free_list() == old(self).free_list(),
            final(self).live() == old(self).live(),
            final(self).bytes() == old(self).bytes().subrange(0, ptr as int) + data@
                + old(self).bytes().subrange(ptr + data@.len(), old(self).capacity()),
    {
        let ghost m0 = self.memory@;
        let ghost s = self.free_list();
        let ghost live = self.live();
        let ghost r = live[ptr as int];
        let n = data.len();
        let mut k: usize = 0;
        while k < n
            invariant
                self.free_list() == s,
                self.live() == live,
                self.root() == old(self).root(),
                m0 == old(self).bytes(),
                n == data@.len(),
                ptr + n <= m0.len(),
                m0.len() <= usize::MAX,
                0 <= k <= n,
                self.memory@.len() == m0.len(),
                forall|i: int| 0 <= i < k ==> self.memory@[ptr + i] == data@[i],
                forall|i: int|
                    0 <= i < m0.len() && !(ptr <= i < ptr + k) ==> self.memory@[i] == m0[i],
            decreases n - k,
        {
            self.memory.set(ptr + k, data[k]);
            k += 1;
        }
        proof {
            let m2 = self.memory@;
            assert(m2 =~= m0.subrange(0, ptr as int) + data@ + m0.subrange(ptr + n, m0.len() as int));
            assert forall|j: int| 0 <= j < s.len() implies stores_node(
                m2,
                (#[trigger] s[j]).0,
                node_of(s, j),
            ) by {
                assert(ranges_disjoint(
                    reservation_start(ptr as int, r),
                    reservation_end(ptr as int, r),
                    s[j].0,
                    s[j].0 + s[j].1,
                ));
                lemma_stores_node_same(m0, m2, s[j].0, node_of(s, j));
            }
            assert forall|q: int| #[trigger] live.contains_key(q) implies stores_metadata(
                m2,
                q + live[q].0,
                live[q].1,
                live[q].2,
            ) by {
                if q != ptr {
                    assert(ranges_disjoint(
                        reservation_start(ptr as int, r),
                        reservation_end(ptr as int, r),
                        reservation_start(q, live[q]),
                        reservation_end(q, live[q]),
                    ));
                }
                lemma_stores_metadata_same(m0, m2, q + live[q].0, live[q].1, live[q].2);
            }
        }
    }

    /// The first `size` bytes of the live payload at `ptr`.
    pub fn read_payload(&self, ptr: usize, size: usize) -> (r: Vec<u8>)
        requires
            self.wf(),
            self.live().contains_key(ptr as int),
            size <= self.live()[ptr as int].0,
        ensures
            r@ == self.bytes().subrange(ptr as int, ptr + size),
    {
        let mut r: Vec<u8> = Vec::new();
        let mut k: usize = 0;
        while k < size
            invariant
                self.wf(),
                self.live().contains_key(ptr as int),
                size <= self.live()[ptr as int].0,
                0 <= k <= size,
                r@ == self.bytes().subrange(ptr as int, ptr + k),
            decreases size - k,
        {
            r.push(self.memory[ptr + k]);
            k += 1;
            assert(r@ =~= self.bytes().subrange(ptr as int, ptr + k));
        }
        r
    }
}

} // verus!
