//! The free list as a sequence of blocks in address order: where a freed
//! block enters and what it merges with, and how an allocation splits a block.
use crate::node::{
    alloc_specs_for, consumed_size, AllocationSpecs, ALLOCATION_METADATA_LAYOUT_SIZE, NODE_LAYOUT_SIZE,
};
use vstd::prelude::*;

verus! {

/// A free block as the model sees it: its position and its size in bytes.
pub type Block = (int, int);

/// A live allocation as the model sees it, keyed by its payload position:
/// payload size, alignment padding before the payload, fill padding after the
/// metadata.
pub type Reservation = (int, int, int);

/// First byte of a live allocation's block.
pub open spec fn reservation_start(p: int, r: Reservation) -> int {
    p - r.1
}

/// One past the last byte of a live allocation's block.
pub open spec fn reservation_end(p: int, r: Reservation) -> int {
    p + r.0 + ALLOCATION_METADATA_LAYOUT_SIZE + r.2
}

/// Whether the byte ranges `[a0, a1)` and `[b0, b1)` share no byte.
pub open spec fn ranges_disjoint(a0: int, a1: int, b0: int, b1: int) -> bool {
    a1 <= b0 || b1 <= a0
}

/// The link that the header of block `i` holds: the position of the next block.
pub open spec fn next_link(s: Seq<Block>, i: int) -> Option<usize> {
    if i + 1 < s.len() {
        Some(s[i + 1].0 as usize)
    } else {
        None
    }
}

/// Blocks in strictly increasing order of position, none overlapping the next.
pub open spec fn blocks_sorted(s: Seq<Block>) -> bool {
    forall|i: int, j: int|
        #![trigger s[i], s[j]]
        0 <= i < j < s.len() ==> s[i].0 + s[i].1 <= s[j].0
}

/// No two consecutive blocks touch: adjacent free space is always one block.
pub open spec fn blocks_coalesced(s: Seq<Block>) -> bool {
    forall|i: int| 0 <= i < s.len() - 1 ==> s[i].0 + s[i].1 < #[trigger] s[i + 1].0
}

/// Every block lies in an arena of `cap` bytes and can hold a node header.
pub open spec fn blocks_in_arena(s: Seq<Block>, cap: int) -> bool {
    forall|i: int|
        0 <= i < s.len() ==> 0 <= (#[trigger] s[i]).0 && s[i].1 >= NODE_LAYOUT_SIZE && s[i].0
            + s[i].1 <= cap
}

/// The position at which a block at `a` enters the sorted list `s`: the number
/// of blocks positioned at or before `a`.
pub open spec fn insertion_index(s: Seq<Block>, a: int) -> int
    decreases s.len(),
{
    if s.len() == 0 {
        0
    } else if s.last().0 <= a {
        s.len() as int
    } else {
        insertion_index(s.drop_last(), a)
    }
}

/// Whether `k` splits `s` into the blocks positioned at or before `a` and those after.
pub open spec fn is_insertion_index(s: Seq<Block>, a: int, k: int) -> bool {
    &&& 0 <= k <= s.len()
    &&& forall|j: int| 0 <= j < k ==> (#[trigger] s[j]).0 <= a
    &&& forall|j: int| k <= j < s.len() ==> a < (#[trigger] s[j]).0
}

/// The neighbours of insertion index `k`: the block before it and the block at it.
pub open spec fn insertion_pair(s: Seq<Block>, k: int) -> (Option<usize>, Option<usize>) {
    (
        if k > 0 {
            Some(s[k - 1].0 as usize)
        } else {
            None
        },
        if k < s.len() {
            Some(s[k].0 as usize)
        } else {
            None
        },
    )
}

/// Where freeing `size` bytes at `block` lands in the sorted list `s`: the
/// range `[lo, hi)` of blocks that the new node replaces (the neighbours it
/// absorbs), and the new node's position and size.
pub open spec fn merge_bounds(s: Seq<Block>, block: int, size: int) -> (int, int, int, int) {
    let k = insertion_index(s, block);
    let merge_prev = k > 0 && s[k - 1].0 + s[k - 1].1 == block;
    let dest = if merge_prev {
        s[k - 1].0
    } else {
        block
    };
    let sz1 = if merge_prev {
        size + s[k - 1].1
    } else {
        size
    };
    let merge_next = k < s.len() && dest + sz1 == s[k].0;
    let sz = if merge_next {
        sz1 + s[k].1
    } else {
        sz1
    };
    let lo = if merge_prev {
        k - 1
    } else {
        k
    };
    let hi = if merge_next {
        k + 1
    } else {
        k
    };
    (lo, hi, dest, sz)
}

/// The free list after `size` bytes at `block` are freed: the block enters in
/// address order and absorbs a neighbour it touches on either side.
pub open spec fn insert_merge(s: Seq<Block>, block: int, size: int) -> Seq<Block> {
    let m = merge_bounds(s, block, size);
    s.subrange(0, m.0) + seq![(m.2, m.3)] + s.subrange(m.1, s.len() as int)
}

/// Freeing a block that overlaps no free block keeps the list sorted and in
/// the arena; the new node covers the block and exactly the neighbours it
/// replaces, and the other blocks stay as they were.
pub proof fn lemma_insert_merge(s: Seq<Block>, a: int, size: int, cap: int)
    requires
        blocks_sorted(s),
        blocks_in_arena(s, cap),
        size >= NODE_LAYOUT_SIZE,
        0 <= a,
        a + size <= cap,
        forall|i: int|
            0 <= i < s.len() ==> ranges_disjoint(a, a + size, (#[trigger] s[i]).0, s[i].0 + s[i].1),
    ensures
        ({
            let k = insertion_index(s, a);
            let m = merge_bounds(s, a, size);
            let (lo, hi, dest, sz) = (m.0, m.1, m.2, m.3);
            let t = insert_merge(s, a, size);
            &&& is_insertion_index(s, a, k)
            &&& 0 <= lo <= k <= hi <= s.len()
            &&& lo == k || (lo == k - 1 && dest == s[k - 1].0 && s[k - 1].0 + s[k - 1].1 == a)
            &&& lo == k ==> dest == a && (k > 0 ==> s[k - 1].0 + s[k - 1].1 < a)
            &&& hi == k || (hi == k + 1 && a + size == s[k].0 && dest + sz == s[k].0 + s[k].1)
            &&& hi == k ==> dest + sz == a + size && (k < s.len() ==> a + size < s[k].0)
            &&& forall|j: int| 0 <= j < k ==> s[j].0 + s[j].1 <= a
            &&& forall|j: int| k <= j < s.len() ==> a + size <= s[j].0
            &&& forall|j: int| 0 <= j < lo ==> s[j].0 + s[j].1 <= dest
            &&& forall|j: int| hi <= j < s.len() ==> dest + sz <= s[j].0
            &&& 0 <= dest <= a
            &&& a + size <= dest + sz <= cap
            &&& t.len() == s.len() - (hi - lo) + 1
            &&& forall|j: int| 0 <= j < lo ==> t[j] == s[j]
            &&& t[lo] == (dest, sz)
            &&& forall|j: int| lo < j < t.len() ==> t[j] == s[j - lo - 1 + hi]
            &&& blocks_sorted(t)
            &&& blocks_in_arena(t, cap)
        }),
{
    assert forall|i: int, j: int| #![trigger s[i], s[j]] 0 <= i < j < s.len() implies s[i].0 < s[j].0 by {
        assert(s[i].1 >= NODE_LAYOUT_SIZE);
    }
    lemma_insertion_index(s, a);
    let k = insertion_index(s, a);
    let m = merge_bounds(s, a, size);
    let (lo, hi, dest, sz) = (m.0, m.1, m.2, m.3);
    let t = insert_merge(s, a, size);
    assert forall|j: int| 0 <= j < k implies s[j].0 + s[j].1 <= a by {
        assert(s[j].0 <= a);
        assert(ranges_disjoint(a, a + size, s[j].0, s[j].0 + s[j].1));
    }
    assert forall|j: int| k <= j < s.len() implies a + size <= s[j].0 by {
        assert(a < s[j].0);
        assert(ranges_disjoint(a, a + size, s[j].0, s[j].0 + s[j].1));
    }
    assert forall|j: int| 0 <= j < lo implies s[j].0 + s[j].1 <= dest by {
        if lo < k {
            assert(s[j].0 + s[j].1 <= s[k - 1].0);
        }
    }
    assert forall|j: int| hi <= j < s.len() implies dest + sz <= s[j].0 by {
        if hi > k {
            assert(s[k].0 + s[k].1 <= s[j].0);
        }
    }
    assert forall|j: int| 0 <= j < lo implies t[j] == s[j] by {}
    assert forall|j: int| lo < j < t.len() implies t[j] == s[j - lo - 1 + hi] by {}
    assert forall|i: int, j: int| #![trigger t[i], t[j]] 0 <= i < j < t.len() implies t[i].0 + t[i].1 <= t[j].0 by {
        if j < lo {
        } else if j == lo {
        } else if i < lo {
            assert(s[i].0 + s[i].1 <= s[j - lo - 1 + hi].0);
        } else if i == lo {
        } else {
            assert(s[i - lo - 1 + hi].0 + s[i - lo - 1 + hi].1 <= s[j - lo - 1 + hi].0);
        }
    }
    assert forall|j: int| 0 <= j < t.len() implies 0 <= (#[trigger] t[j]).0 && t[j].1 >= NODE_LAYOUT_SIZE && t[j].0 + t[j].1 <= cap by {
        if j < lo {
        } else if j == lo {
        } else {
            assert(t[j] == s[j - lo - 1 + hi]);
        }
    }
}

/// A list of `(position, size)` pairs as model blocks.
pub open spec fn blocks_of(v: Seq<(usize, usize)>) -> Seq<Block> {
    v.map_values(|b: (usize, usize)| (b.0 as int, b.1 as int))
}

/// Whether an allocation of `size` bytes at alignment `align` fits in block `b`.
pub open spec fn fits(b: Block, size: int, align: int) -> bool {
    alloc_specs_for(b.1, size, align, b.0) is Ok
}

/// The layout of an allocation of `size` bytes at alignment `align` in block `b`.
pub open spec fn specs_in(b: Block, size: int, align: int) -> AllocationSpecs {
    alloc_specs_for(b.1, size, align, b.0)->Ok_0
}

/// Whether block `i` is the first, in address order, that the allocation fits in.
pub open spec fn is_first_fit(s: Seq<Block>, size: int, align: int, i: int) -> bool {
    &&& 0 <= i < s.len()
    &&& fits(s[i], size, align)
    &&& forall|j: int| 0 <= j < i ==> !fits(#[trigger] s[j], size, align)
}

/// The free list after an allocation laid out as `a` is carved from block `i`:
/// the block is replaced by its remainder, or removed when nothing remains.
pub open spec fn split_blocks(s: Seq<Block>, i: int, a: AllocationSpecs) -> Seq<Block> {
    if a.remaining_size == 0 {
        s.remove(i)
    } else {
        s.update(i, (s[i].0 + consumed_size(a), a.remaining_size as int))
    }
}

/// In a sorted list the insertion index is the one that splits it at `a`.
pub proof fn lemma_insertion_index(s: Seq<Block>, a: int)
    requires
        forall|i: int, j: int| #![trigger s[i], s[j]] 0 <= i < j < s.len() ==> s[i].0 < s[j].0,
    ensures
        is_insertion_index(s, a, insertion_index(s, a)),
        forall|k: int| is_insertion_index(s, a, k) ==> k == insertion_index(s, a),
    decreases s.len(),
{
    if s.len() == 0 {
    } else if s.last().0 <= a {
        assert forall|j: int| 0 <= j < s.len() implies (#[trigger] s[j]).0 <= a by {
            if j < s.len() - 1 {
                assert(s[j].0 < s[s.len() - 1].0);
            }
        }
        assert forall|k: int| is_insertion_index(s, a, k) implies k == s.len() by {
            if k < s.len() {
                assert(a < s[s.len() - 1].0);
            }
        }
    } else {
        let t = s.drop_last();
        lemma_insertion_index(t, a);
        assert forall|k: int| is_insertion_index(s, a, k) implies k == insertion_index(s, a) by {
            if k == s.len() {
                assert(s[s.len() - 1].0 <= a);
            }
            assert(is_insertion_index(t, a, k));
        }
        let k = insertion_index(t, a);
        assert forall|j: int| 0 <= j < k implies (#[trigger] s[j]).0 <= a by {
            assert(t[j] == s[j]);
        }
        assert forall|j: int| k <= j < s.len() implies a < (#[trigger] s[j]).0 by {
            if j < t.len() {
                assert(t[j] == s[j]);
            }
        }
    }
}


/// Carving an allocation out of the start of a block leaves no two blocks
/// touching, when none touched before.
pub proof fn lemma_split_keeps_coalesced(s: Seq<Block>, i: int, a: AllocationSpecs, cap: int)
    requires
        blocks_sorted(s),
        blocks_coalesced(s),
        blocks_in_arena(s, cap),
        0 <= i < s.len(),
        consumed_size(a) > 0,
        consumed_size(a) + a.remaining_size == s[i].1,
    ensures
        blocks_coalesced(split_blocks(s, i, a)),
{
    let t = split_blocks(s, i, a);
    assert forall|j: int| 0 <= j < t.len() - 1 implies t[j].0 + t[j].1 < #[trigger] t[j + 1].0 by {
        if a.remaining_size == 0 {
            if j + 1 < i {
                assert(t[j] == s[j] && t[j + 1] == s[j + 1]);
                assert(s[j].0 + s[j].1 < s[j + 1].0);
            } else if j + 1 == i {
                assert(t[j] == s[j] && t[j + 1] == s[j + 2]);
                assert(s[j].0 + s[j].1 < s[j + 1].0);
                assert(s[j + 1].0 + s[j + 1].1 <= s[j + 2].0);
            } else {
                assert(t[j] == s[j + 1] && t[j + 1] == s[j + 2]);
                let m = j + 1;
                assert(s[m].0 + s[m].1 < s[m + 1].0);
            }
        } else {
            assert(t.len() == s.len());
            assert(t[i] == (s[i].0 + consumed_size(a), a.remaining_size as int));
            if j + 1 == i {
                assert(t[j] == s[j]);
                assert(s[j].0 + s[j].1 < s[j + 1].0);
            } else if j == i {
                assert(t[j + 1] == s[j + 1]);
                assert(s[j].0 + s[j].1 < s[j + 1].0);
            } else {
                assert(t[j] == s[j] && t[j + 1] == s[j + 1]);
                assert(s[j].0 + s[j].1 < s[j + 1].0);
            }
        }
    }
}


/// Whether block `b` covers the byte range `[lo, hi)`.
pub open spec fn block_covers(b: Block, lo: int, hi: int) -> bool {
    b.0 <= lo && hi <= b.0 + b.1
}

/// Whether block `b` ends where `[a, a + size)` starts or starts where it ends.
pub open spec fn touches(b: Block, a: int, size: int) -> bool {
    b.0 + b.1 == a || a + size == b.0
}

/// Whether byte `x` lies in one of the blocks of `s`.
pub open spec fn in_some_block(s: Seq<Block>, x: int) -> bool {
    exists|j: int| 0 <= j < s.len() && (#[trigger] s[j]).0 <= x < s[j].0 + s[j].1
}

/// How the list `t` after freeing `[a, a + size)` relates to the list `s`
/// before: exactly one block of `t` covers the freed range, that block covers a
/// block of `s` exactly when the two touched, and the bytes in blocks of `t` are
/// those in blocks of `s` together with the freed range.
pub open spec fn merge_outcome(s: Seq<Block>, t: Seq<Block>, a: int, size: int) -> bool {
    &&& exists|m: int| 0 <= m < t.len() && block_covers(#[trigger] t[m], a, a + size)
    &&& forall|m1: int, m2: int|
        0 <= m1 < t.len() && 0 <= m2 < t.len() && block_covers(#[trigger] t[m1], a, a + size)
            && block_covers(#[trigger] t[m2], a, a + size) ==> m1 == m2
    &&& forall|m: int, j: int|
        0 <= m < t.len() && 0 <= j < s.len() && block_covers(#[trigger] t[m], a, a + size) ==> (
        block_covers(t[m], (#[trigger] s[j]).0, s[j].0 + s[j].1) <==> touches(s[j], a, size))
    &&& forall|x: int| #[trigger] in_some_block(t, x) <==> (a <= x < a + size || in_some_block(s, x))
}

/// Freeing a block into a list where no two blocks touch leaves no two blocks
/// touching.
proof fn lemma_insert_merge_keeps_coalesced(s: Seq<Block>, a: int, size: int, cap: int)
    requires
        blocks_sorted(s),
        blocks_coalesced(s),
        blocks_in_arena(s, cap),
        size >= NODE_LAYOUT_SIZE,
        0 <= a,
        a + size <= cap,
        forall|i: int|
            0 <= i < s.len() ==> ranges_disjoint(a, a + size, (#[trigger] s[i]).0, s[i].0 + s[i].1),
    ensures
        blocks_coalesced(insert_merge(s, a, size)),
{
    lemma_insert_merge(s, a, size, cap);
    let k = insertion_index(s, a);
    let mb = merge_bounds(s, a, size);
    let (lo, hi, dest, sz) = (mb.0, mb.1, mb.2, mb.3);
    let t = insert_merge(s, a, size);
    assert forall|j: int| 0 <= j < t.len() - 1 implies t[j].0 + t[j].1 < #[trigger] t[j + 1].0 by {
        if j + 1 < lo {
            assert(t[j] == s[j] && t[j + 1] == s[j + 1]);
        } else if j + 1 == lo {
            assert(t[j] == s[j]);
            assert(t[j + 1] == (dest, sz));
            if lo < k {
                let m = k - 2;
                assert(s[m].0 + s[m].1 < s[m + 1].0);
            } else {
                assert(s[k - 1].0 + s[k - 1].1 < a);
            }
        } else if j == lo {
            assert(t[j] == (dest, sz));
            assert(t[j + 1] == s[hi]);
            if hi > k {
                assert(s[k].0 + s[k].1 < s[k + 1].0);
            } else {
                assert(a + size < s[k].0);
            }
        } else {
            let jj = j - lo - 1 + hi;
            assert(t[j] == s[jj]);
            assert(t[j + 1] == s[jj + 1]);
            assert(s[jj].0 + s[jj].1 < s[jj + 1].0);
        }
    }
}

/// After freeing, exactly one block covers the freed range, and it covers a
/// former block exactly when the two touched.
proof fn lemma_insert_merge_cover(s: Seq<Block>, a: int, size: int, cap: int)
    requires
        blocks_sorted(s),
        blocks_coalesced(s),
        blocks_in_arena(s, cap),
        size >= NODE_LAYOUT_SIZE,
        0 <= a,
        a + size <= cap,
        forall|i: int|
            0 <= i < s.len() ==> ranges_disjoint(a, a + size, (#[trigger] s[i]).0, s[i].0 + s[i].1),
    ensures
        ({
            let t = insert_merge(s, a, size);
            &&& exists|m: int| 0 <= m < t.len() && block_covers(#[trigger] t[m], a, a + size)
            &&& forall|m1: int, m2: int|
                0 <= m1 < t.len() && 0 <= m2 < t.len() && block_covers(#[trigger] t[m1], a, a + size)
                    && block_covers(#[trigger] t[m2], a, a + size) ==> m1 == m2
            &&& forall|m: int, j: int|
                0 <= m < t.len() && 0 <= j < s.len() && block_covers(#[trigger] t[m], a, a + size)
                    ==> (block_covers(t[m], (#[trigger] s[j]).0, s[j].0 + s[j].1) <==> touches(
                    s[j],
                    a,
                    size,
                ))
        }),
{
    lemma_insert_merge(s, a, size, cap);
    let k = insertion_index(s, a);
    let mb = merge_bounds(s, a, size);
    let (lo, hi, dest, sz) = (mb.0, mb.1, mb.2, mb.3);
    let t = insert_merge(s, a, size);
    assert(block_covers(t[lo], a, a + size));
    assert forall|m1: int, m2: int|
        0 <= m1 < t.len() && 0 <= m2 < t.len() && block_covers(#[trigger] t[m1], a, a + size)
            && block_covers(#[trigger] t[m2], a, a + size) implies m1 == m2 by {
        if m1 < m2 {
            assert(t[m1].0 + t[m1].1 <= t[m2].0);
        } else if m2 < m1 {
            assert(t[m2].0 + t[m2].1 <= t[m1].0);
        }
    }
    assert forall|j: int| 0 <= j < s.len() implies (block_covers(t[lo], (#[trigger] s[j]).0, s[j].0
        + s[j].1) <==> touches(s[j], a, size)) by {
        if j < lo {
            if lo == k {
                if j < k - 1 {
                    assert(s[j].0 + s[j].1 <= s[k - 1].0);
                }
            } else {
                assert(s[j].0 + s[j].1 <= s[k - 1].0);
            }
        } else if j >= hi {
            if hi == k {
                if j > k {
                    assert(s[k].0 + s[k].1 <= s[j].0);
                }
            } else {
                assert(s[k].0 + s[k].1 <= s[j].0);
            }
        }
    }
    assert forall|m: int, j: int|
        0 <= m < t.len() && 0 <= j < s.len() && block_covers(#[trigger] t[m], a, a + size) implies (
    block_covers(t[m], (#[trigger] s[j]).0, s[j].0 + s[j].1) <==> touches(s[j], a, size)) by {
        if m < lo {
            assert(t[m].0 + t[m].1 <= t[lo].0);
        } else if m > lo {
            assert(t[lo].0 + t[lo].1 <= t[m].0);
        }
    }
}

/// After freeing, the bytes in blocks are the former ones and the freed range.
proof fn lemma_insert_merge_union(s: Seq<Block>, a: int, size: int, cap: int)
    requires
        blocks_sorted(s),
        blocks_coalesced(s),
        blocks_in_arena(s, cap),
        size >= NODE_LAYOUT_SIZE,
        0 <= a,
        a + size <= cap,
        forall|i: int|
            0 <= i < s.len() ==> ranges_disjoint(a, a + size, (#[trigger] s[i]).0, s[i].0 + s[i].1),
    ensures
        forall|x: int|
            #[trigger] in_some_block(insert_merge(s, a, size), x) <==> (a <= x < a + size
                || in_some_block(s, x)),
{
    lemma_insert_merge(s, a, size, cap);
    let k = insertion_index(s, a);
    let mb = merge_bounds(s, a, size);
    let (lo, hi, dest, sz) = (mb.0, mb.1, mb.2, mb.3);
    let t = insert_merge(s, a, size);
    assert forall|x: int| #[trigger] in_some_block(t, x) implies (a <= x < a + size || in_some_block(
        s,
        x,
    )) by {
        let m = choose|m: int| 0 <= m < t.len() && (#[trigger] t[m]).0 <= x < t[m].0 + t[m].1;
        if m < lo {
            assert(t[m] == s[m]);
        } else if m == lo {
            if x < a {
                assert(s[k - 1].0 <= x < s[k - 1].0 + s[k - 1].1);
            } else if x >= a + size {
                assert(s[k].0 <= x < s[k].0 + s[k].1);
            }
        } else {
            assert(t[m] == s[m - lo - 1 + hi]);
        }
    }
    assert forall|x: int| (a <= x < a + size || in_some_block(s, x)) implies #[trigger] in_some_block(
        t,
        x,
    ) by {
        if a <= x < a + size {
            assert(t[lo].0 <= x < t[lo].0 + t[lo].1);
        } else {
            let j = choose|j: int| 0 <= j < s.len() && (#[trigger] s[j]).0 <= x < s[j].0 + s[j].1;
            if j < lo {
                assert(t[j] == s[j]);
            } else if j < hi {
                assert(t[lo].0 <= x < t[lo].0 + t[lo].1);
            } else {
                assert(t[j - hi + lo + 1] == s[j]);
            }
        }
    }
}

/// Freeing a block into a list where no two blocks touch leaves no two blocks
/// touching, with the outcome that `merge_outcome` describes.
pub proof fn lemma_insert_merge_coalesces(s: Seq<Block>, a: int, size: int, cap: int)
    requires
        blocks_sorted(s),
        blocks_coalesced(s),
        blocks_in_arena(s, cap),
        size >= NODE_LAYOUT_SIZE,
        0 <= a,
        a + size <= cap,
        forall|i: int|
            0 <= i < s.len() ==> ranges_disjoint(a, a + size, (#[trigger] s[i]).0, s[i].0 + s[i].1),
    ensures
        blocks_coalesced(insert_merge(s, a, size)),
        merge_outcome(s, insert_merge(s, a, size), a, size),
{
    lemma_insert_merge_keeps_coalesced(s, a, size, cap);
    lemma_insert_merge_cover(s, a, size, cap);
    lemma_insert_merge_union(s, a, size, cap);
}

/// After freeing, the list starts at the lower of its former first position
/// and the freed block.
pub proof fn lemma_insert_merge_first(s: Seq<Block>, a: int, size: int, cap: int)
    requires
        blocks_sorted(s),
        blocks_in_arena(s, cap),
        size >= NODE_LAYOUT_SIZE,
        0 <= a,
        a + size <= cap,
        forall|i: int|
            0 <= i < s.len() ==> ranges_disjoint(a, a + size, (#[trigger] s[i]).0, s[i].0 + s[i].1),
    ensures
        insert_merge(s, a, size).len() > 0,
        insert_merge(s, a, size)[0].0 == (if s.len() > 0 && s[0].0 < a {
            s[0].0
        } else {
            a
        }),
{
    lemma_insert_merge(s, a, size, cap);
    let k = insertion_index(s, a);
    let lo = merge_bounds(s, a, size).0;
    let t = insert_merge(s, a, size);
    if s.len() > 0 && k > 0 {
        assert(s[0].0 + s[0].1 <= a);
    }
    if lo > 0 {
        assert(t[0] == s[0]);
    }
}

} // verus!
