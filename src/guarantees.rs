//! What the free-list allocator guarantees across calls, proved from the
//! operations' contracts.
use crate::alloc_root::{
    allocate_post, deallocate_post, freed_bytes_only, split_bytes_only, AllocatorRoot,
};
use crate::block_list::{
    blocks_coalesced, blocks_in_arena, blocks_sorted, insert_merge, insertion_index,
    is_first_fit, lemma_insert_merge, lemma_insert_merge_coalesces, lemma_split_keeps_coalesced,
    merge_bounds, merge_outcome, ranges_disjoint, reservation_end,
    reservation_start, specs_in, split_blocks, Block,
};
use crate::node::{consumed_size, lemma_alloc_specs_shape, NODE_LAYOUT_SIZE};
use vstd::prelude::*;

verus! {

/// The payloads of two distinct live allocations never share a byte.
pub proof fn lemma_live_payloads_disjoint(a: AllocatorRoot, p: int, q: int)
    requires
        a.wf(),
        a.live().contains_key(p),
        a.live().contains_key(q),
        p != q,
    ensures
        ranges_disjoint(p, p + a.live()[p].0, q, q + a.live()[q].0),
{
}

/// A successful allocation returns a payload that shares no byte with the
/// payload of any allocation that was live before it, so the payloads of a
/// run of allocations are pairwise disjoint.
pub proof fn lemma_fresh_payload_disjoint(
    pre: AllocatorRoot,
    post: AllocatorRoot,
    size: int,
    align: int,
    r: usize,
)
    requires
        pre.wf(),
        post.wf(),
        allocate_post(pre, post, size, align, Some(r)),
    ensures
        post.live().contains_key(r as int),
        post.live()[r as int].0 == size,
        forall|q: int|
            #[trigger] pre.live().contains_key(q) ==> ranges_disjoint(
                r as int,
                r + size,
                q,
                q + pre.live()[q].0,
            ),
{
    assert forall|q: int| #[trigger] pre.live().contains_key(q) implies ranges_disjoint(
        r as int,
        r + size,
        q,
        q + pre.live()[q].0,
    ) by {
        assert(post.live().contains_key(q));
        assert(post.live()[q] == pre.live()[q]);
        lemma_live_payloads_disjoint(post, r as int, q);
    }
}

/// Walking the free list from its root meets strictly increasing positions.
pub proof fn lemma_free_list_increasing(a: AllocatorRoot)
    requires
        a.wf(),
    ensures
        forall|i: int, j: int|
            #![trigger a.free_list()[i], a.free_list()[j]]
            0 <= i < j < a.free_list().len() ==> a.free_list()[i].0 < a.free_list()[j].0,
{
    let s = a.free_list();
    assert forall|i: int, j: int| #![trigger s[i], s[j]] 0 <= i < j < s.len() implies s[i].0 < s[j].0 by {
        assert(s[i].1 >= NODE_LAYOUT_SIZE);
    }
}

/// Deallocation keeps a coalesced free list coalesced: afterwards exactly one
/// free node covers the freed block, it covers a former free block exactly when
/// that block touched the freed one, and the free bytes are the former free
/// bytes together with the freed block.
pub proof fn lemma_deallocate_coalesces(pre: AllocatorRoot, post: AllocatorRoot, p: int)
    requires
        pre.wf(),
        pre.coalesced(),
        pre.live().contains_key(p),
        deallocate_post(pre, post, p),
    ensures
        post.coalesced(),
        merge_outcome(
            pre.free_list(),
            post.free_list(),
            reservation_start(p, pre.live()[p]),
            reservation_end(p, pre.live()[p]) - reservation_start(p, pre.live()[p]),
        ),
{
    let r = pre.live()[p];
    let s = pre.free_list();
    let start = reservation_start(p, r);
    let end = reservation_end(p, r);
    assert forall|i: int| 0 <= i < s.len() implies ranges_disjoint(
        start,
        end,
        (#[trigger] s[i]).0,
        s[i].0 + s[i].1,
    ) by {}
    lemma_insert_merge_coalesces(s, start, end - start, pre.capacity());
}

/// Allocation keeps a coalesced free list coalesced.
pub proof fn lemma_allocate_keeps_coalesced(
    pre: AllocatorRoot,
    post: AllocatorRoot,
    size: int,
    align: int,
    r: Option<usize>,
)
    requires
        pre.wf(),
        pre.coalesced(),
        0 <= size,
        0 < align <= usize::MAX,
        allocate_post(pre, post, size, align, r),
    ensures
        post.coalesced(),
{
    if r is Some {
        let s = pre.free_list();
        let i = choose|i: int|
            #![trigger is_first_fit(s, size, align, i)]
            {
                let a = specs_in(s[i], size, align);
                &&& is_first_fit(s, size, align, i)
                &&& r->Some_0 == s[i].0 + a.padding
                &&& post.free_list() == split_blocks(s, i, a)
                &&& post.live() == pre.live().insert(
                    r->Some_0 as int,
                    (size, a.padding as int, a.fill_padding as int),
                )
            };
        let a = specs_in(s[i], size, align);
        lemma_alloc_specs_shape(s[i].1, size, align, s[i].0);
        lemma_split_keeps_coalesced(s, i, a, pre.capacity());
    }
}

/// Allocation changes no byte of a payload that was live before it.
pub proof fn lemma_allocate_keeps_payloads(
    pre: AllocatorRoot,
    post: AllocatorRoot,
    size: int,
    align: int,
    r: Option<usize>,
)
    requires
        pre.wf(),
        allocate_post(pre, post, size, align, r),
    ensures
        post.bytes().len() == pre.bytes().len(),
        forall|q: int, x: int|
            #[trigger] pre.live().contains_key(q) && q <= x < q + pre.live()[q].0
                ==> #[trigger] post.bytes()[x] == pre.bytes()[x],
{
    if r is Some {
        let s = pre.free_list();
        let i = choose|i: int|
            #![trigger is_first_fit(s, size, align, i)]
            {
                let a = specs_in(s[i], size, align);
                &&& is_first_fit(s, size, align, i)
                &&& r->Some_0 == s[i].0 + a.padding
                &&& post.free_list() == split_blocks(s, i, a)
                &&& split_bytes_only(pre.bytes(), post.bytes(), s, i)
                &&& post.live() == pre.live().insert(
                    r->Some_0 as int,
                    (size, a.padding as int, a.fill_padding as int),
                )
            };
        assert forall|q: int, x: int|
            #[trigger] pre.live().contains_key(q) && q <= x < q + pre.live()[q].0
                implies #[trigger] post.bytes()[x] == pre.bytes()[x] by {
            let rq = pre.live()[q];
            assert(ranges_disjoint(reservation_start(q, rq), reservation_end(q, rq), s[i].0, s[i].0 + s[i].1));
            if i > 0 {
                assert(ranges_disjoint(
                    reservation_start(q, rq),
                    reservation_end(q, rq),
                    s[i - 1].0,
                    s[i - 1].0 + s[i - 1].1,
                ));
            }
        }
    }
}

/// Deallocation changes no byte of any other live payload.
pub proof fn lemma_deallocate_keeps_payloads(pre: AllocatorRoot, post: AllocatorRoot, p: int)
    requires
        pre.wf(),
        pre.live().contains_key(p),
        deallocate_post(pre, post, p),
    ensures
        post.bytes().len() == pre.bytes().len(),
        forall|q: int, x: int|
            #[trigger] pre.live().contains_key(q) && q != p && q <= x < q + pre.live()[q].0
                ==> #[trigger] post.bytes()[x] == pre.bytes()[x],
{
    let rp = pre.live()[p];
    let s = pre.free_list();
    let start = reservation_start(p, rp);
    let size = reservation_end(p, rp) - start;
    assert forall|i: int| 0 <= i < s.len() implies ranges_disjoint(
        start,
        start + size,
        (#[trigger] s[i]).0,
        s[i].0 + s[i].1,
    ) by {}
    lemma_insert_merge(s, start, size, pre.capacity());
    let k = insertion_index(s, start);
    assert forall|q: int, x: int|
        #[trigger] pre.live().contains_key(q) && q != p && q <= x < q + pre.live()[q].0
            implies #[trigger] post.bytes()[x] == pre.bytes()[x] by {
        let rq = pre.live()[q];
        if k > 0 {
            assert(ranges_disjoint(
                reservation_start(q, rq),
                reservation_end(q, rq),
                s[k - 1].0,
                s[k - 1].0 + s[k - 1].1,
            ));
        }
    }
}

/// Deallocating an allocation gives back exactly the block that allocating it
/// reserved: the first block that could hold it, from its start, for its
/// padding, payload, metadata and fill padding.
#[verifier::rlimit(60)]
pub proof fn lemma_metadata_round_trip(
    s0: AllocatorRoot,
    s1: AllocatorRoot,
    s2: AllocatorRoot,
    size: int,
    align: int,
    p: usize,
)
    requires
        s0.wf(),
        0 <= size,
        0 < align <= usize::MAX,
        allocate_post(s0, s1, size, align, Some(p)),
        deallocate_post(s1, s2, p as int),
    ensures
        exists|i: int|
            #![trigger is_first_fit(s0.free_list(), size, align, i)]
            is_first_fit(s0.free_list(), size, align, i) && s2.free_list() == insert_merge(
                s1.free_list(),
                s0.free_list()[i].0,
                consumed_size(specs_in(s0.free_list()[i], size, align)),
            ),
{
    let s = s0.free_list();
    let i = choose|i: int|
        #![trigger is_first_fit(s, size, align, i)]
        {
            let a = specs_in(s[i], size, align);
            &&& is_first_fit(s, size, align, i)
            &&& p == s[i].0 + a.padding
            &&& s1.free_list() == split_blocks(s, i, a)
            &&& s1.live() == s0.live().insert(p as int, (size, a.padding as int, a.fill_padding as int))
        };
    let a = specs_in(s[i], size, align);
    lemma_alloc_specs_shape(s[i].1, size, align, s[i].0);
    assert(reservation_start(p as int, s1.live()[p as int]) == s[i].0);
    assert(reservation_end(p as int, s1.live()[p as int]) - reservation_start(
        p as int,
        s1.live()[p as int],
    ) == consumed_size(a));
}

/// Every live allocation's block, once freed, can hold a free node header.
pub proof fn lemma_reservation_hosts_node(a: AllocatorRoot, p: int)
    requires
        a.wf(),
        a.live().contains_key(p),
    ensures
        reservation_end(p, a.live()[p]) - reservation_start(p, a.live()[p]) >= NODE_LAYOUT_SIZE,
{
}

} // verus!
