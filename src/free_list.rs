//! The free-list allocator over an arena of a fixed number of bytes.
use crate::alloc_root::{allocate_post, deallocate_post, AllocatorRoot};
use crate::block_list::{blocks_of, Block};
use crate::node::NODE_LAYOUT_SIZE;
use vstd::prelude::*;

verus! {

/// A general-purpose allocator over an arena of `S` bytes: first-fit
/// allocation with splitting, and deallocation that merges address-adjacent
/// free blocks.
pub struct FreeListAllocator<const S: usize> {
    allocator: AllocatorRoot,
}

impl<const S: usize> FreeListAllocator<S> {
    /// The free-list state.
    pub closed spec fn state(&self) -> AllocatorRoot {
        self.allocator
    }

    /// The allocator's invariant: a well-formed state over `S` bytes.
    pub open spec fn wf(&self) -> bool {
        self.state().wf() && self.state().capacity() == S
    }

    /// A fresh allocator: the whole arena is one free block, or there is no
    /// free block when the arena cannot hold a node header.
    pub fn new() -> (r: Self)
        ensures
            r.wf(),
            r.state().coalesced(),
            r.state().live() == Map::<int, (int, int, int)>::empty(),
            r.state().free_list() == (if S >= NODE_LAYOUT_SIZE {
                seq![(0int, S as int)]
            } else {
                Seq::<Block>::empty()
            }),
    {
        FreeListAllocator { allocator: AllocatorRoot::new(S) }
    }

    /// Allocates `size` bytes at alignment `align`; see `allocate_post`.
    pub fn allocate(&mut self, size: usize, align: usize) -> (r: Option<usize>)
        requires
            old(self).wf(),
            align > 0,
        ensures
            final(self).wf(),
            allocate_post(old(self).state(), final(self).state(), size as int, align as int, r),
    {
        self.allocator.allocate(size, align)
    }

    /// Frees the live allocation whose payload of `size` bytes is at `ptr`;
    /// see `deallocate_post`.
    pub fn deallocate(&mut self, ptr: usize, size: usize)
        requires
            old(self).wf(),
            old(self).state().live().contains_key(ptr as int),
            old(self).state().live()[ptr as int].0 == size,
        ensures
            final(self).wf(),
            deallocate_post(old(self).state(), final(self).state(), ptr as int),
    {
        self.allocator.deallocate(ptr, size)
    }

    /// Stores `data` at the start of the live payload at `ptr`; see
    /// `AllocatorRoot::write_payload`.
    pub fn write(&mut self, ptr: usize, data: &[u8])
        requires
            old(self).wf(),
            old(self).state().live().contains_key(ptr as int),
            data@.len() <= old(self).state().live()[ptr as int].0,
        ensures
            final(self).wf(),
            final(self).state().free_list() == old(self).state().free_list(),
            final(self).state().live() == old(self).state().live(),
            final(self).state().bytes() == old(self).state().bytes().subrange(0, ptr as int)
                + data@ + old(self).state().bytes().subrange(ptr + data@.len(), S as int),
    {
        self.allocator.write_payload(ptr, data)
    }

    /// The first `size` bytes of the live payload at `ptr`.
    pub fn read(&self, ptr: usize, size: usize) -> (r: Vec<u8>)
        requires
            self.wf(),
            self.state().live().contains_key(ptr as int),
            size <= self.state().live()[ptr as int].0,
        ensures
            r@ == self.state().bytes().subrange(ptr as int, ptr + size),
    {
        self.allocator.read_payload(ptr, size)
    }

    /// The free blocks as `(position, size)` pairs, in list order.
    pub fn free_blocks(&self) -> (r: Vec<(usize, usize)>)
        requires
            self.wf(),
        ensures
            blocks_of(r@) == self.state().free_list(),
    {
        self.allocator.free_blocks()
    }

    /// The free-list state.
    pub fn root(&self) -> (r: &AllocatorRoot)
        ensures
            *r == self.state(),
    {
        &self.allocator
    }
}

} // verus!
