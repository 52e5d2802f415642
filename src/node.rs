//! Free-list nodes and the sizing of one allocation carved out of a node.
use vstd::prelude::*;

verus! {

/// Bytes taken by a free node header inside the arena: a presence word and a
/// position word for the link to the next node, then a size word.
pub const NODE_LAYOUT_SIZE: usize = 24;

/// Bytes taken by the metadata written after each allocation's payload: the
/// alignment padding word and the fill padding word.
pub const ALLOCATION_METADATA_LAYOUT_SIZE: usize = 16;

/// A free block as stored in its own first bytes: its size and the position of
/// the next free block, if any.
#[derive(Clone, Copy, Debug, PartialEq, Eq, Structural)]
pub struct Node {
    pub next_ptr: Option<usize>,
    pub size: usize,
}

/// Sizes of one allocation carved out of a free node.
#[derive(Clone, Copy, Debug, PartialEq, Eq, Structural)]
pub struct AllocationSpecs {
    /// Bytes skipped before the payload to reach the requested alignment.
    pub padding: usize,
    /// Bytes of the payload.
    pub size: usize,
    /// Bytes added after the metadata so that the block can hold a node once freed.
    pub fill_padding: usize,
    /// Bytes left over for a new free node; zero when the whole node is taken.
    pub remaining_size: usize,
}

/// Metadata that trails an allocation's payload, from which deallocation
/// recovers the block's true extent.
#[derive(Clone, Copy, Debug, PartialEq, Eq, Structural)]
pub struct AllocationMetadata {
    pub align_padding: usize,
    pub fill_padding: usize,
}

/// Bytes to skip from `addr` to reach a multiple of `align`.
pub open spec fn align_padding(addr: int, align: int) -> int {
    (align - addr % align) % align
}

/// Bytes that an allocation takes before fill padding: alignment padding,
/// payload and metadata.
pub open spec fn alloc_size_of(padding: int, size: int) -> int {
    padding + size + ALLOCATION_METADATA_LAYOUT_SIZE
}

/// An allocation's size rounded up to what a free node needs.
pub open spec fn reserved_size_of(alloc_size: int) -> int {
    if alloc_size < NODE_LAYOUT_SIZE {
        NODE_LAYOUT_SIZE as int
    } else {
        alloc_size
    }
}

/// How an allocation of `size` bytes at alignment `align` fits in a free node of
/// `node_size` bytes standing at position `addr`, or `Err` when it does not.
///
/// The node is split when it is larger than the allocation and a node header
/// together, and what is left after the allocation, rounded up by fill
/// padding, can still hold a node header; otherwise the whole node is taken,
/// which requires the allocation to fit and the node to be at least a header
/// in size.
pub open spec fn alloc_specs_for(node_size: int, size: int, align: int, addr: int) -> Result<
    AllocationSpecs,
    (),
> {
    let padding = align_padding(addr, align);
    let alloc_size = alloc_size_of(padding, size);
    let reserved = reserved_size_of(alloc_size);
    if size > node_size {
        Err(())
    } else if node_size > alloc_size + NODE_LAYOUT_SIZE && node_size >= reserved + NODE_LAYOUT_SIZE {
        Ok(
            AllocationSpecs {
                padding: padding as usize,
                size: size as usize,
                fill_padding: (reserved - alloc_size) as usize,
                remaining_size: (node_size - reserved) as usize,
            },
        )
    } else if alloc_size <= node_size && node_size >= NODE_LAYOUT_SIZE {
        Ok(
            AllocationSpecs {
                padding: padding as usize,
                size: size as usize,
                fill_padding: (node_size - alloc_size) as usize,
                remaining_size: 0,
            },
        )
    } else {
        Err(())
    }
}

/// Bytes that an allocation consumes out of its node: padding, payload,
/// metadata and fill padding.
pub open spec fn consumed_size(s: AllocationSpecs) -> int {
    s.padding + s.size + ALLOCATION_METADATA_LAYOUT_SIZE + s.fill_padding
}

/// What an accepted allocation looks like: the payload is aligned, the consumed
/// part and the remainder exactly cover the node, the consumed part can host a
/// node once freed, and a nonzero remainder can host one too.
pub proof fn lemma_alloc_specs_shape(node_size: int, size: int, align: int, addr: int)
    requires
        0 <= node_size <= usize::MAX,
        0 <= size,
        0 < align <= usize::MAX,
        0 <= addr,
        alloc_specs_for(node_size, size, align, addr) is Ok,
    ensures
        ({
            let s = alloc_specs_for(node_size, size, align, addr)->Ok_0;
            &&& s.padding < align
            &&& (addr + s.padding) % align == 0
            &&& s.size == size
            &&& consumed_size(s) + s.remaining_size == node_size
            &&& consumed_size(s) >= NODE_LAYOUT_SIZE
            &&& (s.remaining_size == 0 || s.remaining_size >= NODE_LAYOUT_SIZE)
        }),
{
    let p = align_padding(addr, align);
    let r = addr % align;
    assert(0 <= r < align);
    if r == 0 {
        assert((align - r) % align == 0) by {
            vstd::arithmetic::div_mod::lemma_mod_self_0(align);
        }
        assert(p == 0);
    } else {
        assert((align - r) % align == align - r) by {
            vstd::arithmetic::div_mod::lemma_small_mod((align - r) as nat, align as nat);
        }
        assert((addr + (align - r)) % align == 0) by {
            vstd::arithmetic::div_mod::lemma_fundamental_div_mod(addr, align);
            vstd::arithmetic::div_mod::lemma_mod_multiples_basic(addr / align + 1, align);
            assert(addr + (align - r) == (addr / align + 1) * align) by (nonlinear_arith)
                requires
                    addr == align * (addr / align) + r,
            ;
        }
    }
}

impl Node {
    /// Checks whether an allocation of `size` bytes at alignment `align` fits in
    /// this node, which stands at position `ptr`, and if so how it is laid out.
    pub fn try_get_alloc_specs(&self, size: usize, align: usize, ptr: usize) -> (r: Result<
        AllocationSpecs,
        (),
    >)
        requires
            align > 0,
        ensures
            r == alloc_specs_for(self.size as int, size as int, align as int, ptr as int),
    {
        if size > self.size {
            // Not enough bytes, whatever the padding.
            return Err(());
        }
        let alloc_padding = (align - ptr % align) % align;
        let rest = self.size - size;
        if alloc_padding > rest || rest - alloc_padding < ALLOCATION_METADATA_LAYOUT_SIZE {
            // Padding and metadata do not fit.
            return Err(());
        }
        let alloc_size = alloc_padding + size + ALLOCATION_METADATA_LAYOUT_SIZE;
        let reserved = if alloc_size < NODE_LAYOUT_SIZE {
            NODE_LAYOUT_SIZE
        } else {
            alloc_size
        };
        if self.size - alloc_size > NODE_LAYOUT_SIZE && self.size >= reserved
            && self.size - reserved >= NODE_LAYOUT_SIZE {
            // Room is left for a free node after the allocation.
            Ok(
                AllocationSpecs {
                    padding: alloc_padding,
                    size,
                    fill_padding: reserved - alloc_size,
                    remaining_size: self.size - reserved,
                },
            )
        } else if self.size >= NODE_LAYOUT_SIZE {
            // The whole node is taken, filled up to its end.
            Ok(
                AllocationSpecs {
                    padding: alloc_padding,
                    size,
                    fill_padding: self.size - alloc_size,
                    remaining_size: 0,
                },
            )
        } else {
            Err(())
        }
    }
}

} // verus!
