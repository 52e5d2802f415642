//! The bump allocator: one cursor advanced by each allocation, reset only for
//! the whole arena at once.
use crate::node::align_padding;
use vstd::prelude::*;

verus! {

/// Where an allocation of `size` bytes at alignment `align` starts when `cursor`
/// bytes of an arena of `capacity` bytes are used: at the next multiple of
/// `align`, or `None` when padding and payload do not fit.
pub open spec fn bump_start(cursor: int, size: int, align: int, capacity: int) -> Option<int> {
    let start = cursor + align_padding(cursor, align);
    if start + size <= capacity {
        Some(start)
    } else {
        None
    }
}

/// Computes where the next allocation starts; see `bump_start`.
pub fn bump_offset(allocated: usize, size: usize, align: usize, capacity: usize) -> (r: Option<
    usize,
>)
    requires
        align > 0,
        allocated <= capacity,
    ensures
        r == (match bump_start(allocated as int, size as int, align as int, capacity as int) {
            Some(o) => Some(o as usize),
            None => None,
        }),
{
    if size > capacity - allocated {
        // Not enough bytes, whatever the padding.
        return None;
    }
    let alloc_padding = (align - allocated % align) % align;
    if alloc_padding > capacity - allocated - size {
        // The padding makes the allocation overflow the arena.
        return None;
    }
    Some(allocated + alloc_padding)
}

/// An allocator that places allocations one after the other in an arena of
/// `N` bytes and frees them only all at once.
pub struct BumpAllocator<const N: usize> {
    arena: Vec<u8>,
    allocated: usize,
}

impl<const N: usize> BumpAllocator<N> {
    /// The arena's bytes.
    pub closed spec fn bytes(&self) -> Seq<u8> {
        self.arena@
    }

    /// The bytes used from the arena's start.
    pub closed spec fn cursor(&self) -> int {
        self.allocated as int
    }

    /// The allocator's invariant: an arena of `N` bytes, of which the cursor
    /// counts at most all.
    pub open spec fn wf(&self) -> bool {
        &&& self.bytes().len() == N
        &&& 0 <= self.cursor() <= N
    }

    /// A fresh allocator over `N` zeroed bytes, with nothing allocated.
    pub fn new() -> (r: Self)
        ensures
            r.wf(),
            r.cursor() == 0,
            r.bytes() == Seq::new(N as nat, |i: int| 0u8),
    {
        let arena: Vec<u8> = vec![0u8; N];
        assert(arena@ =~= Seq::new(N as nat, |i: int| 0u8));
        BumpAllocator { arena, allocated: 0 }
    }

    /// Reserves `size` bytes at alignment `align` after what is allocated and
    /// returns their offset, or `None`, with nothing changed, when they do not fit.
    pub fn bump(&mut self, size: usize, align: usize) -> (r: Option<usize>)
        requires
            old(self).wf(),
            align > 0,
        ensures
            final(self).wf(),
            final(self).bytes() == old(self).bytes(),
            r == (match bump_start(old(self).cursor(), size as int, align as int, N as int) {
                Some(o) => Some(o as usize),
                None => None,
            }),
            r is Some ==> final(self).cursor() == r->Some_0 + size,
            r is None ==> final(self).cursor() == old(self).cursor(),
    {
        let r = bump_offset(self.allocated, size, align, N);
        if let Some(offset) = r {
            self.allocated = offset + size;
        }
        r
    }

    /// Stores `value` at the next offset aligned to `align` and returns that
    /// offset, or `None`, with nothing changed, when it does not fit.
    pub fn allocate(&mut self, value: &[u8], align: usize) -> (r: Option<usize>)
        requires
            old(self).wf(),
            align > 0,
        ensures
            final(self).wf(),
            r == (match bump_start(old(self).cursor(), value@.len() as int, align as int, N as int) {
                Some(o) => Some(o as usize),
                None => None,
            }),
            r is None ==> final(self).bytes() == old(self).bytes() && final(self).cursor() == old(
                self,
            ).cursor(),
            r is Some ==> {
                let o = r->Some_0 as int;
                &&& final(self).cursor() == o + value@.len()
                &&& final(self).bytes() == old(self).bytes().subrange(0, o) + value@
                    + old(self).bytes().subrange(o + value@.len(), N as int)
            },
    {
        let r = self.bump(value.len(), align);
        if let Some(offset) = r {
            let ghost before = self.arena@;
            let mut k: usize = 0;
            while k < value.len()
                invariant
                    self.wf(),
                    self.cursor() == offset + value@.len(),
                    offset + value@.len() <= N,
                    0 <= k <= value@.len(),
                    self.arena@.len() == before.len(),
                    forall|i: int| 0 <= i < k ==> self.arena@[offset + i] == value@[i],
                    forall|i: int|
                        0 <= i < before.len() && !(offset <= i < offset + k) ==> self.arena@[i]
                            == before[i],
                decreases value@.len() - k,
            {
                self.arena.set(offset + k, value[k]);
                k += 1;
            }
            assert(self.arena@ =~= before.subrange(0, offset as int) + value@ + before.subrange(
                offset + value@.len(),
                N as int,
            ));
        }
        r
    }

    /// Frees everything at once by moving the cursor back to the arena's
    /// start; with `wipe_memory`, first writes zero over every allocated byte.
    /// With nothing allocated, nothing is touched.
    pub fn dealloc_all(&mut self, wipe_memory: bool)
        requires
            old(self).wf(),
        ensures
            final(self).wf(),
            final(self).cursor() == 0,
            !wipe_memory ==> final(self).bytes() == old(self).bytes(),
            wipe_memory ==> final(self).bytes() == Seq::new(old(self).cursor() as nat, |i: int| 0u8)
                + old(self).bytes().subrange(old(self).cursor(), N as int),
    {
        let size = self.allocated;
        if size == 0 {
            // Nothing is allocated.
            proof {
                if wipe_memory {
                    assert(self.arena@ =~= Seq::new(0, |i: int| 0u8) + self.arena@.subrange(0, N as int));
                }
            }
            return;
        }
        if wipe_memory {
            let ghost before = self.arena@;
            let mut k: usize = 0;
            while k < size
                invariant
                    self.arena@.len() == N,
                    before.len() == N,
                    size <= N,
                    0 <= k <= size,
                    forall|i: int| 0 <= i < k ==> self.arena@[i] == 0u8,
                    forall|i: int| k <= i < N ==> self.arena@[i] == before[i],
                decreases size - k,
            {
                self.arena.set(k, 0);
                k += 1;
            }
            assert(self.arena@ =~= Seq::new(size as nat, |i: int| 0u8) + before.subrange(
                size as int,
                N as int,
            ));
        }
        self.allocated = 0;
    }

    /// The bytes used from the arena's start.
    pub fn allocated(&self) -> (r: usize)
        ensures
            r == self.cursor(),
    {
        self.allocated
    }

    /// The arena's bytes.
    pub fn arena(&self) -> (r: &[u8])
        ensures
            r@ == self.bytes(),
    {
        self.arena.as_slice()
    }
}

} // verus!
