//! Machine words stored inside the arena's bytes.
use vstd::bytes::*;
use vstd::prelude::*;
use vstd::slice::*;

verus! {

/// The little-endian word stored at byte offset `o` of `mem`.
pub open spec fn word_at(mem: Seq<u8>, o: int) -> u64 {
    spec_u64_from_le_bytes(mem.subrange(o, o + 8))
}

/// A word depends on its own eight bytes only.
pub proof fn lemma_word_frame(m1: Seq<u8>, m2: Seq<u8>, o: int)
    requires
        0 <= o,
        o + 8 <= m1.len(),
        o + 8 <= m2.len(),
        forall|i: int| o <= i < o + 8 ==> m1[i] == m2[i],
    ensures
        word_at(m1, o) == word_at(m2, o),
{
    assert(m1.subrange(o, o + 8) =~= m2.subrange(o, o + 8));
}

/// Reads the word stored at offset `o`.
pub fn read_word(mem: &Vec<u8>, o: usize) -> (r: usize)
    requires
        o + 8 <= mem@.len(),
        word_at(mem@, o as int) <= usize::MAX,
    ensures
        r == word_at(mem@, o as int),
{
    let _len = mem.len();
    let s = slice_subrange(mem.as_slice(), o, o + 8);
    assert(s@ =~= mem@.subrange(o as int, o + 8));
    u64_from_le_bytes(s) as usize
}

/// Stores `x` as a word at offset `o`, leaving every other byte as it was.
pub fn write_word(mem: &mut Vec<u8>, o: usize, x: usize)
    requires
        o + 8 <= old(mem)@.len(),
    ensures
        final(mem)@.len() == old(mem)@.len(),
        word_at(final(mem)@, o as int) == x,
        forall|i: int|
            0 <= i < old(mem)@.len() && !(o <= i < o + 8) ==> #[trigger] final(mem)@[i]
                == old(mem)@[i],
{
    let bytes = u64_to_le_bytes(x as u64);
    proof {
        lemma_auto_spec_u64_to_from_le_bytes();
    }
    let _len = mem.len();
    let ghost start = mem@;
    let mut k: usize = 0;
    while k < 8
        invariant
            0 <= k <= 8,
            o + 8 <= start.len(),
            start.len() == _len,
            bytes@ == spec_u64_to_le_bytes(x as u64),
            bytes@.len() == 8,
            mem@.len() == start.len(),
            forall|i: int| 0 <= i < k ==> mem@[o + i] == bytes@[i],
            forall|i: int| 0 <= i < start.len() && !(o <= i < o + k) ==> mem@[i] == start[i],
        decreases 8 - k,
    {
        mem.set(o + k, bytes[k]);
        k += 1;
    }
    assert(mem@.subrange(o as int, o + 8) =~= bytes@);
}

} // verus!
