//! Bit-line encoding: bit `i` of a mask stands for position `i` of a line.

use vstd::prelude::*;

verus! {

/// Whether position `i` of the line is filled in mask `m`.
pub open spec fn bit_at(m: u32, i: int) -> bool {
    0 <= i < 32 && m & (1u32 << (i as u32)) != 0
}

/// The mask of a block of `length` cells that starts at position `start`.
pub open spec fn block_mask(start: usize, length: usize) -> u32 {
    ((((1u64 << (length as u64)) - 1) as u64) << (start as u64)) as u32
}

/// A block mask has exactly the positions `[start, start + length)` set.
pub proof fn lemma_block_mask_bits(start: usize, length: usize)
    requires
        start + length <= 32,
    ensures
        forall|i: int| 0 <= i < 32 ==> (bit_at(block_mask(start, length), i) <==> start <= i < start + length),
{
    let s = start as u64;
    let l = length as u64;
    assert forall|i: int| 0 <= i < 32 implies (bit_at(block_mask(start, length), i) <==> start <= i
        < start + length) by {
        let iu = i as u32;
        let wide = (((1u64 << l) - 1) as u64) << s;
        assert((wide as u32) & (1u32 << iu) != 0 <==> s <= iu && iu < s + l) by (bit_vector)
            requires
                wide == (((1u64 << l) - 1) as u64) << s,
                s + l <= 32,
                iu < 32,
        ;
    }
}

/// The mask with exactly the positions `[start, start + length)` set.
pub fn paint_block(start: usize, length: usize) -> (r: u32)
    requires
        start + length <= 32,
    ensures
        r == block_mask(start, length),
        forall|i: int| 0 <= i < 32 ==> (bit_at(r, i) <==> start <= i < start + length),
{
    let s = start as u64;
    let l = length as u64;
    assert(1u64 << l >= 1 && ((((1u64 << l) - 1) as u64) << s) <= 0xffff_ffffu64) by (bit_vector)
        requires
            s + l <= 32,
    ;
    let wide: u64 = ((1u64 << l) - 1) << s;
    proof {
        lemma_block_mask_bits(start, length);
    }
    let r = wide as u32;
    assert(r == block_mask(start, length));
    r
}

/// Whether `target_bits` has any of the bits of `cursor`.
pub fn check_bit(target_bits: u32, cursor: u32) -> (r: bool)
    ensures
        r == (target_bits & cursor != 0),
{
    (target_bits & cursor) != 0
}

/// The mask with position `i` alone.
pub fn cursor_at(i: usize) -> (r: u32)
    requires
        i < 32,
    ensures
        r == 1u32 << (i as u32),
{
    1u32 << (i as u32)
}

/// A bit of a conjunction is set exactly where it is set in both masks.
pub proof fn lemma_bit_and(a: u32, b: u32, i: int)
    ensures
        bit_at(a & b, i) <==> (bit_at(a, i) && bit_at(b, i)),
{
    if 0 <= i < 32 {
        let iu = i as u32;
        assert((a & b) & (1u32 << iu) != 0 <==> (a & (1u32 << iu) != 0 && b & (1u32 << iu) != 0))
            by (bit_vector)
            requires
                iu < 32,
        ;
    }
}

/// A bit of a disjunction is set exactly where it is set in either mask.
pub proof fn lemma_bit_or(a: u32, b: u32, i: int)
    ensures
        bit_at(a | b, i) <==> (bit_at(a, i) || bit_at(b, i)),
{
    if 0 <= i < 32 {
        let iu = i as u32;
        assert((a | b) & (1u32 << iu) != 0 <==> (a & (1u32 << iu) != 0 || b & (1u32 << iu) != 0))
            by (bit_vector)
            requires
                iu < 32,
        ;
    }
}

/// A bit of a complement is set exactly where it is clear in the mask.
pub proof fn lemma_bit_not(a: u32, i: int)
    requires
        0 <= i < 32,
    ensures
        bit_at(!a, i) <==> !bit_at(a, i),
{
    let iu = i as u32;
    assert((!a) & (1u32 << iu) != 0 <==> !(a & (1u32 << iu) != 0)) by (bit_vector)
        requires
            iu < 32,
    ;
}

/// Every bit is set in the full mask, none in the empty one.
pub proof fn lemma_bit_full_empty(i: int)
    requires
        0 <= i < 32,
    ensures
        bit_at(0xffff_ffffu32, i),
        !bit_at(0u32, i),
{
    let iu = i as u32;
    assert(0xffff_ffffu32 & (1u32 << iu) != 0 && 0u32 & (1u32 << iu) == 0) by (bit_vector)
        requires
            iu < 32,
    ;
}

} // verus!
