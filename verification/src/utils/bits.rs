//! Two `u32` cursors packed into one `u64`, so that both can be read and swapped in one step.

use vstd::prelude::*;

verus! {

/// The word that holds `hi` in its upper half and `lo` in its lower half.
pub open spec fn spec_pack(hi: u32, lo: u32) -> u64 {
    ((hi as u64) << 32u64) | (lo as u64)
}

/// Upper half of a packed word.
pub open spec fn spec_hi(v: u64) -> u32 {
    (v >> 32u64) as u32
}

/// Lower half of a packed word.
pub open spec fn spec_lo(v: u64) -> u32 {
    v as u32
}

/// Packs two cursors into one word: `hi` in the upper 32 bits, `lo` in the lower 32 bits.
pub fn pack(hi: u32, lo: u32) -> (r: u64)
    ensures
        r == spec_pack(hi, lo),
        spec_hi(r) == hi,
        spec_lo(r) == lo,
{
    let r = ((hi as u64) << 32u64) | (lo as u64);
    proof {
        lemma_pack_unpack(hi, lo);
    }
    r
}

/// Splits a packed word back into `(hi, lo)`.
pub fn unpack(v: u64) -> (r: (u32, u32))
    ensures
        r.0 == spec_hi(v),
        r.1 == spec_lo(v),
        spec_pack(r.0, r.1) == v,
{
    let hi = (v >> 32u64) as u32;
    let lo = v as u32;
    proof {
        lemma_unpack_pack(v);
    }
    (hi, lo)
}

/// Unpacking a packed pair gives the pair back.
pub proof fn lemma_pack_unpack(hi: u32, lo: u32)
    ensures
        spec_hi(spec_pack(hi, lo)) == hi,
        spec_lo(spec_pack(hi, lo)) == lo,
{
    assert((((((hi as u64) << 32u64) | (lo as u64)) >> 32u64) as u32) == hi
        && ((((hi as u64) << 32u64) | (lo as u64)) as u32) == lo) by (bit_vector);
}

/// Packing the two halves of a word gives the word back.
pub proof fn lemma_unpack_pack(v: u64)
    ensures
        spec_pack(spec_hi(v), spec_lo(v)) == v,
{
    assert(((((v >> 32u64) as u32) as u64) << 32u64) | (((v as u32) as u64)) == v) by (bit_vector);
}

/// Two pairs pack to the same word exactly when they are the same pair.
pub proof fn lemma_pack_injective(a: u32, b: u32, c: u32, d: u32)
    ensures
        (spec_pack(a, b) == spec_pack(c, d)) <==> (a == c && b == d),
{
    lemma_pack_unpack(a, b);
    lemma_pack_unpack(c, d);
}

} // verus!
