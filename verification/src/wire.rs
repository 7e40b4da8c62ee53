//! Little-endian integer fields and raw byte helpers shared by the
//! container's on-disk encodings.
use vstd::prelude::*;
use vstd::bytes::{
    spec_u32_from_le_bytes, spec_u32_to_le_bytes, spec_u64_from_le_bytes, spec_u64_to_le_bytes,
    u32_from_le_bytes, u32_to_le_bytes, u64_from_le_bytes, u64_to_le_bytes,
};
use vstd::slice::slice_subrange;

verus! {

/// Round trip between the signed and unsigned views of a 64-bit word.
pub proof fn lemma_i64_u64_cast(x: i64)
    ensures
        ((x as u64) as i64) == x,
{
    assert(((x as u64) as i64) == x) by (bit_vector);
}

/// Reads the little-endian `u64` stored at byte offset `pos`.
pub fn read_u64_at(buf: &Vec<u8>, pos: usize) -> (r: u64)
    requires
        pos + 8 <= buf@.len(),
    ensures
        r == spec_u64_from_le_bytes(buf@.subrange(pos as int, pos as int + 8)),
{
    proof {
        // the requires keeps pos + 8 within the vector, whose length is a usize
        assert(buf@.len() == buf.len());
    }
    u64_from_le_bytes(slice_subrange(buf.as_slice(), pos, pos + 8))
}

/// Reads the little-endian `u32` stored at byte offset `pos`.
pub fn read_u32_at(buf: &Vec<u8>, pos: usize) -> (r: u32)
    requires
        pos + 4 <= buf@.len(),
    ensures
        r == spec_u32_from_le_bytes(buf@.subrange(pos as int, pos as int + 4)),
{
    proof {
        // the requires keeps pos + 4 within the vector, whose length is a usize
        assert(buf@.len() == buf.len());
    }
    u32_from_le_bytes(slice_subrange(buf.as_slice(), pos, pos + 4))
}

/// Appends the 8-byte little-endian form of `x`.
pub fn push_u64(out: &mut Vec<u8>, x: u64)
    ensures
        final(out)@ == old(out)@ + spec_u64_to_le_bytes(x),
{
    let mut b = u64_to_le_bytes(x);
    out.append(&mut b);
}

/// Appends the 4-byte little-endian form of `x`.
pub fn push_u32(out: &mut Vec<u8>, x: u32)
    ensures
        final(out)@ == old(out)@ + spec_u32_to_le_bytes(x),
{
    let mut b = u32_to_le_bytes(x);
    out.append(&mut b);
}

/// Byte-for-byte equality of two byte vectors.
pub fn bytes_eq(a: &Vec<u8>, b: &Vec<u8>) -> (r: bool)
    ensures
        r == (a@ == b@),
{
    if a.len() != b.len() {
        return false;
    }
    let n = a.len();
    let mut i: usize = 0;
    while i < n
        invariant
            n == a@.len(),
            n == b@.len(),
            i <= n,
            forall|j: int| 0 <= j < i ==> a@[j] == b@[j],
        decreases n - i,
    {
        if a[i] != b[i] {
            return false;
        }
        i += 1;
    }
    proof {
        assert(a@ =~= b@);
    }
    true
}

} // verus!
