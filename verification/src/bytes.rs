//! Little-endian integer fields and byte-range copies over an in-memory
//! byte stream.

use vstd::prelude::*;

verus! {

/// The 16-bit little-endian value stored at offset `i`.
pub open spec fn le16_at(d: Seq<u8>, i: int) -> int {
    d[i] + 0x100 * d[i + 1]
}

/// The 32-bit little-endian value stored at offset `i`.
pub open spec fn le32_at(d: Seq<u8>, i: int) -> int {
    d[i] + 0x100 * d[i + 1] + 0x1_0000 * d[i + 2] + 0x100_0000 * d[i + 3]
}

pub(crate) fn read_le16(data: &Vec<u8>, i: usize) -> (r: u16)
    requires
        i + 2 <= data@.len(),
    ensures
        r as int == le16_at(data@, i as int),
{
    // learn that the vector's length, and so `i + 1`, fits in usize
    let _n = data.len();
    data[i] as u16 + (data[i + 1] as u16) * 0x100
}

pub(crate) fn read_le32(data: &Vec<u8>, i: usize) -> (r: u32)
    requires
        i + 4 <= data@.len(),
    ensures
        r as int == le32_at(data@, i as int),
{
    // learn that the vector's length, and so `i + 3`, fits in usize
    let _n = data.len();
    data[i] as u32 + (data[i + 1] as u32) * 0x100 + (data[i + 2] as u32) * 0x1_0000
        + (data[i + 3] as u32) * 0x100_0000
}

/// Copies `data[start .. start + n]` into a fresh vector.
pub(crate) fn copy_range(data: &Vec<u8>, start: usize, n: usize) -> (r: Vec<u8>)
    requires
        start + n <= data@.len(),
    ensures
        r@ == data@.subrange(start as int, start as int + n as int),
{
    let len = data.len();
    let mut r: Vec<u8> = Vec::new();
    let mut i: usize = 0;
    while i < n
        invariant
            i <= n,
            start + n <= data@.len(),
            data@.len() == len,
            r@ == data@.subrange(start as int, start as int + i as int),
        decreases n - i,
    {
        r.push(data[start + i]);
        i = i + 1;
        proof {
            assert(r@ =~= data@.subrange(start as int, start as int + i as int));
        }
    }
    r
}

} // verus!
