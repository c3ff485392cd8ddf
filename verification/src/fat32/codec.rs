//! Little-endian field decoding over byte slices.
//!
//! The on-disk structures are packed records; the driver never reinterprets
//! memory in place but decodes each field at its declared offset and width.

use vstd::prelude::*;

verus! {

/// The little-endian 16-bit value stored at byte offset `i` of `s`.
pub open spec fn le16_at(s: Seq<u8>, i: int) -> u16
    recommends
        0 <= i,
        i + 2 <= s.len(),
{
    (s[i] as int + s[i + 1] as int * 0x100) as u16
}

/// The little-endian 32-bit value stored at byte offset `i` of `s`.
pub open spec fn le32_at(s: Seq<u8>, i: int) -> u32
    recommends
        0 <= i,
        i + 4 <= s.len(),
{
    (s[i] as int + s[i + 1] as int * 0x100 + s[i + 2] as int * 0x10000
        + s[i + 3] as int * 0x1000000) as u32
}

/// Decode the little-endian 16-bit field at offset `i` of `b`.
pub fn read_le16(b: &[u8], i: usize) -> (r: u16)
    requires
        i + 2 <= b@.len(),
    ensures
        r == le16_at(b@, i as int),
{
    b[i] as u16 + b[i + 1] as u16 * 0x100
}

/// Decode the little-endian 32-bit field at offset `i` of `b`.
pub fn read_le32(b: &[u8], i: usize) -> (r: u32)
    requires
        i + 4 <= b@.len(),
    ensures
        r == le32_at(b@, i as int),
{
    b[i] as u32 + b[i + 1] as u32 * 0x100 + b[i + 2] as u32 * 0x10000
        + b[i + 3] as u32 * 0x1000000
}

} // verus!
