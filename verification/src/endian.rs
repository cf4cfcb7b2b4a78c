//! Big-endian integer reads from a byte buffer, with exact specifications.

use vstd::prelude::*;

verus! {

/// The unsigned 32-bit value stored big-endian at `pos` in `s`.
pub open spec fn be32_at(s: Seq<u8>, pos: int) -> u32
    recommends
        0 <= pos,
        pos + 4 <= s.len(),
{
    (s[pos] * 0x100_0000 + s[pos + 1] * 0x1_0000 + s[pos + 2] * 0x100 + s[pos + 3]) as u32
}

/// The unsigned 64-bit value stored big-endian at `pos` in `s`.
pub open spec fn be64_at(s: Seq<u8>, pos: int) -> u64
    recommends
        0 <= pos,
        pos + 8 <= s.len(),
{
    (s[pos] * 0x100_0000_0000_0000 + s[pos + 1] * 0x1_0000_0000_0000 + s[pos + 2]
        * 0x100_0000_0000 + s[pos + 3] * 0x1_0000_0000 + s[pos + 4] * 0x100_0000 + s[pos + 5]
        * 0x1_0000 + s[pos + 6] * 0x100 + s[pos + 7]) as u64
}

/// Reads the big-endian 32-bit value at `pos`.
pub fn read_be_u32(bytes: &Vec<u8>, pos: usize) -> (r: u32)
    requires
        pos + 4 <= bytes@.len(),
    ensures
        r == be32_at(bytes@, pos as int),
{
    assert(pos + 4 <= bytes.len());
    let b0 = bytes[pos] as u32;
    let b1 = bytes[pos + 1] as u32;
    let b2 = bytes[pos + 2] as u32;
    let b3 = bytes[pos + 3] as u32;
    b0 * 0x100_0000 + b1 * 0x1_0000 + b2 * 0x100 + b3
}

/// Reads the big-endian 64-bit value at `pos`.
pub fn read_be_u64(bytes: &Vec<u8>, pos: usize) -> (r: u64)
    requires
        pos + 8 <= bytes@.len(),
    ensures
        r == be64_at(bytes@, pos as int),
{
    assert(pos + 8 <= bytes.len());
    let b0 = bytes[pos] as u64;
    let b1 = bytes[pos + 1] as u64;
    let b2 = bytes[pos + 2] as u64;
    let b3 = bytes[pos + 3] as u64;
    let b4 = bytes[pos + 4] as u64;
    let b5 = bytes[pos + 5] as u64;
    let b6 = bytes[pos + 6] as u64;
    let b7 = bytes[pos + 7] as u64;
    b0 * 0x100_0000_0000_0000 + b1 * 0x1_0000_0000_0000 + b2 * 0x100_0000_0000 + b3
        * 0x1_0000_0000 + b4 * 0x100_0000 + b5 * 0x1_0000 + b6 * 0x100 + b7
}

} // verus!
