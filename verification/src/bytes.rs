//! Reading fixed-width integers and signatures out of a byte image.

use vstd::prelude::*;

verus! {

/// Big-endian 16-bit value stored at `i`.
pub open spec fn be_u16(d: Seq<u8>, i: int) -> int {
    d[i] * 256 + d[i + 1]
}

/// Big-endian 32-bit value stored at `i`.
pub open spec fn be_u32(d: Seq<u8>, i: int) -> int {
    ((d[i] * 256 + d[i + 1]) * 256 + d[i + 2]) * 256 + d[i + 3]
}

/// Little-endian 32-bit value stored at `i`.
pub open spec fn le_u32(d: Seq<u8>, i: int) -> int {
    ((d[i + 3] * 256 + d[i + 2]) * 256 + d[i + 1]) * 256 + d[i]
}

/// Big-endian 64-bit value stored at `i`.
pub open spec fn be_u64(d: Seq<u8>, i: int) -> int {
    be_u32(d, i) * 0x1_0000_0000 + be_u32(d, i + 4)
}

/// The `n` bytes at `off` lie inside the image.
pub open spec fn readable(d: Seq<u8>, off: int, n: int) -> bool {
    0 <= off && off + n <= d.len()
}

proof fn lemma_byte_step(acc: int, b: int, bound: int)
    by (nonlinear_arith)
    requires
        0 <= acc <= bound,
        0 <= b <= 255,
    ensures
        0 <= acc * 256 + b <= bound * 256 + 255,
{
}

/// The view of a slice is as long as the slice.
pub proof fn lemma_image_len(data: &[u8])
    ensures
        data@.len() == data.len(),
        data@.len() <= u64::MAX,
{
    assert(data.len() <= usize::MAX);
    assert(usize::MAX <= u64::MAX);
}

/// Whether `n` bytes can be read at `off`, without overflow.
pub fn can_read(data: &[u8], off: u64, n: u64) -> (r: bool)
    ensures
        r == readable(data@, off as int, n as int),
        data@.len() == data.len(),
{
    let len = data.len() as u64;
    off <= len && n <= len - off
}

pub fn read_be_u16(data: &[u8], off: u64) -> (r: u64)
    requires
        readable(data@, off as int, 2),
    ensures
        r as int == be_u16(data@, off as int),
{
    let i = off as usize;
    (data[i] as u64) * 256 + (data[i + 1] as u64)
}

pub fn read_be_u32(data: &[u8], off: u64) -> (r: u64)
    requires
        readable(data@, off as int, 4),
    ensures
        r as int == be_u32(data@, off as int),
        r <= 0xFFFF_FFFF,
{
    let i = off as usize;
    proof {
        lemma_byte_step(data@[off as int] as int, data@[off + 1] as int, 255);
        lemma_byte_step(data@[off as int] * 256 + data@[off + 1], data@[off + 2] as int, 65535);
        lemma_byte_step(
            (data@[off as int] * 256 + data@[off + 1]) * 256 + data@[off + 2],
            data@[off + 3] as int,
            16777215,
        );
    }
    (((data[i] as u64) * 256 + (data[i + 1] as u64)) * 256 + (data[i + 2] as u64)) * 256
        + (data[i + 3] as u64)
}

pub fn read_le_u32(data: &[u8], off: u64) -> (r: u64)
    requires
        readable(data@, off as int, 4),
    ensures
        r as int == le_u32(data@, off as int),
        r <= 0xFFFF_FFFF,
{
    let i = off as usize;
    let b0 = data[i] as u64;
    let b1 = data[i + 1] as u64;
    let b2 = data[i + 2] as u64;
    let b3 = data[i + 3] as u64;
    proof {
        lemma_byte_step(b3 as int, b2 as int, 255);
        lemma_byte_step(b3 * 256 + b2, b1 as int, 65535);
        lemma_byte_step((b3 * 256 + b2) * 256 + b1, b0 as int, 16777215);
    }
    ((b3 * 256 + b2) * 256 + b1) * 256 + b0
}

pub fn read_be_u64(data: &[u8], off: u64) -> (r: u64)
    requires
        readable(data@, off as int, 8),
    ensures
        r as int == be_u64(data@, off as int),
{
    assert(data@.len() == data.len());
    let hi = read_be_u32(data, off);
    let lo = read_be_u32(data, off + 4);
    hi * 0x1_0000_0000 + lo
}

} // verus!
