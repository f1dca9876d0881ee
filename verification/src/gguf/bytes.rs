//! Little-endian primitives of the GGUF container, read from a byte slice,
//! and the errors the GGUF readers report.
use vstd::prelude::*;

verus! {

/// What can go wrong while reading a GGUF file.
#[derive(PartialEq, Eq, Structural, Clone, Copy, Debug)]
pub enum GgufError {
    /// The file ends before a field it declares.
    UnexpectedEof,
    /// The file does not start with the GGUF magic number.
    BadMagic(u32),
    /// A metadata value has a type code the reader does not know.
    UnknownValueType(u32),
    /// A string is not valid UTF-8 (for the reader that requires it).
    InvalidUtf8,
    /// The caller's buffer cannot hold the tensor.
    BufferTooSmall { need: usize, have: usize },
}

/// `"GGUF"` read as a little-endian `u32`.
pub const GGUF_MAGIC: u32 = 0x46554747;

/// The two bytes at `p`, little-endian.
pub open spec fn le_u16(b: Seq<u8>, p: int) -> u16 {
    (b[p] as int + 256 * (b[p + 1] as int)) as u16
}

/// The four bytes at `p`, little-endian.
pub open spec fn le_u32(b: Seq<u8>, p: int) -> u32 {
    (b[p] as int + 256 * (b[p + 1] as int) + 65536 * (b[p + 2] as int) + 16777216 * (
    b[p + 3] as int)) as u32
}

/// The eight bytes at `p`, little-endian.
pub open spec fn le_u64(b: Seq<u8>, p: int) -> u64 {
    (le_u32(b, p) as int + 4294967296 * (le_u32(b, p + 4) as int)) as u64
}

/// `n` bytes are left at `p`.
pub open spec fn avail(b: Seq<u8>, p: int, n: int) -> bool {
    0 <= p && p + n <= b.len()
}

/// Whether `n` bytes are left at `p`, without overflow.
pub fn has_bytes(b: &[u8], p: usize, n: usize) -> (r: bool)
    ensures
        r == avail(b@, p as int, n as int),
        b@.len() <= usize::MAX,
{
    p <= b.len() && b.len() - p >= n
}

/// The little-endian `u16` at `p`.
pub fn read_u16_le(b: &[u8], p: usize) -> (r: Result<u16, GgufError>)
    ensures
        r == if avail(b@, p as int, 2) {
            Ok::<u16, GgufError>(le_u16(b@, p as int))
        } else {
            Err(GgufError::UnexpectedEof)
        },
        b@.len() <= usize::MAX,
{
    if !has_bytes(b, p, 2) {
        return Err(GgufError::UnexpectedEof);
    }
    Ok(b[p] as u16 + 256 * (b[p + 1] as u16))
}

/// The little-endian `u32` at `p`.
pub fn read_u32_le(b: &[u8], p: usize) -> (r: Result<u32, GgufError>)
    ensures
        r == if avail(b@, p as int, 4) {
            Ok::<u32, GgufError>(le_u32(b@, p as int))
        } else {
            Err(GgufError::UnexpectedEof)
        },
        b@.len() <= usize::MAX,
{
    if !has_bytes(b, p, 4) {
        return Err(GgufError::UnexpectedEof);
    }
    Ok(b[p] as u32 + 256 * (b[p + 1] as u32) + 65536 * (b[p + 2] as u32) + 16777216 * (b[p
        + 3] as u32))
}

/// The little-endian `u64` at `p`.
pub fn read_u64_le(b: &[u8], p: usize) -> (r: Result<u64, GgufError>)
    ensures
        r == if avail(b@, p as int, 8) {
            Ok::<u64, GgufError>(le_u64(b@, p as int))
        } else {
            Err(GgufError::UnexpectedEof)
        },
        b@.len() <= usize::MAX,
{
    if !has_bytes(b, p, 8) {
        return Err(GgufError::UnexpectedEof);
    }
    let lo = read_u32_le(b, p)?;
    let hi = read_u32_le(b, p + 4)?;
    Ok(lo as u64 + 4294967296 * (hi as u64))
}

/// A copy of `b[start..start + n]`.
pub fn copy_range(b: &[u8], start: usize, n: usize) -> (r: Vec<u8>)
    requires
        avail(b@, start as int, n as int),
    ensures
        r@ == b@.subrange(start as int, start + n),
{
    let _len = b.len();
    let mut r: Vec<u8> = Vec::new();
    let mut i: usize = 0;
    while i < n
        invariant
            avail(b@, start as int, n as int),
            b@.len() <= usize::MAX,
            i <= n,
            r@ == b@.subrange(start as int, start + i),
        decreases n - i,
    {
        r.push(b[start + i]);
        i += 1;
        assert(r@ =~= b@.subrange(start as int, start + i));
    }
    r
}

} // verus!
