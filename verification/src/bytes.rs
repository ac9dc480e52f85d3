//! Reading little-endian numbers and UTF-16 text out of bytes.

use vstd::prelude::*;

verus! {

/// The 16-bit number at an offset, low byte first.
pub open spec fn le16(b: Seq<u8>, off: int) -> u16 {
    (b[off] + b[off + 1] * 0x100) as u16
}

/// The 32-bit number at an offset, low byte first.
pub open spec fn le32(b: Seq<u8>, off: int) -> u32 {
    (le16(b, off) + le16(b, off + 2) * 0x1_0000) as u32
}

/// The 64-bit number at an offset, low byte first.
pub open spec fn le64(b: Seq<u8>, off: int) -> u64 {
    (le32(b, off) + le32(b, off + 4) * 0x1_0000_0000) as u64
}

/// The signed 64-bit number at an offset, low byte first.
pub open spec fn le_i64(b: Seq<u8>, off: int) -> i64 {
    if le64(b, off) < 0x8000_0000_0000_0000 {
        le64(b, off) as i64
    } else {
        (le64(b, off) - 0x1_0000_0000_0000_0000) as i64
    }
}

/// `n` 16-bit numbers from an offset on.
pub open spec fn units(b: Seq<u8>, off: int, n: nat) -> Seq<u16> {
    Seq::new(n, |i: int| le16(b, off + 2 * i))
}

pub fn read16(b: &[u8], off: usize) -> (r: u16)
    requires
        off + 2 <= b@.len(),
    ensures
        r == le16(b@, off as int),
{
    b[off] as u16 + b[off + 1] as u16 * 0x100
}

pub fn read32(b: &[u8], off: usize) -> (r: u32)
    requires
        off + 4 <= b@.len(),
    ensures
        r == le32(b@, off as int),
{
    assert(b@.len() == b.len());
    read16(b, off) as u32 + read16(b, off + 2) as u32 * 0x1_0000
}

pub fn read64(b: &[u8], off: usize) -> (r: u64)
    requires
        off + 8 <= b@.len(),
    ensures
        r == le64(b@, off as int),
{
    assert(b@.len() == b.len());
    read32(b, off) as u64 + read32(b, off + 4) as u64 * 0x1_0000_0000
}

pub fn read_i64(b: &[u8], off: usize) -> (r: i64)
    requires
        off + 8 <= b@.len(),
    ensures
        r == le_i64(b@, off as int),
{
    let v: u64 = read64(b, off);
    if v < 0x8000_0000_0000_0000 {
        v as i64
    } else {
        (v - 0x8000_0000_0000_0000) as i64 - 0x7FFF_FFFF_FFFF_FFFF - 1
    }
}

/// Reads `n` 16-bit numbers.
pub fn read_units(b: &[u8], off: usize, n: usize) -> (r: Vec<u16>)
    requires
        off + 2 * n <= b@.len(),
    ensures
        r@ == units(b@, off as int, n as nat),
{
    let len: usize = b.len();
    let mut r: Vec<u16> = Vec::new();
    let mut i: usize = 0;
    while i < n
        invariant
            i <= n,
            len == b@.len(),
            off + 2 * n <= len,
            r@ == units(b@, off as int, i as nat),
        decreases n - i,
    {
        r.push(read16(b, off + 2 * i));
        i += 1;
        assert(r@ =~= units(b@, off as int, i as nat));
    }
    r
}

/// What `String::from_utf16_lossy` makes of UTF-16 text.
pub uninterp spec fn utf16_lossy(u: Seq<u16>) -> Seq<char>;

/// `String::from_utf16_lossy`: the text of UTF-16 units, with a replacement character for what
/// is not valid; a function of the units alone.
#[verifier::external_body]
pub(crate) fn from_utf16_lossy(u: &[u16]) -> (r: String)
    ensures
        r@ == utf16_lossy(u@),
{
    String::from_utf16_lossy(u)
}

/// There is room for `n` bytes at an offset.
pub fn room(len: usize, off: usize, n: usize) -> (r: bool)
    ensures
        r == (off + n <= len),
{
    off <= len && n <= len - off
}

} // verus!
