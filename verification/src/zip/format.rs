//! The constants of the ZIP layout and little-endian numbers in byte
//! buffers.

use vstd::prelude::*;

verus! {

/// The signature of a local file header, `50 4B 03 04`.
pub const LOCAL_DIR_HEADER_SIG: u32 = 0x04034b50;

/// The signature of a central directory header, `50 4B 01 02`.
pub const CENTRAL_DIR_HEADER_SIG: u32 = 0x02014b50;

/// The signature of the end of central directory record, `50 4B 05 06`.
pub const END_OF_CENTRAL_DIR_SIG: u32 = 0x06054b50;

/// The size of a local file header without name and extra field.
pub const LOCAL_DIR_HEADER_SIZE: usize = 30;

/// The size of a central directory header without name, extra field and
/// comment.
pub const CENTRAL_DIR_HEADER_SIZE: usize = 46;

/// The size of the end of central directory record without comment.
pub const END_OF_CENTRAL_DIR_SIZE: usize = 22;

/// The version needed to extract what this library writes: 2.0.
pub const VERSION_NEEDED: u16 = 20;

/// The version that this library writes as made by: Unix, 2.3.
pub const VERSION_MADE_BY: u16 = 0x0317;

/// The method of an entry stored as it is.
pub const METHOD_STORE: u16 = 0;

/// The method of an entry compressed with DEFLATE.
pub const METHOD_DEFLATE: u16 = 8;

/// The DOS attribute of a directory.
pub const DOS_DIR_ATTR: u32 = 0x10;

/// The greatest size, offset and count that the layout can record in 32
/// bits.
pub const MAX_U32: usize = 0xFFFF_FFFF;

/// The greatest length and count that the layout can record in 16 bits.
pub const MAX_U16: usize = 0xFFFF;

/// The two bytes at `at` as a number, the first one lowest.
pub open spec fn le16(data: Seq<u8>, at: int) -> int {
    data[at] + 256 * data[at + 1]
}

/// The four bytes at `at` as a number, the first one lowest.
pub open spec fn le32(data: Seq<u8>, at: int) -> int {
    data[at] + 256 * data[at + 1] + 65536 * data[at + 2] + 16777216 * data[at + 3]
}

/// The two bytes of `v`, the lowest first.
pub open spec fn le16_bytes(v: int) -> Seq<u8> {
    seq![(v % 256) as u8, ((v / 256) % 256) as u8]
}

/// The four bytes of `v`, the lowest first.
pub open spec fn le32_bytes(v: int) -> Seq<u8> {
    seq![
        (v % 256) as u8,
        ((v / 256) % 256) as u8,
        ((v / 65536) % 256) as u8,
        ((v / 16777216) % 256) as u8,
    ]
}

/// Reads two bytes as a number, the first one lowest.
pub fn read_le16(data: &[u8], at: usize) -> (v: u16)
    requires
        at + 2 <= data@.len(),
    ensures
        v == le16(data@, at as int),
{
    (data[at] as u16) + 256 * (data[at + 1] as u16)
}

/// Reads four bytes as a number, the first one lowest.
pub fn read_le32(data: &[u8], at: usize) -> (v: u32)
    requires
        at + 4 <= data@.len(),
    ensures
        v == le32(data@, at as int),
{
    (data[at] as u32) + 256 * (data[at + 1] as u32) + 65536 * (data[at + 2] as u32) + 16777216 * (
    data[at + 3] as u32)
}

/// Appends the two bytes of `v`, the lowest first.
pub fn push_le16(out: &mut Vec<u8>, v: u16)
    ensures
        final(out)@ == old(out)@ + le16_bytes(v as int),
{
    let ghost before = out@;
    out.push((v % 256) as u8);
    out.push((v / 256) as u8);
    assert(out@ =~= before + le16_bytes(v as int));
}

/// Appends the four bytes of `v`, the lowest first.
pub fn push_le32(out: &mut Vec<u8>, v: u32)
    ensures
        final(out)@ == old(out)@ + le32_bytes(v as int),
{
    let ghost before = out@;
    out.push((v % 256) as u8);
    out.push(((v / 256) % 256) as u8);
    out.push(((v / 65536) % 256) as u8);
    out.push((v / 16777216) as u8);
    assert(out@ =~= before + le32_bytes(v as int));
}

} // verus!
