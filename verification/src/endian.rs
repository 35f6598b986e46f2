//! Little-endian integers in byte strings.

use vstd::prelude::*;

verus! {

/// The 16-bit number whose two bytes stand at `at`, the low byte first.
pub open spec fn u16_le(b: Seq<u8>, at: int) -> u16 {
    (b[at] as int + 0x100 * b[at + 1] as int) as u16
}

/// The 32-bit number whose four bytes stand at `at`, the low byte first.
pub open spec fn u32_le(b: Seq<u8>, at: int) -> u32 {
    (b[at] as int + 0x100 * b[at + 1] as int + 0x1_0000 * b[at + 2] as int + 0x100_0000 * b[at
        + 3] as int) as u32
}

/// The signed 24-bit number whose three bytes stand at `at`, the low byte
/// first, in two's complement.
pub open spec fn i24_le(b: Seq<u8>, at: int) -> i32 {
    let v = b[at] as int + 0x100 * b[at + 1] as int + 0x1_0000 * b[at + 2] as int;
    if v >= 0x80_0000 {
        (v - 0x100_0000) as i32
    } else {
        v as i32
    }
}

/// The two bytes of a 16-bit number, the low byte first.
pub open spec fn le16_bytes(v: u16) -> Seq<u8> {
    seq![(v % 0x100) as u8, (v / 0x100) as u8]
}

/// The four bytes of a 32-bit number, the low byte first.
pub open spec fn le32_bytes(v: u32) -> Seq<u8> {
    seq![
        (v % 0x100) as u8,
        ((v / 0x100) % 0x100) as u8,
        ((v / 0x1_0000) % 0x100) as u8,
        (v / 0x100_0000) as u8,
    ]
}

/// The low three bytes of a number in two's complement, the low byte first.
pub open spec fn le24_bytes(v: i32) -> Seq<u8> {
    let u = v as int % 0x100_0000;
    seq![(u % 0x100) as u8, ((u / 0x100) % 0x100) as u8, (u / 0x1_0000) as u8]
}

/// A 16-bit number reads back from its bytes.
pub proof fn lemma_le16_roundtrip(v: u16)
    ensures
        u16_le(le16_bytes(v), 0) == v,
{
}

/// A 32-bit number reads back from its bytes.
pub proof fn lemma_le32_roundtrip(v: u32)
    ensures
        u32_le(le32_bytes(v), 0) == v,
{
}

/// A number that fits 24 signed bits reads back from its three bytes.
pub proof fn lemma_le24_roundtrip(v: i32)
    requires
        -0x80_0000 <= v < 0x80_0000,
    ensures
        i24_le(le24_bytes(v), 0) == v,
{
}

/// Reads the 16-bit number at the start of `two`.
pub fn read_u16_le(two: &[u8]) -> (v: u16)
    requires
        two@.len() >= 2,
    ensures
        v == u16_le(two@, 0),
{
    two[0] as u16 + 0x100 * (two[1] as u16)
}

/// Reads the 32-bit number at the start of `buf`.
pub fn read_u32_le(buf: &[u8]) -> (v: u32)
    requires
        buf@.len() >= 4,
    ensures
        v == u32_le(buf@, 0),
{
    buf[0] as u32 + 0x100 * (buf[1] as u32) + 0x1_0000 * (buf[2] as u32) + 0x100_0000 * (
    buf[3] as u32)
}

/// Reads the signed 24-bit number at the start of `three`.
pub fn read_i24_le(three: &[u8]) -> (v: i32)
    requires
        three@.len() >= 3,
    ensures
        v == i24_le(three@, 0),
        -0x80_0000 <= v < 0x80_0000,
{
    let v: i32 = three[0] as i32 + 0x100 * (three[1] as i32) + 0x1_0000 * (three[2] as i32);
    if v >= 0x80_0000 {
        v - 0x100_0000
    } else {
        v
    }
}

/// Reads the 16-bit number at `offset`.
pub fn read_u16_at(buf: &[u8], offset: usize) -> (v: u16)
    requires
        offset + 2 <= buf@.len(),
    ensures
        v == u16_le(buf@, offset as int),
{
    buf[offset] as u16 + 0x100 * (buf[offset + 1] as u16)
}

/// Reads the 32-bit number at `offset`.
pub fn read_u32_at(buf: &[u8], offset: usize) -> (v: u32)
    requires
        offset + 4 <= buf@.len(),
    ensures
        v == u32_le(buf@, offset as int),
{
    buf[offset] as u32 + 0x100 * (buf[offset + 1] as u32) + 0x1_0000 * (buf[offset + 2] as u32)
        + 0x100_0000 * (buf[offset + 3] as u32)
}

/// Reads the signed 24-bit number at `offset`.
pub fn read_i24_at(buf: &[u8], offset: usize) -> (v: i32)
    requires
        offset + 3 <= buf@.len(),
    ensures
        v == i24_le(buf@, offset as int),
        -0x80_0000 <= v < 0x80_0000,
{
    let v: i32 = buf[offset] as i32 + 0x100 * (buf[offset + 1] as i32) + 0x1_0000 * (buf[offset
        + 2] as i32);
    if v >= 0x80_0000 {
        v - 0x100_0000
    } else {
        v
    }
}

/// Appends the two bytes of `v`.
pub fn write_u16_le(out: &mut Vec<u8>, v: u16)
    ensures
        final(out)@ == old(out)@ + le16_bytes(v),
{
    out.push((v % 0x100) as u8);
    out.push((v / 0x100) as u8);
    assert(out@ =~= old(out)@ + le16_bytes(v));
}

/// Appends the four bytes of `v`.
pub fn write_u32_le(out: &mut Vec<u8>, v: u32)
    ensures
        final(out)@ == old(out)@ + le32_bytes(v),
{
    out.push((v % 0x100) as u8);
    out.push(((v / 0x100) % 0x100) as u8);
    out.push(((v / 0x1_0000) % 0x100) as u8);
    out.push((v / 0x100_0000) as u8);
    assert(out@ =~= old(out)@ + le32_bytes(v));
}

/// Appends the low three bytes of `v`.
pub fn write_i24_le(out: &mut Vec<u8>, v: i32)
    ensures
        final(out)@ == old(out)@ + le24_bytes(v),
{
    let wide: i64 = v as i64 + 0x1_0000_0000;
    let u: i64 = wide % 0x100_0000;
    assert(u == v as int % 0x100_0000);
    out.push((u % 0x100) as u8);
    out.push(((u / 0x100) % 0x100) as u8);
    out.push((u / 0x1_0000) as u8);
    assert(out@ =~= old(out)@ + le24_bytes(v));
}

} // verus!
