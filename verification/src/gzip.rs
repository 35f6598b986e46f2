//! The gzip container: header layout, the CRC-32 of the trailer, and the
//! calls into the deflate codec.

use vstd::prelude::*;
use crate::endian::{le32_bytes, write_u32_le};

verus! {

/// What the start of a byte stream is, read as a gzip header.
#[derive(Clone, Copy, Debug, PartialEq, Eq, Structural)]
pub enum GzipHeader {
    /// The first three bytes are not `1f 8b 08`.
    Invalid,
    /// The header does not end within the bytes at hand.
    Incomplete,
    /// The header is whole; the deflate stream starts at this offset.
    Complete(usize),
}

/// The index just past the first zero byte at or after `from`.
pub open spec fn nul_end(b: Seq<u8>, from: int) -> Option<int>
    decreases b.len() - from,
{
    if from < 0 || from >= b.len() {
        None
    } else if b[from] == 0 {
        Some(from + 1)
    } else {
        nul_end(b, from + 1)
    }
}

/// Where the optional extra field that starts at offset 10 ends: a 16-bit
/// length, then that many bytes.
pub open spec fn gzip_after_extra(b: Seq<u8>) -> Option<int> {
    if b[3] & 0x04 == 0 {
        Some(10)
    } else if b.len() < 12 {
        None
    } else {
        let end = 12 + b[10] as int + 256 * b[11] as int;
        if b.len() < end {
            None
        } else {
            Some(end)
        }
    }
}

/// Where the optional zero-terminated file name ends.
pub open spec fn gzip_after_name(b: Seq<u8>) -> Option<int> {
    match gzip_after_extra(b) {
        None => None,
        Some(end) => if b[3] & 0x08 == 0 {
            Some(end)
        } else {
            nul_end(b, end)
        },
    }
}

/// Where the optional zero-terminated comment ends.
pub open spec fn gzip_after_comment(b: Seq<u8>) -> Option<int> {
    match gzip_after_name(b) {
        None => None,
        Some(end) => if b[3] & 0x10 == 0 {
            Some(end)
        } else {
            nul_end(b, end)
        },
    }
}

/// Where the optional two-byte header checksum ends.
pub open spec fn gzip_after_crc(b: Seq<u8>) -> Option<int> {
    match gzip_after_comment(b) {
        None => None,
        Some(end) => if b[3] & 0x02 == 0 {
            Some(end)
        } else if b.len() < end + 2 {
            None
        } else {
            Some(end + 2)
        },
    }
}

/// The gzip header at the start of `b`: ten fixed bytes, of which the first
/// three are `1f 8b 08` and the fourth holds the flags, then the optional
/// fields that the flags announce, in the order extra field, name, comment,
/// header checksum.
pub open spec fn gzip_header(b: Seq<u8>) -> GzipHeader {
    if b.len() < 10 {
        GzipHeader::Incomplete
    } else if b[0] != 0x1f || b[1] != 0x8b || b[2] != 8 {
        GzipHeader::Invalid
    } else {
        match gzip_after_crc(b) {
            None => GzipHeader::Incomplete,
            Some(end) => GzipHeader::Complete(end as usize),
        }
    }
}

proof fn lemma_nul_end_bounds(b: Seq<u8>, from: int)
    ensures
        nul_end(b, from) matches Some(end) ==> from < end <= b.len(),
    decreases b.len() - from,
{
    if 0 <= from < b.len() && b[from] != 0 {
        lemma_nul_end_bounds(b, from + 1);
    }
}

/// A whole header ends within the bytes at hand, past its ten fixed bytes.
pub proof fn lemma_gzip_header_bounds(b: Seq<u8>)
    requires
        b.len() <= usize::MAX,
    ensures
        gzip_header(b) matches GzipHeader::Complete(end) ==> 10 <= end <= b.len(),
{
    if b.len() >= 10 {
        match gzip_after_extra(b) {
            Some(e) => lemma_nul_end_bounds(b, e),
            None => {},
        }
        match gzip_after_name(b) {
            Some(e) => lemma_nul_end_bounds(b, e),
            None => {},
        }
    }
}

/// Finds the index just past the first zero byte at or after `from`.
fn find_nul_end(buffer: &[u8], from: usize) -> (r: Option<usize>)
    requires
        from <= buffer@.len(),
    ensures
        match r {
            Some(end) => nul_end(buffer@, from as int) == Some(end as int),
            None => nul_end(buffer@, from as int).is_none(),
        },
{
    let mut i = from;
    while i < buffer.len()
        invariant
            from <= i <= buffer@.len(),
            nul_end(buffer@, from as int) == nul_end(buffer@, i as int),
        decreases buffer@.len() - i,
    {
        if buffer[i] == 0 {
            return Some(i + 1);
        }
        i += 1;
    }
    None
}

/// Reads the gzip header at the start of `buffer`.
pub fn parse_gzip_header(buffer: &[u8]) -> (header: GzipHeader)
    ensures
        header == gzip_header(buffer@),
{
    if buffer.len() < 10 {
        return GzipHeader::Incomplete;
    }
    if buffer[0] != 0x1f || buffer[1] != 0x8b || buffer[2] != 8 {
        return GzipHeader::Invalid;
    }
    let flags = buffer[3];
    let mut end: usize = 10;

    if (flags & 0x04) != 0 {
        if buffer.len() < 12 {
            return GzipHeader::Incomplete;
        }
        let extra_len = (buffer[10] as usize) + 256 * (buffer[11] as usize);
        if buffer.len() - 12 < extra_len {
            return GzipHeader::Incomplete;
        }
        end = 12 + extra_len;
    }
    assert(gzip_after_extra(buffer@) == Some(end as int));

    if (flags & 0x08) != 0 {
        match find_nul_end(buffer, end) {
            None => {
                return GzipHeader::Incomplete;
            },
            Some(e) => {
                end = e;
            },
        }
    }
    assert(gzip_after_name(buffer@) == Some(end as int));

    if (flags & 0x10) != 0 {
        proof {
            lemma_gzip_header_bounds(buffer@);
            match gzip_after_extra(buffer@) {
                Some(e) => lemma_nul_end_bounds(buffer@, e),
                None => {},
            }
        }
        match find_nul_end(buffer, end) {
            None => {
                return GzipHeader::Incomplete;
            },
            Some(e) => {
                end = e;
            },
        }
    }
    assert(gzip_after_comment(buffer@) == Some(end as int));
    proof {
        match gzip_after_extra(buffer@) {
            Some(e) => lemma_nul_end_bounds(buffer@, e),
            None => {},
        }
        match gzip_after_name(buffer@) {
            Some(e) => lemma_nul_end_bounds(buffer@, e),
            None => {},
        }
    }

    if (flags & 0x02) != 0 {
        if buffer.len() - end < 2 {
            return GzipHeader::Incomplete;
        }
        end += 2;
    }
    GzipHeader::Complete(end)
}

/// One bit of CRC-32 division: a shift, and the reflected polynomial
/// `edb88320` where a one-bit fell out.
pub open spec fn crc_step(c: u32) -> u32 {
    if c & 1 != 0 {
        (c >> 1) ^ 0xEDB8_8320
    } else {
        c >> 1
    }
}

/// Eight bits of CRC-32 division.
pub open spec fn crc_step8(c: u32) -> u32 {
    crc_step(crc_step(crc_step(crc_step(crc_step(crc_step(crc_step(crc_step(c))))))))
}

/// The CRC-32 register after one more byte.
pub open spec fn crc_byte(crc: u32, b: u8) -> u32 {
    crc_step8(crc ^ (b as u32))
}

/// The CRC-32 register after `bytes`, from the all-ones start.
pub open spec fn crc_register(bytes: Seq<u8>) -> u32
    decreases bytes.len(),
{
    if bytes.len() == 0 {
        0xFFFF_FFFF
    } else {
        crc_byte(crc_register(bytes.drop_last()), bytes.last())
    }
}

/// The CRC-32 (IEEE 802.3) of `bytes`: the register, inverted.
pub open spec fn crc32_of(bytes: Seq<u8>) -> u32 {
    crc_register(bytes) ^ 0xFFFF_FFFF
}

proof fn lemma_crc_table(crc: u32, b: u8)
    by (bit_vector)
    ensures
        crc_step8(crc ^ (b as u32)) == (crc >> 8) ^ crc_step8((crc ^ (b as u32)) & 0xff),
        (crc ^ (b as u32)) & 0xff < 256,
{
}

fn crc_step_exec(c: u32) -> (r: u32)
    ensures
        r == crc_step(c),
{
    if c & 1 != 0 {
        (c >> 1) ^ 0xEDB8_8320
    } else {
        c >> 1
    }
}

/// The table of the byte-wise CRC-32: entry `i` is eight division steps
/// applied to `i`.
fn crc_table() -> (table: Vec<u32>)
    ensures
        table@.len() == 256,
        forall|i: int| 0 <= i < 256 ==> table@[i] == crc_step8(i as u32),
{
    let mut table: Vec<u32> = Vec::new();
    let mut i: u32 = 0;
    while i < 256
        invariant
            i <= 256,
            table@.len() == i,
            forall|j: int| 0 <= j < i ==> table@[j] == crc_step8(j as u32),
        decreases 256 - i,
    {
        let c1 = crc_step_exec(i);
        let c2 = crc_step_exec(c1);
        let c3 = crc_step_exec(c2);
        let c4 = crc_step_exec(c3);
        let c5 = crc_step_exec(c4);
        let c6 = crc_step_exec(c5);
        let c7 = crc_step_exec(c6);
        let c8 = crc_step_exec(c7);
        table.push(c8);
        i += 1;
    }
    table
}

/// The CRC-32 (IEEE 802.3, reflected polynomial `edb88320`) of `bytes`.
pub fn crc32(bytes: &[u8]) -> (crc: u32)
    ensures
        crc == crc32_of(bytes@),
{
    let table = crc_table();
    let mut crc: u32 = 0xFFFF_FFFF;
    let mut i: usize = 0;
    while i < bytes.len()
        invariant
            i <= bytes@.len(),
            table@.len() == 256,
            forall|j: int| 0 <= j < 256 ==> table@[j] == crc_step8(j as u32),
            crc == crc_register(bytes@.subrange(0, i as int)),
        decreases bytes@.len() - i,
    {
        let b = bytes[i];
        let x: u32 = (crc ^ (b as u32)) & 0xff;
        proof {
            lemma_crc_table(crc, b);
            let next = bytes@.subrange(0, i + 1);
            assert(next.drop_last() =~= bytes@.subrange(0, i as int));
            assert(next.last() == b);
        }
        crc = (crc >> 8) ^ table[x as usize];
        i += 1;
    }
    assert(bytes@.subrange(0, i as int) =~= bytes@);
    crc ^ 0xFFFF_FFFF
}

/// The state of a deflate stream that is being decompressed.
#[verifier::external_type_specification]
#[verifier::external_body]
pub struct ExDecompressorOxide(miniz_oxide::inflate::core::DecompressorOxide);

/// Status of a decompression call: the end of the deflate stream was reached.
pub const INFLATE_DONE: i8 = 0;

/// Status of a decompression call: the input ran out before the stream did.
pub const INFLATE_NEEDS_MORE_INPUT: i8 = 1;

/// Status of a decompression call: the output buffer is full.
pub const INFLATE_HAS_MORE_OUTPUT: i8 = 2;

/// Status of a decompression call: the stream is not valid deflate data.
pub const INFLATE_FAILED: i8 = -1;

/// `miniz_oxide::inflate::core::DecompressorOxide::new`: a decompressor at
/// the start of a stream. Nothing is claimed of it.
#[verifier::external_body]
fn fresh_state() -> miniz_oxide::inflate::core::DecompressorOxide {
    miniz_oxide::inflate::core::DecompressorOxide::new()
}

/// A call of the codec: the input handed to it, the output buffer as it
/// was, and the place in the buffer from which the codec writes.
pub type InflateCall = (Seq<u8>, Seq<u8>, nat);

/// A decompressor, with the calls made on it since it was fresh.
pub struct Inflater {
    state: miniz_oxide::inflate::core::DecompressorOxide,
    calls: Ghost<Seq<InflateCall>>,
}

/// What the codec answers to the last of a row of calls, made one after the
/// other on a decompressor that was fresh before the first: the status as
/// its number, the count of input bytes read, the count of bytes written,
/// and the output buffer after the call.
pub uninterp spec fn inflate_run(calls: Seq<InflateCall>) -> (i8, nat, nat, Seq<u8>);

impl Inflater {
    /// The calls made so far.
    pub closed spec fn calls(&self) -> Seq<InflateCall> {
        self.calls@
    }

    /// A decompressor at the start of a stream.
    pub fn new() -> (r: Self)
        ensures
            r.calls() == Seq::<InflateCall>::empty(),
    {
        Inflater { state: fresh_state(), calls: Ghost(Seq::empty()) }
    }
}

/// `miniz_oxide::inflate::core::decompress`, on a raw deflate stream of which
/// more may follow, with an output buffer that does not wrap. It reads
/// `input` from its start and writes into `out` from `out_pos` on. Returned
/// are the status as its number, the count of input bytes read and the count
/// of bytes written. Claimed: the answer depends on this call and on the
/// calls made on this decompressor before it, and on nothing else; the
/// first count is within `input`, the second within the room behind
/// `out_pos`, and `out` keeps its length.
#[verifier::external_body]
pub(crate) fn inflate_step(r: &mut Inflater, input: &[u8], out: &mut Vec<u8>, out_pos: usize) -> (res: (
    i8,
    usize,
    usize,
))
    ensures
        final(r).calls() == old(r).calls().push((input@, old(out)@, out_pos as nat)),
        (res.0, res.1 as nat, res.2 as nat, final(out)@) == inflate_run(final(r).calls()),
        res.1 <= input@.len(),
        out_pos <= old(out)@.len() ==> out_pos + res.2 <= old(out)@.len(),
        final(out)@.len() == old(out)@.len(),
{
    let flags = miniz_oxide::inflate::core::inflate_flags::TINFL_FLAG_HAS_MORE_INPUT
        | miniz_oxide::inflate::core::inflate_flags::TINFL_FLAG_USING_NON_WRAPPING_OUTPUT_BUF;
    let (status, n_in, n_out) = miniz_oxide::inflate::core::decompress(
        &mut r.state,
        input,
        out.as_mut_slice(),
        out_pos,
        flags,
    );
    (status as i8, n_in, n_out)
}

/// The raw deflate stream that the codec makes of `input` at `level`.
pub uninterp spec fn deflate_bytes(input: Seq<u8>, level: u8) -> Seq<u8>;

/// `miniz_oxide::deflate::compress_to_vec`: the raw deflate stream of
/// `input` at the given level (0 to 10). Claimed: the result depends on
/// these two alone.
#[verifier::external_body]
pub(crate) fn deflate_to_vec(input: &[u8], level: u8) -> (out: Vec<u8>)
    ensures
        out@ == deflate_bytes(input@, level),
{
    miniz_oxide::deflate::compress_to_vec(input, level)
}

/// The ten bytes of a gzip header without optional fields: magic, deflate,
/// no flags, no time, no extra flags, unknown system.
pub open spec fn gzip_plain_header() -> Seq<u8> {
    seq![0x1fu8, 0x8b, 0x08, 0x00, 0, 0, 0, 0, 0x00, 0xff]
}

/// The gzip file of `raw`: the plain header, the deflate stream of `raw` at
/// level 6, the CRC-32 of `raw`, and its length modulo 2^32.
pub open spec fn gzip_frame(raw: Seq<u8>) -> Seq<u8> {
    gzip_plain_header() + deflate_bytes(raw, 6) + le32_bytes(crc32_of(raw)) + le32_bytes(
        (raw.len() % 0x1_0000_0000) as u32,
    )
}

/// Wraps `raw` into a gzip file.
pub fn gzip_wrap(raw: &[u8]) -> (out: Vec<u8>)
    ensures
        out@ == gzip_frame(raw@),
{
    let mut out: Vec<u8> = Vec::new();
    out.push(0x1f);
    out.push(0x8b);
    out.push(0x08);
    out.push(0x00);
    out.push(0);
    out.push(0);
    out.push(0);
    out.push(0);
    out.push(0x00);
    out.push(0xff);
    assert(out@ =~= gzip_plain_header());
    let deflated = deflate_to_vec(raw, 6);
    out.extend_from_slice(deflated.as_slice());
    let crc = crc32(raw);
    write_u32_le(&mut out, crc);
    let size: u32 = (raw.len() as u64 % 0x1_0000_0000) as u32;
    write_u32_le(&mut out, size);
    out
}

} // verus!
