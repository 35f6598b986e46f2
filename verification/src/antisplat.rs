//! The `.splat` container: one record of 32 bytes per splat, without
//! header: center and scale as single-precision floats, then color,
//! opacity and orientation as bytes.

use vstd::prelude::*;
use crate::endian::{le32_bytes, read_u32_at, u32_le, write_u32_le};

verus! {

/// Bytes of a record.
pub const ANTISPLAT_BYTES_PER_SPLAT: usize = 32;

/// The largest number of splats in a batch.
pub const ANTISPLAT_MAX_CHUNK: usize = 65536;

/// A record, its floats as bit patterns.
#[derive(Debug, Clone, Copy)]
pub struct AntiSplatRecord {
    /// Center x, y and z.
    pub center: [u32; 3],
    /// Scale per axis, not in logarithm.
    pub scale: [u32; 3],
    /// Color, a byte per channel over 255.
    pub rgb: [u8; 3],
    /// Opacity, a byte over 255.
    pub opacity: u8,
    /// Orientation x, y, z and w, each a byte that stands for itself less
    /// 128, over 128. The file holds w first.
    pub quat: [u8; 4],
}

/// Why a `.splat` stream cannot be decoded or written.
#[derive(Debug, Clone, Copy, PartialEq, Eq, Structural)]
pub enum AntiSplatError {
    /// The length of the stream is no multiple of 32.
    InvalidSize,
    /// The scene has spherical harmonics, which the format has no room for.
    ShNotSupported,
}

/// The 32 bytes of a record: center, scale, color, opacity, and the
/// orientation as w, x, y, z.
pub open spec fn record_bytes(r: AntiSplatRecord) -> Seq<u8> {
    le32_bytes(r.center[0]) + le32_bytes(r.center[1]) + le32_bytes(r.center[2]) + le32_bytes(
        r.scale[0],
    ) + le32_bytes(r.scale[1]) + le32_bytes(r.scale[2]) + seq![
        r.rgb[0],
        r.rgb[1],
        r.rgb[2],
        r.opacity,
        r.quat[3],
        r.quat[0],
        r.quat[1],
        r.quat[2],
    ]
}

/// Whether `r` is the record that stands at `32 * i` in `b`.
pub open spec fn record_at(b: Seq<u8>, i: int, r: AntiSplatRecord) -> bool {
    let at = 32 * i;
    &&& r.center[0] == u32_le(b, at)
    &&& r.center[1] == u32_le(b, at + 4)
    &&& r.center[2] == u32_le(b, at + 8)
    &&& r.scale[0] == u32_le(b, at + 12)
    &&& r.scale[1] == u32_le(b, at + 16)
    &&& r.scale[2] == u32_le(b, at + 20)
    &&& r.rgb[0] == b[at + 24]
    &&& r.rgb[1] == b[at + 25]
    &&& r.rgb[2] == b[at + 26]
    &&& r.opacity == b[at + 27]
    &&& r.quat[3] == b[at + 28]
    &&& r.quat[0] == b[at + 29]
    &&& r.quat[1] == b[at + 30]
    &&& r.quat[2] == b[at + 31]
}

/// The records of the first `k` splats.
pub open spec fn records_bytes(records: Seq<AntiSplatRecord>, k: int) -> Seq<u8>
    decreases k,
{
    if k <= 0 {
        Seq::empty()
    } else {
        records_bytes(records, k - 1) + record_bytes(records[k - 1])
    }
}

/// A record reads back from its bytes.
pub proof fn lemma_record_roundtrip(r: AntiSplatRecord)
    ensures
        record_bytes(r).len() == 32,
        record_at(record_bytes(r), 0, r),
{
    crate::endian::lemma_le32_roundtrip(r.center[0]);
    crate::endian::lemma_le32_roundtrip(r.center[1]);
    crate::endian::lemma_le32_roundtrip(r.center[2]);
    crate::endian::lemma_le32_roundtrip(r.scale[0]);
    crate::endian::lemma_le32_roundtrip(r.scale[1]);
    crate::endian::lemma_le32_roundtrip(r.scale[2]);
}

/// The records of a file read back from it, each from its place.
pub proof fn lemma_records_roundtrip(records: Seq<AntiSplatRecord>, k: int, i: int)
    requires
        0 <= i < k <= records.len(),
    ensures
        records_bytes(records, k).len() == 32 * k,
        record_at(records_bytes(records, k), i, records[i]),
    decreases k,
{
    let head = records_bytes(records, k - 1);
    let last = record_bytes(records[k - 1]);
    lemma_record_roundtrip(records[k - 1]);
    lemma_records_len(records, k - 1);
    if i < k - 1 {
        lemma_records_roundtrip(records, k - 1, i);
        assert forall|j: int| 0 <= j < head.len() implies (head + last)[j] == head[j] by {}
    } else {
        assert forall|j: int| 0 <= j < 32 implies (head + last)[32 * i + j] == last[j] by {}
    }
}

proof fn lemma_records_len(records: Seq<AntiSplatRecord>, k: int)
    requires
        0 <= k <= records.len(),
    ensures
        records_bytes(records, k).len() == 32 * k,
    decreases k,
{
    if k > 0 {
        lemma_records_len(records, k - 1);
        lemma_record_roundtrip(records[k - 1]);
    }
}

/// Reads the record of splat `i`, if the bytes hold it whole.
pub fn read_record(bytes: &[u8], i: usize) -> (r: Option<AntiSplatRecord>)
    ensures
        r.is_some() <==> 32 * (i + 1) <= bytes@.len(),
        r matches Some(rec) ==> record_at(bytes@, i as int, rec),
{
    let len = bytes.len();
    if i >= len / 32 {
        return None;
    }
    let at = 32 * i;
    Some(
        AntiSplatRecord {
            center: [read_u32_at(bytes, at), read_u32_at(bytes, at + 4), read_u32_at(bytes, at + 8)],
            scale: [
                read_u32_at(bytes, at + 12),
                read_u32_at(bytes, at + 16),
                read_u32_at(bytes, at + 20),
            ],
            rgb: [bytes[at + 24], bytes[at + 25], bytes[at + 26]],
            opacity: bytes[at + 27],
            quat: [bytes[at + 29], bytes[at + 30], bytes[at + 31], bytes[at + 28]],
        },
    )
}

/// A run of splats of a `.splat` file.
#[derive(Debug, Clone, Copy, PartialEq, Eq, Structural)]
pub struct AntiSplatBatch {
    /// Index of the first splat.
    pub base: usize,
    /// Number of splats.
    pub count: usize,
}

/// The batches of a file of `num_splats` splats from `base` on: runs of at
/// most 65 536 splats.
pub open spec fn antisplat_batches(num_splats: nat, base: nat) -> Seq<AntiSplatBatch>
    decreases num_splats - base,
{
    if base >= num_splats {
        Seq::empty()
    } else {
        let count = if num_splats - base < 65536 {
            (num_splats - base) as nat
        } else {
            65536
        };
        seq![AntiSplatBatch { base: base as usize, count: count as usize }] + antisplat_batches(
            num_splats,
            base + count,
        )
    }
}

/// Decodes a `.splat` stream: the bytes are kept until the stream ends.
pub struct AntiSplatDecoder {
    buffer: Vec<u8>,
}

impl AntiSplatDecoder {
    /// The bytes taken so far.
    pub closed spec fn view(&self) -> Seq<u8> {
        self.buffer@
    }

    /// A decoder at the start of a stream.
    pub fn new() -> (d: Self)
        ensures
            d@.len() == 0,
    {
        AntiSplatDecoder { buffer: Vec::new() }
    }

    /// Takes the next piece of the stream.
    pub fn push(&mut self, bytes: &[u8])
        ensures
            final(self)@ == old(self)@ + bytes@,
    {
        self.buffer.extend_from_slice(bytes);
    }

    /// The bytes taken so far.
    pub fn bytes(&self) -> (b: &Vec<u8>)
        ensures
            b@ == self@,
    {
        &self.buffer
    }

    /// Ends the stream: the number of splats, and the batches in which they
    /// are handed on. The length of the stream has to be a multiple of 32.
    pub fn finish(&self) -> (r: Result<(usize, Vec<AntiSplatBatch>), AntiSplatError>)
        ensures
            r is Err <==> self@.len() % 32 != 0,
            r matches Err(e) ==> e == AntiSplatError::InvalidSize,
            r matches Ok((n, batches)) ==> n == self@.len() / 32 && batches@ == antisplat_batches(
                n as nat,
                0,
            ),
    {
        let len = self.buffer.len();
        if len % ANTISPLAT_BYTES_PER_SPLAT != 0 {
            return Err(AntiSplatError::InvalidSize);
        }
        let num_splats = len / ANTISPLAT_BYTES_PER_SPLAT;
        let mut batches: Vec<AntiSplatBatch> = Vec::new();
        let mut base: usize = 0;
        assert(batches@ + antisplat_batches(num_splats as nat, 0) =~= antisplat_batches(
            num_splats as nat,
            0,
        ));
        while base < num_splats
            invariant
                base <= num_splats,
                antisplat_batches(num_splats as nat, 0) == batches@ + antisplat_batches(
                    num_splats as nat,
                    base as nat,
                ),
            decreases num_splats - base,
        {
            let count = if num_splats - base < ANTISPLAT_MAX_CHUNK {
                num_splats - base
            } else {
                ANTISPLAT_MAX_CHUNK
            };
            let batch = AntiSplatBatch { base, count };
            proof {
                let rest = antisplat_batches(num_splats as nat, (base + count) as nat);
                assert((batches@ + seq![batch]) + rest =~= batches@ + (seq![batch] + rest));
            }
            batches.push(batch);
            base = base + count;
        }
        assert(batches@ + Seq::<AntiSplatBatch>::empty() =~= batches@);
        Ok((num_splats, batches))
    }
}

/// Writes the records of a scene as a `.splat` file. A scene with
/// spherical harmonics is refused.
pub fn encode_antisplat(max_sh_degree: usize, records: &[AntiSplatRecord]) -> (r: Result<
    Vec<u8>,
    AntiSplatError,
>)
    ensures
        r is Err <==> max_sh_degree > 0,
        r matches Err(e) ==> e == AntiSplatError::ShNotSupported,
        r matches Ok(out) ==> out@ == records_bytes(records@, records@.len() as int),
{
    if max_sh_degree > 0 {
        return Err(AntiSplatError::ShNotSupported);
    }
    let mut out: Vec<u8> = Vec::new();
    let mut k: usize = 0;
    while k < records.len()
        invariant
            k <= records@.len(),
            out@ == records_bytes(records@, k as int),
        decreases records@.len() - k,
    {
        let r = &records[k];
        let ghost before = out@;
        write_u32_le(&mut out, r.center[0]);
        write_u32_le(&mut out, r.center[1]);
        write_u32_le(&mut out, r.center[2]);
        write_u32_le(&mut out, r.scale[0]);
        write_u32_le(&mut out, r.scale[1]);
        write_u32_le(&mut out, r.scale[2]);
        out.push(r.rgb[0]);
        out.push(r.rgb[1]);
        out.push(r.rgb[2]);
        out.push(r.opacity);
        out.push(r.quat[3]);
        out.push(r.quat[0]);
        out.push(r.quat[1]);
        out.push(r.quat[2]);
        assert(out@ =~= before + record_bytes(*r));
        k += 1;
    }
    Ok(out)
}

} // verus!
