//! The SPZ container: a 16-byte header and sections of quantized fields,
//! gzip-compressed as a whole.
//!
//! The decoder frames the stream into batches of raw section bytes and the
//! encoder lays quantized fields out; the quantized values are integers
//! throughout.

use vstd::prelude::*;
use crate::endian::{
    i24_le, le16_bytes, le24_bytes, le32_bytes, read_i24_at, read_u16_at, read_u32_at, u16_le,
    u32_le, write_i24_le, write_u16_le, write_u32_le,
};
use crate::gzip::{
    gzip_frame, gzip_header, gzip_wrap, inflate_run, inflate_step, parse_gzip_header, GzipHeader,
    InflateCall, Inflater,
    INFLATE_DONE, INFLATE_HAS_MORE_OUTPUT, INFLATE_NEEDS_MORE_INPUT,
};

verus! {

/// The first four bytes of an SPZ payload, `NGSP`, as a little-endian number.
pub const SPZ_MAGIC: u32 = 0x5053474e;

/// Header flag: the scene was trained with antialiasing.
pub const SPZ_FLAG_ANTIALIAS: u8 = 0x01;

/// Header flag: the LoD extension (child counts, child starts) follows the
/// spherical harmonics.
pub const SPZ_FLAG_LOD: u8 = 0x80;

/// The sections of an SPZ payload, in their order, and the two steps
/// without data between them.
#[derive(Debug, Clone, Copy, PartialEq, Eq, Structural)]
pub enum SpzDecoderStage {
    Centers,
    Alphas,
    Rgb,
    Scales,
    Quats,
    Sh,
    Extension,
    ChildCounts,
    ChildStarts,
    Done,
}

/// The 16-byte header of an SPZ payload.
#[derive(Debug, Clone, Copy, PartialEq, Eq, Structural)]
pub struct SpzHeader {
    /// Format version, 1 to 3.
    pub version: u32,
    /// Number of splats.
    pub num_splats: usize,
    /// Highest spherical-harmonic band present, 0 to 3.
    pub sh_degree: usize,
    /// Fraction bits of the fixed-point centers.
    pub fractional_bits: u8,
    /// Flags: bit 0 antialias, bit 7 LoD extension.
    pub flags: u8,
}

/// Why an SPZ stream cannot be decoded.
#[derive(Debug, Clone, Copy, PartialEq, Eq, Structural)]
pub enum SpzError {
    /// The payload does not start with `NGSP`; the number found is given.
    InvalidMagic(u32),
    /// The version is not 1, 2 or 3.
    UnsupportedVersion(u32),
    /// The spherical-harmonic degree is above 3.
    InvalidShDegree(usize),
    /// The stream does not start with a gzip header.
    InvalidGzipHeader,
    /// The deflate stream is broken; the status of the codec is given.
    DecompressionFailed(i8),
    /// The stream ended before the deflate stream did.
    TruncatedGzip,
    /// The payload ended within the given section.
    Incomplete(SpzDecoderStage),
    /// The payload ended before its header did.
    Invalid,
}

/// Bytes that one splat takes in a section.
pub open spec fn spz_item_bytes(h: SpzHeader, stage: SpzDecoderStage) -> nat {
    match stage {
        SpzDecoderStage::Centers => if h.version == 1 {
            6
        } else {
            9
        },
        SpzDecoderStage::Alphas => 1,
        SpzDecoderStage::Rgb => 3,
        SpzDecoderStage::Scales => 3,
        SpzDecoderStage::Quats => if h.version == 3 {
            4
        } else {
            3
        },
        SpzDecoderStage::Sh => if h.sh_degree == 1 {
            9
        } else if h.sh_degree == 2 {
            24
        } else if h.sh_degree == 3 {
            45
        } else {
            0
        },
        SpzDecoderStage::Extension => 0,
        SpzDecoderStage::ChildCounts => 2,
        SpzDecoderStage::ChildStarts => 4,
        SpzDecoderStage::Done => 0,
    }
}

/// The stage that follows a section once all its splats are read.
pub open spec fn spz_next_stage(stage: SpzDecoderStage) -> SpzDecoderStage {
    match stage {
        SpzDecoderStage::Centers => SpzDecoderStage::Alphas,
        SpzDecoderStage::Alphas => SpzDecoderStage::Rgb,
        SpzDecoderStage::Rgb => SpzDecoderStage::Scales,
        SpzDecoderStage::Scales => SpzDecoderStage::Quats,
        SpzDecoderStage::Quats => SpzDecoderStage::Sh,
        SpzDecoderStage::Sh => SpzDecoderStage::Extension,
        SpzDecoderStage::Extension => SpzDecoderStage::ChildCounts,
        SpzDecoderStage::ChildCounts => SpzDecoderStage::ChildStarts,
        SpzDecoderStage::ChildStarts => SpzDecoderStage::Done,
        SpzDecoderStage::Done => SpzDecoderStage::Done,
    }
}

/// How many stages lie ahead of a stage.
pub open spec fn spz_stage_rank(stage: SpzDecoderStage) -> nat {
    match stage {
        SpzDecoderStage::Centers => 9,
        SpzDecoderStage::Alphas => 8,
        SpzDecoderStage::Rgb => 7,
        SpzDecoderStage::Scales => 6,
        SpzDecoderStage::Quats => 5,
        SpzDecoderStage::Sh => 4,
        SpzDecoderStage::Extension => 3,
        SpzDecoderStage::ChildCounts => 2,
        SpzDecoderStage::ChildStarts => 1,
        SpzDecoderStage::Done => 0,
    }
}

/// Whether a stage has no data of its own: the spherical harmonics of a
/// scene of degree 0, and the choice for or against the LoD extension.
pub open spec fn spz_stage_is_empty(h: SpzHeader, stage: SpzDecoderStage) -> bool {
    stage == SpzDecoderStage::Extension || (stage == SpzDecoderStage::Sh && h.sh_degree == 0)
}

/// A run of splats of one section, as their raw bytes.
pub struct SpzBatch {
    /// The section.
    pub stage: SpzDecoderStage,
    /// Index of the first splat.
    pub base: usize,
    /// Number of splats.
    pub count: usize,
    /// The bytes of these splats in the section.
    pub bytes: Vec<u8>,
}

/// A batch, as plain values.
pub struct SpzBatchView {
    pub stage: SpzDecoderStage,
    pub base: nat,
    pub count: nat,
    pub bytes: Seq<u8>,
}

impl View for SpzBatch {
    type V = SpzBatchView;

    open spec fn view(&self) -> SpzBatchView {
        SpzBatchView {
            stage: self.stage,
            base: self.base as nat,
            count: self.count as nat,
            bytes: self.bytes@,
        }
    }
}

/// The batches of a list, as plain values.
pub open spec fn batch_views(batches: Seq<SpzBatch>) -> Seq<SpzBatchView> {
    Seq::new(batches.len(), |i: int| batches[i]@)
}

/// Where a decoder stands in a payload whose header it has read.
pub struct SpzProgress {
    pub stage: SpzDecoderStage,
    pub next_splat: nat,
}

/// One step of the section reader.
pub enum SpzStep {
    /// Nothing can be done with the bytes at hand.
    Wait,
    /// The stage changes and no byte is read.
    Skip(SpzProgress),
    /// A batch of that many splats is read.
    Emit(nat, SpzProgress),
}

/// The step that the section reader takes with `avail_bytes` unread bytes.
///
/// In a section, it waits until the bytes at hand hold the rest of the
/// section or 16 384 splats of it; then it reads as many splats as are at
/// hand, at most 16 384 and at most the rest of the section. After the last
/// splat of a section the next stage begins.
pub open spec fn spz_step(h: SpzHeader, p: SpzProgress, avail_bytes: nat) -> SpzStep {
    if p.stage == SpzDecoderStage::Done {
        SpzStep::Wait
    } else if p.stage == SpzDecoderStage::Sh && h.sh_degree == 0 {
        SpzStep::Skip(SpzProgress { stage: SpzDecoderStage::Extension, next_splat: p.next_splat })
    } else if p.stage == SpzDecoderStage::Extension {
        if h.flags & 0x80 == 0 {
            SpzStep::Skip(SpzProgress { stage: SpzDecoderStage::Done, next_splat: p.next_splat })
        } else {
            SpzStep::Skip(
                SpzProgress { stage: SpzDecoderStage::ChildCounts, next_splat: p.next_splat },
            )
        }
    } else {
        let avail = avail_bytes / spz_item_bytes(h, p.stage);
        let remaining = (h.num_splats - p.next_splat) as nat;
        if avail < remaining && avail < 16384 {
            SpzStep::Wait
        } else {
            let count = if remaining <= avail && remaining <= 16384 {
                remaining
            } else if avail <= 16384 {
                avail
            } else {
                16384
            };
            if p.next_splat + count == h.num_splats {
                SpzStep::Emit(
                    count,
                    SpzProgress { stage: spz_next_stage(p.stage), next_splat: 0 },
                )
            } else {
                SpzStep::Emit(
                    count,
                    SpzProgress { stage: p.stage, next_splat: p.next_splat + count },
                )
            }
        }
    }
}

/// Whether a decoder's position is one that reading from the start of a
/// payload reaches.
pub open spec fn spz_progress_wf(h: SpzHeader, p: SpzProgress) -> bool {
    &&& p.next_splat <= h.num_splats
    &&& 1 <= h.version <= 3
    &&& h.sh_degree <= 3
    &&& (spz_stage_is_empty(h, p.stage) || p.stage == SpzDecoderStage::Done) ==> p.next_splat == 0
    &&& (p.next_splat == h.num_splats && h.num_splats > 0) ==> false
}

/// The section reader, run on `buf` until it waits: the position reached,
/// the bytes left unread, and the batches read, in order.
pub open spec fn spz_poll(h: SpzHeader, p: SpzProgress, buf: Seq<u8>) -> (
    SpzProgress,
    Seq<u8>,
    Seq<SpzBatchView>,
)
    decreases spz_stage_rank(p.stage), h.num_splats - p.next_splat,
    when spz_progress_wf(h, p)
{
    match spz_step(h, p, buf.len()) {
        SpzStep::Wait => (p, buf, Seq::empty()),
        SpzStep::Skip(q) => spz_poll(h, q, buf),
        SpzStep::Emit(count, q) => {
            let n = (count * spz_item_bytes(h, p.stage)) as int;
            let batch = SpzBatchView {
                stage: p.stage,
                base: p.next_splat,
                count: count,
                bytes: buf.subrange(0, n),
            };
            let rest = spz_poll(h, q, buf.subrange(n, buf.len() as int));
            (rest.0, rest.1, seq![batch] + rest.2)
        },
    }
}

/// A position that reading reaches stays one after a further step, and a
/// batch lies within the bytes at hand and within the section.
proof fn lemma_spz_step_wf(h: SpzHeader, p: SpzProgress, avail_bytes: nat)
    requires
        spz_progress_wf(h, p),
    ensures
        spz_step(h, p, avail_bytes) matches SpzStep::Skip(q) ==> spz_progress_wf(h, q),
        spz_step(h, p, avail_bytes) matches SpzStep::Emit(count, q) ==> spz_progress_wf(h, q)
            && count * spz_item_bytes(h, p.stage) <= avail_bytes && p.next_splat + count
            <= h.num_splats,
{
    match spz_step(h, p, avail_bytes) {
        SpzStep::Emit(count, q) => {
            let size = spz_item_bytes(h, p.stage);
            let avail = avail_bytes / size;
            assert(size > 0);
            assert(count <= avail);
            assert(count * size <= avail_bytes) by (nonlinear_arith)
                requires
                    count <= avail,
                    avail == avail_bytes / size,
                    size > 0,
            ;
        },
        _ => {},
    }
}

/// The header that 16 bytes hold: the magic, the version, the number of
/// splats, then one byte each for the spherical-harmonic degree, the
/// fraction bits and the flags, and one reserved byte.
pub open spec fn spz_header_of(b: Seq<u8>) -> Result<SpzHeader, SpzError> {
    if u32_le(b, 0) != SPZ_MAGIC {
        Err(SpzError::InvalidMagic(u32_le(b, 0)))
    } else if u32_le(b, 4) < 1 || u32_le(b, 4) > 3 {
        Err(SpzError::UnsupportedVersion(u32_le(b, 4)))
    } else if b[12] > 3 {
        Err(SpzError::InvalidShDegree(b[12] as usize))
    } else {
        Ok(
            SpzHeader {
                version: u32_le(b, 4),
                num_splats: u32_le(b, 8) as usize,
                sh_degree: b[12] as usize,
                fractional_bits: b[13],
                flags: b[14],
            },
        )
    }
}

/// Reads the header at the start of a payload.
pub fn parse_spz_header(buf: &[u8]) -> (r: Result<SpzHeader, SpzError>)
    requires
        buf@.len() >= 16,
    ensures
        r == spz_header_of(buf@),
{
    let magic = read_u32_at(buf, 0);
    if magic != SPZ_MAGIC {
        return Err(SpzError::InvalidMagic(magic));
    }
    let version = read_u32_at(buf, 4);
    if version < 1 || version > 3 {
        return Err(SpzError::UnsupportedVersion(version));
    }
    let num_splats = read_u32_at(buf, 8) as usize;
    let sh_degree = buf[12] as usize;
    if sh_degree > 3 {
        return Err(SpzError::InvalidShDegree(sh_degree));
    }
    Ok(SpzHeader { version, num_splats, sh_degree, fractional_bits: buf[13], flags: buf[14] })
}

/// The section reader of a payload, as plain values.
pub struct SpzSectionsView {
    /// The header, once it is read.
    pub header: Option<SpzHeader>,
    /// The position in the payload.
    pub progress: SpzProgress,
    /// The bytes that are not read yet.
    pub buffer: Seq<u8>,
}

/// The reader after `plain` is appended to its unread bytes, and the batches
/// that it reads on the way. Without a header it waits for 16 bytes and
/// reads the header from them, then goes on with the sections.
pub open spec fn spz_feed(s: SpzSectionsView, plain: Seq<u8>) -> Result<
    (SpzSectionsView, Seq<SpzBatchView>),
    SpzError,
> {
    let buf = s.buffer + plain;
    match s.header {
        Some(h) => {
            let r = spz_poll(h, s.progress, buf);
            Ok((SpzSectionsView { header: Some(h), progress: r.0, buffer: r.1 }, r.2))
        },
        None => if buf.len() < 16 {
            Ok((SpzSectionsView { header: None, progress: s.progress, buffer: buf }, Seq::empty()))
        } else {
            match spz_header_of(buf) {
                Err(e) => Err(e),
                Ok(h) => {
                    let start = SpzProgress { stage: SpzDecoderStage::Centers, next_splat: 0 };
                    let r = spz_poll(h, start, buf.subrange(16, buf.len() as int));
                    Ok((SpzSectionsView { header: Some(h), progress: r.0, buffer: r.1 }, r.2))
                },
            }
        },
    }
}

/// Reads an SPZ payload, handed over piece by piece, into batches of raw
/// section bytes.
pub struct SpzSections {
    header: Option<SpzHeader>,
    stage: SpzDecoderStage,
    next_splat: usize,
    buffer: Vec<u8>,
}

fn item_bytes(h: &SpzHeader, stage: SpzDecoderStage) -> (n: usize)
    ensures
        n == spz_item_bytes(*h, stage),
{
    match stage {
        SpzDecoderStage::Centers => if h.version == 1 {
            6
        } else {
            9
        },
        SpzDecoderStage::Alphas => 1,
        SpzDecoderStage::Rgb => 3,
        SpzDecoderStage::Scales => 3,
        SpzDecoderStage::Quats => if h.version == 3 {
            4
        } else {
            3
        },
        SpzDecoderStage::Sh => if h.sh_degree == 1 {
            9
        } else if h.sh_degree == 2 {
            24
        } else if h.sh_degree == 3 {
            45
        } else {
            0
        },
        SpzDecoderStage::Extension => 0,
        SpzDecoderStage::ChildCounts => 2,
        SpzDecoderStage::ChildStarts => 4,
        SpzDecoderStage::Done => 0,
    }
}

fn next_stage(stage: SpzDecoderStage) -> (n: SpzDecoderStage)
    ensures
        n == spz_next_stage(stage),
{
    match stage {
        SpzDecoderStage::Centers => SpzDecoderStage::Alphas,
        SpzDecoderStage::Alphas => SpzDecoderStage::Rgb,
        SpzDecoderStage::Rgb => SpzDecoderStage::Scales,
        SpzDecoderStage::Scales => SpzDecoderStage::Quats,
        SpzDecoderStage::Quats => SpzDecoderStage::Sh,
        SpzDecoderStage::Sh => SpzDecoderStage::Extension,
        SpzDecoderStage::Extension => SpzDecoderStage::ChildCounts,
        SpzDecoderStage::ChildCounts => SpzDecoderStage::ChildStarts,
        SpzDecoderStage::ChildStarts => SpzDecoderStage::Done,
        SpzDecoderStage::Done => SpzDecoderStage::Done,
    }
}

/// A copy of the bytes `from..to` of `buf`.
fn copy_range(buf: &Vec<u8>, from: usize, to: usize) -> (out: Vec<u8>)
    requires
        from <= to <= buf@.len(),
    ensures
        out@ == buf@.subrange(from as int, to as int),
{
    let mut out: Vec<u8> = Vec::new();
    let mut i = from;
    while i < to
        invariant
            from <= i <= to <= buf@.len(),
            out@ == buf@.subrange(from as int, i as int),
        decreases to - i,
    {
        out.push(buf[i]);
        assert(out@ =~= buf@.subrange(from as int, i + 1));
        i += 1;
    }
    out
}

impl SpzSections {
    /// The reader as plain values.
    pub closed spec fn view(&self) -> SpzSectionsView {
        SpzSectionsView {
            header: self.header,
            progress: SpzProgress { stage: self.stage, next_splat: self.next_splat as nat },
            buffer: self.buffer@,
        }
    }

    /// Whether the reader is in a state that reading reaches.
    pub closed spec fn wf(&self) -> bool {
        match self.header {
            Some(h) => spz_progress_wf(
                h,
                SpzProgress { stage: self.stage, next_splat: self.next_splat as nat },
            ),
            None => self.stage == SpzDecoderStage::Centers && self.next_splat == 0
                && self.buffer@.len() < 16,
        }
    }

    /// A reader at the start of a payload.
    pub fn new() -> (s: Self)
        ensures
            s.wf(),
            s@ == spz_start(),
    {
        let s = SpzSections {
            header: None,
            stage: SpzDecoderStage::Centers,
            next_splat: 0,
            buffer: Vec::new(),
        };
        assert(s@.buffer =~= Seq::<u8>::empty());
        s
    }

    /// The header, once it is read.
    pub fn header(&self) -> (h: Option<SpzHeader>)
        ensures
            h == self@.header,
    {
        self.header
    }

    /// The stage that the reader stands in.
    pub fn stage(&self) -> (stage: SpzDecoderStage)
        ensures
            stage == self@.progress.stage,
    {
        self.stage
    }

    /// Reads the sections that the unread bytes hold.
    fn poll_sections(&mut self, h: &SpzHeader) -> (batches: Vec<SpzBatch>)
        requires
            old(self).header == Some(*h),
            old(self).wf(),
        ensures
            final(self).wf(),
            final(self).header == Some(*h),
            ({
                let r = spz_poll(*h, old(self)@.progress, old(self)@.buffer);
                final(self)@.progress == r.0 && final(self)@.buffer == r.1 && batch_views(batches@)
                    == r.2
            }),
    {
        let ghost p0 = self@.progress;
        let ghost buf0 = self.buffer@;
        let mut batches: Vec<SpzBatch> = Vec::new();
        let mut pos: usize = 0;
        let len = self.buffer.len();
        proof {
            assert(buf0.subrange(0, len as int) =~= buf0);
            assert(batch_views(batches@) =~= Seq::<SpzBatchView>::empty());
            assert(batch_views(batches@) + spz_poll(*h, p0, buf0).2 =~= spz_poll(*h, p0, buf0).2);
        }
        loop
            invariant
                self.header == Some(*h),
                self.buffer@ == buf0,
                len == buf0.len(),
                pos <= len,
                spz_progress_wf(*h, p0),
                spz_progress_wf(*h, self@.progress),
                ({
                    let r = spz_poll(*h, self@.progress, buf0.subrange(pos as int, len as int));
                    spz_poll(*h, p0, buf0) == (r.0, r.1, batch_views(batches@) + r.2)
                }),
            ensures
                self.header == Some(*h),
                self.buffer@ == buf0,
                len == buf0.len(),
                pos <= len,
                spz_progress_wf(*h, self@.progress),
                spz_poll(*h, p0, buf0) == (
                    self@.progress,
                    buf0.subrange(pos as int, len as int),
                    batch_views(batches@),
                ),
            decreases spz_stage_rank(self.stage), h.num_splats - self.next_splat,
        {
            let ghost p = self@.progress;
            let ghost rest = buf0.subrange(pos as int, len as int);
            proof {
                lemma_spz_step_wf(*h, p, rest.len());
            }
            if self.stage == SpzDecoderStage::Done {
                assert(batch_views(batches@) + Seq::<SpzBatchView>::empty() =~= batch_views(
                    batches@,
                ));
                break ;
            } else if self.stage == SpzDecoderStage::Sh && h.sh_degree == 0 {
                self.stage = SpzDecoderStage::Extension;
            } else if self.stage == SpzDecoderStage::Extension {
                if (h.flags & 0x80) == 0 {
                    self.stage = SpzDecoderStage::Done;
                } else {
                    self.stage = SpzDecoderStage::ChildCounts;
                }
            } else {
                let size = item_bytes(h, self.stage);
                let avail = (len - pos) / size;
                let remaining = h.num_splats - self.next_splat;
                if avail < remaining && avail < 16384 {
                    assert(batch_views(batches@) + Seq::<SpzBatchView>::empty() =~= batch_views(
                        batches@,
                    ));
                    break ;
                }
                let count = if remaining <= avail && remaining <= 16384 {
                    remaining
                } else if avail <= 16384 {
                    avail
                } else {
                    16384
                };
                assert(count * size <= len - pos) by (nonlinear_arith)
                    requires
                        count <= avail,
                        avail == (len - pos) / (size as int),
                        size > 0,
                ;
                let n = count * size;
                let bytes = copy_range(&self.buffer, pos, pos + n);
                let batch = SpzBatch { stage: self.stage, base: self.next_splat, count, bytes };
                proof {
                    let ghost old_views = batch_views(batches@);
                    let ghost q = match spz_step(*h, p, rest.len()) {
                        SpzStep::Emit(_, q) => q,
                        _ => p,
                    };
                    let ghost tail = spz_poll(*h, q, rest.subrange(n as int, rest.len() as int));
                    assert(rest.subrange(0, n as int) =~= buf0.subrange(pos as int, pos + n));
                    assert(rest.subrange(n as int, rest.len() as int) =~= buf0.subrange(
                        pos + n,
                        len as int,
                    ));
                    assert(batch_views(batches@.push(batch)) =~= old_views + seq![batch@]);
                    assert((old_views + seq![batch@]) + tail.2 =~= old_views + (seq![batch@]
                        + tail.2));
                }
                batches.push(batch);
                pos = pos + n;
                self.next_splat = self.next_splat + count;
                if self.next_splat == h.num_splats {
                    self.next_splat = 0;
                    self.stage = next_stage(self.stage);
                }
            }
        }
        let rest = copy_range(&self.buffer, pos, len);
        self.buffer = rest;
        batches
    }

    /// Appends `plain` to the unread bytes and reads what can be read: the
    /// header first, then the sections, batch by batch.
    pub fn feed(&mut self, plain: &[u8]) -> (r: Result<Vec<SpzBatch>, SpzError>)
        requires
            old(self).wf(),
        ensures
            final(self).wf(),
            match r {
                Ok(batches) => spz_feed(old(self)@, plain@) == Ok::<
                    (SpzSectionsView, Seq<SpzBatchView>),
                    SpzError,
                >((final(self)@, batch_views(batches@))),
                Err(e) => spz_feed(old(self)@, plain@) == Err::<
                    (SpzSectionsView, Seq<SpzBatchView>),
                    SpzError,
                >(e),
            },
    {
        let ghost before = self@;
        self.buffer.extend_from_slice(plain);
        assert(self.buffer@ == before.buffer + plain@);
        match self.header {
            Some(h) => {
                let batches = self.poll_sections(&h);
                Ok(batches)
            },
            None => {
                if self.buffer.len() < 16 {
                    assert(batch_views(Seq::<SpzBatch>::empty()) =~= Seq::<SpzBatchView>::empty());
                    return Ok(Vec::new());
                }
                match parse_spz_header(self.buffer.as_slice()) {
                    Err(e) => {
                        self.buffer = Vec::new();
                        Err(e)
                    },
                    Ok(h) => {
                        let len = self.buffer.len();
                        let rest = copy_range(&self.buffer, 16, len);
                        self.buffer = rest;
                        self.header = Some(h);
                        let batches = self.poll_sections(&h);
                        Ok(batches)
                    },
                }
            },
        }
    }

    /// Whether the payload is read to its end.
    pub fn is_complete(&self) -> (r: Result<(), SpzError>)
        ensures
            r == match self@.header {
                None => Err::<(), SpzError>(SpzError::Invalid),
                Some(h) => if self@.progress.stage == SpzDecoderStage::Done || (h.sh_degree == 0
                    && self@.progress.stage == SpzDecoderStage::Sh) {
                    Ok::<(), SpzError>(())
                } else {
                    Err::<(), SpzError>(SpzError::Incomplete(self@.progress.stage))
                },
            },
    {
        match self.header {
            None => Err(SpzError::Invalid),
            Some(h) => {
                if self.stage == SpzDecoderStage::Done || (h.sh_degree == 0 && self.stage
                    == SpzDecoderStage::Sh) {
                    Ok(())
                } else {
                    Err(SpzError::Incomplete(self.stage))
                }
            },
        }
    }
}

/// Where in a spherical-harmonics item of a scene of degree `sh_degree` the
/// bytes of `band` start: band 1 at 0, band 2 at 9, band 3 at 24.
pub open spec fn spz_band_offset(band: int) -> int {
    if band == 1 {
        0
    } else if band == 2 {
        9
    } else {
        24
    }
}

/// Bytes of a band in a spherical-harmonics item: 9, 15 and 21.
pub open spec fn spz_band_len(band: int) -> int {
    if band == 1 {
        9
    } else if band == 2 {
        15
    } else {
        21
    }
}

/// Bytes of a spherical-harmonics item of a scene of that degree.
pub open spec fn spz_sh_item_len(sh_degree: int) -> int {
    if sh_degree == 1 {
        9
    } else if sh_degree == 2 {
        24
    } else if sh_degree == 3 {
        45
    } else {
        0
    }
}

/// A quaternion in the smallest-three form: the index of the component that
/// was left out, and sign and 9-bit magnitude of the three others.
#[derive(Debug, Clone, Copy)]
pub struct SmallestThree {
    /// Index of the largest component, which is not stored.
    pub largest: usize,
    /// Sign bits; `false` for the largest component.
    pub negative: [bool; 4],
    /// Magnitudes, 0 to 511; 0 for the largest component.
    pub magnitude: [u16; 4],
}

/// The 10-bit field `t` of a smallest-three word, field 0 being the lowest.
pub open spec fn smallest_three_field(comp: u32, t: int) -> int {
    if t == 0 {
        comp as int % 1024
    } else if t == 1 {
        (comp as int / 1024) % 1024
    } else {
        (comp as int / 0x10_0000) % 1024
    }
}

/// The field that holds component `j`: the stored components take the
/// fields from the lowest on in falling order of their index.
pub open spec fn smallest_three_slot(j: int, largest: int) -> int {
    if largest > j {
        2 - j
    } else {
        3 - j
    }
}

/// Whether `q` is what a smallest-three word holds: the top two bits name
/// the largest component; each of the three 10-bit fields below holds a
/// sign bit above nine magnitude bits.
pub open spec fn is_smallest_three(q: SmallestThree, comp: u32) -> bool {
    &&& q.largest == comp / 0x4000_0000
    &&& forall|j: int|
        0 <= j < 4 && j != q.largest ==> q.magnitude[j] == smallest_three_field(
            comp,
            smallest_three_slot(j, q.largest as int),
        ) % 512 && q.negative[j] == (smallest_three_field(
            comp,
            smallest_three_slot(j, q.largest as int),
        ) >= 512)
    &&& q.magnitude[q.largest as int] == 0
    &&& !q.negative[q.largest as int]
}

/// Splits a smallest-three word.
pub fn decode_smallest_three(comp: u32) -> (q: SmallestThree)
    ensures
        is_smallest_three(q, comp),
{
    let largest = (comp / 0x4000_0000) as usize;
    let mut negative = [false;4];
    let mut magnitude = [0u16;4];
    let mut remaining = comp;
    let mut j: usize = 4;
    let mut slot: usize = 0;
    while j > 0
        invariant
            j <= 4,
            largest < 4,
            slot == (if largest >= j {
                3 - j
            } else {
                4 - j
            }) as usize,
            slot == 0 ==> remaining == comp,
            slot == 1 ==> remaining == comp / 1024,
            slot == 2 ==> remaining == comp / 0x10_0000,
            forall|k: int|
                j <= k < 4 && k != largest ==> magnitude[k] == smallest_three_field(
                    comp,
                    smallest_three_slot(k, largest as int),
                ) % 512 && negative[k] == (smallest_three_field(
                    comp,
                    smallest_three_slot(k, largest as int),
                ) >= 512),
            magnitude[largest as int] == 0,
            !negative[largest as int],
        decreases j,
    {
        j = j - 1;
        if j != largest {
            let field = remaining % 1024;
            magnitude[j] = (field % 512) as u16;
            negative[j] = field >= 512;
            remaining = remaining / 1024;
            slot = slot + 1;
        }
    }
    SmallestThree { largest, negative, magnitude }
}

impl SpzBatch {
    /// Where item `i` of `size` bytes starts, if the batch holds it whole.
    fn item_offset(&self, i: usize, size: usize) -> (r: Option<usize>)
        ensures
            self.bytes@.len() <= usize::MAX,
            match r {
                Some(at) => at == i * size && at + size <= self.bytes@.len() && (i + 1) * size
                    <= self.bytes@.len(),
                None => (i + 1) * size > self.bytes@.len(),
            },
    {
        let len = self.bytes.len();
        if size == 0 {
            assert(i * size == 0 && (i + 1) * size == 0) by (nonlinear_arith)
                requires
                    size == 0,
            ;
            return Some(0);
        }
        if i >= len / size {
            assert((i + 1) * size > len) by (nonlinear_arith)
                requires
                    i >= len / size,
                    size > 0,
            ;
            return None;
        }
        assert((i + 1) * size <= len && i * size + size == (i + 1) * size) by (nonlinear_arith)
            requires
                i < len / size,
                size > 0,
        ;
        Some(i * size)
    }

    /// The fixed-point center of splat `i` of a batch of centers of version
    /// 2 or 3: three signed 24-bit numbers.
    pub fn center_fixed(&self, i: usize) -> (r: Option<[i32; 3]>)
        ensures
            r.is_some() <==> 9 * (i + 1) <= self.bytes@.len(),
            r matches Some(c) ==> c[0] == i24_le(self.bytes@, 9 * i) && c[1] == i24_le(
                self.bytes@,
                9 * i + 3,
            ) && c[2] == i24_le(self.bytes@, 9 * i + 6),
    {
        match self.item_offset(i, 9) {
            None => None,
            Some(at) => {
                let x = read_i24_at(self.bytes.as_slice(), at);
                let y = read_i24_at(self.bytes.as_slice(), at + 3);
                let z = read_i24_at(self.bytes.as_slice(), at + 6);
                Some([x, y, z])
            },
        }
    }

    /// The center of splat `i` of a batch of centers of version 1: three
    /// half-precision bit patterns.
    pub fn center_half(&self, i: usize) -> (r: Option<[u16; 3]>)
        ensures
            r.is_some() <==> 6 * (i + 1) <= self.bytes@.len(),
            r matches Some(c) ==> c[0] == u16_le(self.bytes@, 6 * i) && c[1] == u16_le(
                self.bytes@,
                6 * i + 2,
            ) && c[2] == u16_le(self.bytes@, 6 * i + 4),
    {
        match self.item_offset(i, 6) {
            None => None,
            Some(at) => {
                let x = read_u16_at(self.bytes.as_slice(), at);
                let y = read_u16_at(self.bytes.as_slice(), at + 2);
                let z = read_u16_at(self.bytes.as_slice(), at + 4);
                Some([x, y, z])
            },
        }
    }

    /// Byte `i` of the batch: the opacity of splat `i` in a batch of
    /// opacities.
    pub fn byte(&self, i: usize) -> (r: Option<u8>)
        ensures
            r == if i < self.bytes@.len() {
                Some(self.bytes@[i as int])
            } else {
                None
            },
    {
        if i < self.bytes.len() {
            Some(self.bytes[i])
        } else {
            None
        }
    }

    /// The three bytes of splat `i` in a batch of colors, of scales, or of
    /// quaternions of version 1 or 2.
    pub fn triple(&self, i: usize) -> (r: Option<[u8; 3]>)
        ensures
            r.is_some() <==> 3 * (i + 1) <= self.bytes@.len(),
            r matches Some(t) ==> t@ == self.bytes@.subrange(3 * i, 3 * i + 3),
    {
        match self.item_offset(i, 3) {
            None => None,
            Some(at) => {
                let a = self.bytes[at];
                let b = self.bytes[at + 1];
                let c = self.bytes[at + 2];
                let t = [a, b, c];
                assert(t@ =~= self.bytes@.subrange(3 * i, 3 * i + 3));
                Some(t)
            },
        }
    }

    /// The quaternion of splat `i` in a batch of quaternions of version 3.
    pub fn smallest_three(&self, i: usize) -> (r: Option<SmallestThree>)
        ensures
            r.is_some() <==> 4 * (i + 1) <= self.bytes@.len(),
            r matches Some(q) ==> is_smallest_three(q, u32_le(self.bytes@, 4 * i)),
    {
        match self.item_offset(i, 4) {
            None => None,
            Some(at) => Some(decode_smallest_three(read_u32_at(self.bytes.as_slice(), at))),
        }
    }

    /// The bytes of one band of splat `i` in a batch of spherical harmonics
    /// of a scene of degree `sh_degree`.
    pub fn sh_band(&self, i: usize, sh_degree: usize, band: usize) -> (r: Option<Vec<u8>>)
        ensures
            r.is_some() <==> 1 <= band <= sh_degree <= 3 && spz_sh_item_len(sh_degree as int) * (i
                + 1) <= self.bytes@.len(),
            r matches Some(v) ==> v@ == self.bytes@.subrange(
                spz_sh_item_len(sh_degree as int) * i + spz_band_offset(band as int),
                spz_sh_item_len(sh_degree as int) * i + spz_band_offset(band as int)
                    + spz_band_len(band as int),
            ),
    {
        if band < 1 || band > sh_degree || sh_degree > 3 {
            return None;
        }
        let size: usize = if sh_degree == 1 {
            9
        } else if sh_degree == 2 {
            24
        } else {
            45
        };
        let offset: usize = if band == 1 {
            0
        } else if band == 2 {
            9
        } else {
            24
        };
        let len: usize = if band == 1 {
            9
        } else if band == 2 {
            15
        } else {
            21
        };
        match self.item_offset(i, size) {
            None => None,
            Some(at) => {
                let from = at + offset;
                Some(copy_range(&self.bytes, from, from + len))
            },
        }
    }

    /// The child count of splat `i` in a batch of child counts.
    pub fn child_count(&self, i: usize) -> (r: Option<u16>)
        ensures
            r.is_some() <==> 2 * (i + 1) <= self.bytes@.len(),
            r matches Some(n) ==> n == u16_le(self.bytes@, 2 * i),
    {
        match self.item_offset(i, 2) {
            None => None,
            Some(at) => Some(read_u16_at(self.bytes.as_slice(), at)),
        }
    }

    /// The first child of splat `i` in a batch of child starts.
    pub fn child_start(&self, i: usize) -> (r: Option<u32>)
        ensures
            r.is_some() <==> 4 * (i + 1) <= self.bytes@.len(),
            r matches Some(n) ==> n == u32_le(self.bytes@, 4 * i),
    {
        match self.item_offset(i, 4) {
            None => None,
            Some(at) => Some(read_u32_at(self.bytes.as_slice(), at)),
        }
    }
}

/// Whether a reader has read its payload to the end: it stands behind the
/// last section.
pub open spec fn spz_is_complete(s: SpzSectionsView) -> bool {
    match s.header {
        None => false,
        Some(h) => s.progress.stage == SpzDecoderStage::Done || (h.sh_degree == 0
            && s.progress.stage == SpzDecoderStage::Sh),
    }
}

/// Size of the buffer that decompressed bytes are written to.
pub const SPZ_OUTPUT_BUFFER: usize = 0x2_0000;

/// Bytes of decompressed history that stay in the buffer.
pub const SPZ_WINDOW: usize = 0x8000;

/// Room that the buffer has before each decompression call.
pub const SPZ_MIN_FREE: usize = 0x1_0000;

/// Decodes a gzip-compressed SPZ stream, handed over piece by piece, into
/// batches of raw section bytes.
pub struct SpzDecoder {
    sections: SpzSections,
    inflater: Inflater,
    compressed: Vec<u8>,
    decompressed: Vec<u8>,
    gzip_header_done: bool,
    out_pos: usize,
    done: bool,
}

/// Appends the batches of `more` to `all`.
fn append_batches(all: &mut Vec<SpzBatch>, more: Vec<SpzBatch>)
    ensures
        batch_views(final(all)@) == batch_views(old(all)@) + batch_views(more@),
{
    let ghost before = all@;
    let ghost added = more@;
    let mut more = more;
    all.append(&mut more);
    assert(all@ == before + added);
    assert(batch_views(all@) =~= batch_views(before) + batch_views(added));
}

/// A section reader at the start of a payload: no header, no bytes.
pub open spec fn spz_start() -> SpzSectionsView {
    SpzSectionsView {
        header: None,
        progress: SpzProgress { stage: SpzDecoderStage::Centers, next_splat: 0 },
        buffer: Seq::empty(),
    }
}

/// An SPZ decoder as plain values.
pub struct SpzDecoderView {
    /// The section reader.
    pub sections: SpzSectionsView,
    /// The compressed bytes that are not read yet.
    pub pending: Seq<u8>,
    /// Whether the gzip header is read.
    pub header_done: bool,
    /// Whether the deflate stream is read to its end.
    pub done: bool,
    /// The buffer that the codec writes to; it holds the history that the
    /// codec reads back.
    pub out: Seq<u8>,
    /// The place in the buffer behind the last byte written.
    pub out_pos: nat,
    /// The calls made on the codec.
    pub calls: Seq<InflateCall>,
}

/// A decoder at the start of a stream: nothing is read, the buffer of 128
/// KiB holds zeros, and the codec is fresh.
pub open spec fn spz_decoder_start() -> SpzDecoderView {
    SpzDecoderView {
        sections: spz_start(),
        pending: Seq::empty(),
        header_done: false,
        done: false,
        out: Seq::new(0x2_0000, |i: int| 0u8),
        out_pos: 0,
        calls: Seq::empty(),
    }
}

/// The output buffer and the place to write at, once room is made: where
/// less than 64 KiB are free, the last 32 KiB of history stand at the start
/// of the buffer.
pub open spec fn room_made(out: Seq<u8>, out_pos: nat) -> (Seq<u8>, nat) {
    if out.len() - out_pos < 0x1_0000 {
        let keep_start = if out_pos > 0x8000 {
            out_pos - 0x8000
        } else {
            0
        };
        let keep_len = out_pos - keep_start;
        (
            Seq::new(
                out.len(),
                |i: int|
                    if i < keep_len {
                        out[keep_start + i]
                    } else {
                        out[i]
                    },
            ),
            keep_len as nat,
        )
    } else {
        (out, out_pos)
    }
}

/// Where the reading of a deflate stream stands within one call of the
/// decoder.
pub struct Pump {
    pub sections: SpzSectionsView,
    /// The compressed bytes at hand.
    pub pending: Seq<u8>,
    /// How many of them are read.
    pub offset: nat,
    pub out: Seq<u8>,
    pub out_pos: nat,
    pub calls: Seq<InflateCall>,
    pub done: bool,
    /// How many bytes the codec wrote in this call of the decoder.
    pub total: nat,
    /// The batches made in this call of the decoder.
    pub batches: Seq<SpzBatchView>,
}

/// What one call of the codec does to the reading.
pub enum PumpStep {
    /// The reading goes on.
    Go(Pump),
    /// The reading ends for now.
    End(Pump),
    /// The stream is refused.
    Fail(SpzError),
}

/// One call of the codec: room is made in the buffer, the codec is handed
/// the compressed bytes that are not read, and what it writes goes to the
/// section reader. The reading ends when no byte is left, when the deflate
/// stream ends (its trailer of eight bytes is passed over if it is there),
/// or when the codec neither reads nor writes; a status other than done,
/// more input and more output refuses the stream.
pub open spec fn pump_step(p: Pump) -> PumpStep {
    if p.offset >= p.pending.len() {
        PumpStep::End(p)
    } else {
        let (out1, pos1) = room_made(p.out, p.out_pos);
        let input = p.pending.subrange(p.offset as int, p.pending.len() as int);
        let calls = p.calls.push((input, out1, pos1));
        let (status, consumed, written, out2) = inflate_run(calls);
        let fed = if written > 0 {
            spz_feed(p.sections, out2.subrange(pos1 as int, (pos1 + written) as int))
        } else {
            Ok((p.sections, Seq::empty()))
        };
        if written > 0 && written > u64::MAX - p.total {
            PumpStep::Fail(SpzError::DecompressionFailed(2))
        } else {
            match fed {
                Err(e) => PumpStep::Fail(e),
                Ok((sections, batches)) => {
                    let offset = p.offset + consumed;
                    let q = Pump {
                        sections,
                        pending: p.pending,
                        offset,
                        out: out2,
                        out_pos: pos1 + written,
                        calls,
                        done: p.done,
                        total: p.total + written,
                        batches: p.batches + batches,
                    };
                    if status == 0 {
                        PumpStep::End(
                            Pump {
                                done: true,
                                offset: if p.pending.len() - offset >= 8 {
                                    offset + 8
                                } else {
                                    offset
                                },
                                ..q
                            },
                        )
                    } else if status == 1 || status == 2 {
                        if consumed == 0 && written == 0 {
                            PumpStep::End(q)
                        } else {
                            PumpStep::Go(q)
                        }
                    } else {
                        PumpStep::Fail(SpzError::DecompressionFailed(status))
                    }
                },
            }
        }
    }
}

/// What is left to read and to write in one call of the decoder.
pub open spec fn pump_left(p: Pump) -> nat {
    let left = (p.pending.len() - p.offset) + (u64::MAX - p.total);
    if left < 0 {
        0
    } else {
        left as nat
    }
}

/// The reading at its end: the codec is called until the reading ends.
pub open spec fn pump_run(p: Pump) -> Result<Pump, SpzError>
    decreases pump_left(p),
{
    match pump_step(p) {
        PumpStep::End(q) => Ok(q),
        PumpStep::Fail(e) => Err(e),
        PumpStep::Go(q) => if pump_left(q) < pump_left(p) {
            pump_run(q)
        } else {
            Ok(q)
        },
    }
}

/// What the compressed bytes at hand give: the gzip header first, if it is
/// not read yet (nothing happens while it is not whole), then the deflate
/// stream behind it. The bytes that were read leave the decoder.
pub open spec fn spz_polled(d: SpzDecoderView) -> Result<(SpzDecoderView, Seq<SpzBatchView>), SpzError> {
    let header = gzip_header(d.pending);
    if !d.header_done && header == GzipHeader::Invalid {
        Err(SpzError::InvalidGzipHeader)
    } else if !d.header_done && header == GzipHeader::Incomplete {
        Ok((d, Seq::empty()))
    } else {
        let pending = if d.header_done {
            d.pending
        } else {
            d.pending.subrange(header->Complete_0 as int, d.pending.len() as int)
        };
        match pump_run(
            Pump {
                sections: d.sections,
                pending,
                offset: 0,
                out: d.out,
                out_pos: d.out_pos,
                calls: d.calls,
                done: d.done,
                total: 0,
                batches: Seq::empty(),
            },
        ) {
            Err(e) => Err(e),
            Ok(q) => Ok(
                (
                    SpzDecoderView {
                        sections: q.sections,
                        pending: q.pending.subrange(q.offset as int, q.pending.len() as int),
                        header_done: true,
                        done: q.done,
                        out: q.out,
                        out_pos: q.out_pos,
                        calls: q.calls,
                    },
                    q.batches,
                ),
            ),
        }
    }
}

/// What the next piece of a stream gives.
pub open spec fn spz_pushed(d: SpzDecoderView, bytes: Seq<u8>) -> Result<
    (SpzDecoderView, Seq<SpzBatchView>),
    SpzError,
> {
    spz_polled(SpzDecoderView { pending: d.pending + bytes, ..d })
}

/// What the end of a stream gives: what is left is read; a deflate stream
/// that did not end is truncated, and a payload that did not end is
/// incomplete.
pub open spec fn spz_finished(d: SpzDecoderView) -> Result<(SpzDecoderView, Seq<SpzBatchView>), SpzError> {
    match spz_polled(d) {
        Err(e) => Err(e),
        Ok((v, batches)) => if !v.done {
            Err(SpzError::TruncatedGzip)
        } else {
            match v.sections.header {
                None => Err(SpzError::Invalid),
                Some(h) => if spz_is_complete(v.sections) {
                    Ok((v, batches))
                } else {
                    Err(SpzError::Incomplete(v.sections.progress.stage))
                },
            }
        },
    }
}

impl View for SpzDecoder {
    type V = SpzDecoderView;

    closed spec fn view(&self) -> SpzDecoderView {
        SpzDecoderView {
            sections: self.sections@,
            pending: self.compressed@,
            header_done: self.gzip_header_done,
            done: self.done,
            out: self.decompressed@,
            out_pos: self.out_pos as nat,
            calls: self.inflater.calls(),
        }
    }
}

impl SpzDecoder {
    /// The reading of the compressed bytes at hand, `offset` of which are
    /// read, with `total` bytes written and these batches made.
    closed spec fn pump(&self, offset: usize, total: u64, batches: Seq<SpzBatch>) -> Pump {
        Pump {
            sections: self.sections@,
            pending: self.compressed@,
            offset: offset as nat,
            out: self.decompressed@,
            out_pos: self.out_pos as nat,
            calls: self.inflater.calls(),
            done: self.done,
            total: total as nat,
            batches: batch_views(batches),
        }
    }

    /// Whether the decoder is in a state that decoding reaches.
    pub closed spec fn wf(&self) -> bool {
        &&& self.sections.wf()
        &&& self.decompressed@.len() == SPZ_OUTPUT_BUFFER
        &&& self.out_pos <= self.decompressed@.len()
    }

    /// A decoder at the start of a stream.
    pub fn new() -> (d: Self)
        ensures
            d.wf(),
            d@ == spz_decoder_start(),
    {
        let mut decompressed: Vec<u8> = Vec::new();
        decompressed.resize(SPZ_OUTPUT_BUFFER, 0u8);
        let d = SpzDecoder {
            sections: SpzSections::new(),
            inflater: Inflater::new(),
            compressed: Vec::new(),
            decompressed,
            gzip_header_done: false,
            out_pos: 0,
            done: false,
        };
        assert(d@.out =~= Seq::new(0x2_0000, |i: int| 0u8));
        assert(d@.pending =~= Seq::<u8>::empty());
        d
    }

    /// The header of the payload, once it is read.
    pub fn header(&self) -> (h: Option<SpzHeader>)
        ensures
            h == self@.sections.header,
    {
        self.sections.header()
    }

    /// Makes room in the output buffer: where less than 64 KiB are free,
    /// the last 32 KiB of history move to its start.
    fn make_room(&mut self)
        requires
            old(self).wf(),
        ensures
            final(self).wf(),
            final(self).decompressed@.len() - final(self).out_pos >= SPZ_MIN_FREE,
            (final(self).decompressed@, final(self).out_pos as nat) == room_made(
                old(self).decompressed@,
                old(self).out_pos as nat,
            ),
            final(self).sections == old(self).sections,
            final(self).compressed == old(self).compressed,
            final(self).inflater == old(self).inflater,
            final(self).gzip_header_done == old(self).gzip_header_done,
            final(self).done == old(self).done,
    {
        let free = self.decompressed.len() - self.out_pos;
        if free < SPZ_MIN_FREE {
            let keep_start = if self.out_pos > SPZ_WINDOW {
                self.out_pos - SPZ_WINDOW
            } else {
                0
            };
            let keep_len = self.out_pos - keep_start;
            let ghost out0 = self.decompressed@;
            let mut k: usize = 0;
            while k < keep_len
                invariant
                    k <= keep_len,
                    keep_len <= keep_start,
                    keep_start + keep_len <= self.decompressed@.len(),
                    self.decompressed@.len() == SPZ_OUTPUT_BUFFER,
                    out0.len() == SPZ_OUTPUT_BUFFER,
                    forall|i: int|
                        0 <= i < out0.len() ==> #[trigger] self.decompressed@[i] == (if i < k {
                            out0[keep_start + i]
                        } else {
                            out0[i]
                        }),
                    self.sections == old(self).sections,
                    self.compressed == old(self).compressed,
                    self.inflater == old(self).inflater,
                    self.gzip_header_done == old(self).gzip_header_done,
                    self.done == old(self).done,
                    self.out_pos == old(self).out_pos,
                decreases keep_len - k,
            {
                let b = self.decompressed[keep_start + k];
                self.decompressed[k] = b;
                k += 1;
            }
            self.out_pos = keep_len;
            assert(self.decompressed@ =~= room_made(out0, old(self).out_pos as nat).0);
        }
    }

    /// Reads what the compressed bytes at hand give: the gzip header first,
    /// then the deflate stream, whose output goes to the section reader as
    /// it comes.
    fn poll_decompress(&mut self) -> (r: Result<Vec<SpzBatch>, SpzError>)
        requires
            old(self).wf(),
        ensures
            final(self).wf(),
            match spz_polled(old(self)@) {
                Err(e) => r == Err::<Vec<SpzBatch>, SpzError>(e),
                Ok((v, batches)) => r matches Ok(b) && batch_views(b@) == batches && final(self)@ == v,
            },
    {
        let mut all: Vec<SpzBatch> = Vec::new();
        proof {
            assert(batch_views(all@) =~= Seq::<SpzBatchView>::empty());
        }
        if !self.gzip_header_done {
            match parse_gzip_header(self.compressed.as_slice()) {
                GzipHeader::Invalid => {
                    return Err(SpzError::InvalidGzipHeader);
                },
                GzipHeader::Incomplete => {
                    return Ok(all);
                },
                GzipHeader::Complete(end) => {
                    let len = self.compressed.len();
                    proof {
                        crate::gzip::lemma_gzip_header_bounds(self.compressed@);
                    }
                    let rest = copy_range(&self.compressed, end, len);
                    self.compressed = rest;
                    self.gzip_header_done = true;
                },
            }
        }
        let mut in_offset: usize = 0;
        let mut written_total: u64 = 0;
        let mut failure: Option<SpzError> = None;
        let ghost start = self.pump(0, 0, all@);
        loop
            invariant_except_break
                failure.is_none(),
                pump_run(self.pump(in_offset, written_total, all@)) == pump_run(start),
            invariant
                self.wf(),
                in_offset <= self.compressed@.len(),
                self.gzip_header_done,
            ensures
                self.wf(),
                in_offset <= self.compressed@.len(),
                self.gzip_header_done,
                match failure {
                    Some(e) => pump_run(start) == Err::<Pump, SpzError>(e),
                    None => pump_run(start) == Ok::<Pump, SpzError>(
                        self.pump(in_offset, written_total, all@),
                    ),
                },
            decreases self.compressed@.len() - in_offset, u64::MAX - written_total,
        {
            let ghost p = self.pump(in_offset, written_total, all@);
            if in_offset >= self.compressed.len() {
                break ;
            }
            self.make_room();
            let clen = self.compressed.len();
            let out_pos = self.out_pos;
            let input = vstd::slice::slice_subrange(self.compressed.as_slice(), in_offset, clen);
            let (status, in_consumed, out_written) = inflate_step(
                &mut self.inflater,
                input,
                &mut self.decompressed,
                out_pos,
            );
            if out_written > 0 {
                if out_written as u64 > u64::MAX - written_total {
                    failure = Some(SpzError::DecompressionFailed(INFLATE_HAS_MORE_OUTPUT));
                    break ;
                }
                let plain = vstd::slice::slice_subrange(
                    self.decompressed.as_slice(),
                    out_pos,
                    out_pos + out_written,
                );
                match self.sections.feed(plain) {
                    Err(e) => {
                        failure = Some(e);
                        break ;
                    },
                    Ok(batches) => {
                        append_batches(&mut all, batches);
                    },
                }
                self.out_pos = out_pos + out_written;
                written_total = written_total + out_written as u64;
            } else {
                assert(batch_views(all@) + Seq::<SpzBatchView>::empty() =~= batch_views(all@));
            }
            in_offset = in_offset + in_consumed;
            if status == INFLATE_DONE {
                self.done = true;
                let remaining = self.compressed.len() - in_offset;
                if remaining >= 8 {
                    in_offset = in_offset + 8;
                }
                break ;
            } else if status == INFLATE_NEEDS_MORE_INPUT || status == INFLATE_HAS_MORE_OUTPUT {
                if in_consumed == 0 && out_written == 0 {
                    break ;
                }
                assert(pump_step(p) == PumpStep::Go(self.pump(in_offset, written_total, all@)));
            } else {
                failure = Some(SpzError::DecompressionFailed(status));
                break ;
            }
        }
        if in_offset > 0 {
            let len = self.compressed.len();
            let rest = copy_range(&self.compressed, in_offset, len);
            self.compressed = rest;
        } else {
            assert(self.compressed@.subrange(0, self.compressed@.len() as int) =~= self.compressed@);
        }
        match failure {
            Some(e) => Err(e),
            None => Ok(all),
        }
    }

    /// Takes the next piece of the stream and returns the batches that it
    /// completes: those that the section reader makes of what the codec
    /// writes.
    pub fn push(&mut self, bytes: &[u8]) -> (r: Result<Vec<SpzBatch>, SpzError>)
        requires
            old(self).wf(),
        ensures
            final(self).wf(),
            match spz_pushed(old(self)@, bytes@) {
                Err(e) => r == Err::<Vec<SpzBatch>, SpzError>(e),
                Ok((v, batches)) => r matches Ok(b) && batch_views(b@) == batches && final(self)@ == v,
            },
    {
        self.compressed.extend_from_slice(bytes);
        proof {
            let v = SpzDecoderView { pending: old(self)@.pending + bytes@, ..old(self)@ };
            assert(self@.pending =~= v.pending);
            assert(self@.out =~= v.out);
            assert(self@.calls =~= v.calls);
            assert(self@.sections == v.sections);
            assert(self@ == v);
        }
        self.poll_decompress()
    }

    /// Ends the stream: reads what is left and checks that deflate stream
    /// and payload are whole.
    pub fn finish(&mut self) -> (r: Result<Vec<SpzBatch>, SpzError>)
        requires
            old(self).wf(),
        ensures
            final(self).wf(),
            match spz_finished(old(self)@) {
                Err(e) => r == Err::<Vec<SpzBatch>, SpzError>(e),
                Ok((v, batches)) => r matches Ok(b) && batch_views(b@) == batches && final(self)@ == v,
            },
    {
        let batches = match self.poll_decompress() {
            Err(e) => {
                return Err(e);
            },
            Ok(batches) => batches,
        };
        if !self.done {
            return Err(SpzError::TruncatedGzip);
        }
        match self.sections.is_complete() {
            Err(e) => Err(e),
            Ok(()) => Ok(batches),
        }
    }
}

/// The quantized fields of a scene, as an SPZ payload of version 2 holds
/// them.
pub struct SpzSplats {
    /// Number of splats.
    pub num_splats: usize,
    /// Highest spherical-harmonic band present, 0 to 3.
    pub sh_degree: u8,
    /// Fraction bits of the fixed-point centers.
    pub fractional_bits: u8,
    /// Whether the scene was trained with antialiasing.
    pub antialias: bool,
    /// Whether child counts and child starts are present.
    pub lod_tree: bool,
    /// Centers in fixed point, three per splat.
    pub centers: Vec<i32>,
    /// Opacities, one byte per splat.
    pub alphas: Vec<u8>,
    /// Colors, three bytes per splat.
    pub rgb: Vec<u8>,
    /// Log-scales, three bytes per splat.
    pub scales: Vec<u8>,
    /// Quaternion x, y and z, three bytes per splat.
    pub quats: Vec<u8>,
    /// Band 1, nine bytes per splat, if the degree is 1 or more.
    pub sh1: Vec<u8>,
    /// Band 2, 15 bytes per splat, if the degree is 2 or more.
    pub sh2: Vec<u8>,
    /// Band 3, 21 bytes per splat, if the degree is 3.
    pub sh3: Vec<u8>,
    /// Child counts, one per splat, with a LoD tree.
    pub child_counts: Vec<u16>,
    /// Child starts, one per splat, with a LoD tree.
    pub child_starts: Vec<u32>,
}

/// A fixed-point coordinate, held to the range that three bytes store:
/// `-7fffff` to `7fffff`.
pub open spec fn clamp24(v: i32) -> i32 {
    if v < -0x7f_ffff {
        (-0x7f_ffffint) as i32
    } else if v > 0x7f_ffff {
        0x7f_ffffi32
    } else {
        v
    }
}

/// The first `k` coordinates, three bytes each.
pub open spec fn centers_bytes(c: Seq<i32>, k: nat) -> Seq<u8>
    decreases k,
{
    if k == 0 {
        Seq::empty()
    } else {
        centers_bytes(c, (k - 1) as nat) + le24_bytes(clamp24(c[k - 1]))
    }
}

/// The first `k` child counts, two bytes each.
pub open spec fn counts_bytes(c: Seq<u16>, k: nat) -> Seq<u8>
    decreases k,
{
    if k == 0 {
        Seq::empty()
    } else {
        counts_bytes(c, (k - 1) as nat) + le16_bytes(c[k - 1])
    }
}

/// The first `k` child starts, four bytes each.
pub open spec fn starts_bytes(c: Seq<u32>, k: nat) -> Seq<u8>
    decreases k,
{
    if k == 0 {
        Seq::empty()
    } else {
        starts_bytes(c, (k - 1) as nat) + le32_bytes(c[k - 1])
    }
}

/// The spherical harmonics of the first `k` splats up to band `degree`:
/// for each splat its nine bytes of band 1, then its 15 of band 2, then its
/// 21 of band 3.
pub open spec fn sh_bytes(sh1: Seq<u8>, sh2: Seq<u8>, sh3: Seq<u8>, degree: int, k: nat) -> Seq<u8>
    decreases k,
{
    if k == 0 || degree < 1 {
        Seq::empty()
    } else {
        let i = k - 1;
        sh_bytes(sh1, sh2, sh3, degree, i as nat) + sh1.subrange(9 * i, 9 * i + 9) + (if degree
            >= 2 {
            sh2.subrange(15 * i, 15 * i + 15)
        } else {
            Seq::empty()
        }) + (if degree >= 3 {
            sh3.subrange(21 * i, 21 * i + 21)
        } else {
            Seq::empty()
        })
    }
}

/// The flags byte of a header.
pub open spec fn spz_flags(antialias: bool, lod_tree: bool) -> u8 {
    ((if antialias {
        1int
    } else {
        0int
    }) + (if lod_tree {
        0x80int
    } else {
        0int
    })) as u8
}

/// The 16 header bytes of a payload of version 2.
pub open spec fn spz_header_bytes(s: SpzSplats, degree: u8) -> Seq<u8> {
    le32_bytes(SPZ_MAGIC) + le32_bytes(2) + le32_bytes(s.num_splats as u32) + seq![
        degree,
        s.fractional_bits,
        spz_flags(s.antialias, s.lod_tree),
        0u8,
    ]
}

/// The degree that is written: the scene's, or the limit where that is
/// lower.
pub open spec fn spz_degree_out(degree: u8, max_sh: Option<u8>) -> u8 {
    match max_sh {
        Some(m) => if m < degree {
            m
        } else {
            degree
        },
        None => degree,
    }
}

/// The payload of a scene: the header, then the sections for centers,
/// opacities, colors, scales, quaternions and spherical harmonics, then
/// child counts and child starts where there is a LoD tree.
pub open spec fn spz_payload(s: SpzSplats, degree: u8) -> Seq<u8> {
    spz_header_bytes(s, degree) + centers_bytes(s.centers@, 3 * s.num_splats as nat) + s.alphas@
        + s.rgb@ + s.scales@ + s.quats@ + sh_bytes(
        s.sh1@,
        s.sh2@,
        s.sh3@,
        degree as int,
        s.num_splats as nat,
    ) + (if s.lod_tree {
        counts_bytes(s.child_counts@, s.num_splats as nat) + starts_bytes(
            s.child_starts@,
            s.num_splats as nat,
        )
    } else {
        Seq::empty()
    })
}

impl SpzSplats {
    /// Whether every field has the length that the number of splats and the
    /// degree ask for, and the number of splats fits the header.
    pub open spec fn wf(&self) -> bool {
        let n = self.num_splats as int;
        &&& n <= 0xffff_ffff
        &&& self.sh_degree <= 3
        &&& self.centers@.len() == 3 * n
        &&& self.alphas@.len() == n
        &&& self.rgb@.len() == 3 * n
        &&& self.scales@.len() == 3 * n
        &&& self.quats@.len() == 3 * n
        &&& self.sh_degree >= 1 ==> self.sh1@.len() == 9 * n
        &&& self.sh_degree >= 2 ==> self.sh2@.len() == 15 * n
        &&& self.sh_degree >= 3 ==> self.sh3@.len() == 21 * n
        &&& self.lod_tree ==> self.child_counts@.len() == n && self.child_starts@.len() == n
    }

    /// Checks the lengths of the fields.
    pub fn is_wf(&self) -> (ok: bool)
        ensures
            ok == self.wf(),
    {
        let n = self.num_splats;
        if n > 0xffff_ffff || self.sh_degree > 3 {
            return false;
        }
        let n64 = n as u64;
        self.centers.len() as u64 == 3 * n64 && self.alphas.len() == n && self.rgb.len() as u64
            == 3 * n64 && self.scales.len() as u64 == 3 * n64 && self.quats.len() as u64 == 3 * n64
            && (self.sh_degree < 1 || self.sh1.len() as u64 == 9 * n64) && (self.sh_degree < 2
            || self.sh2.len() as u64 == 15 * n64) && (self.sh_degree < 3 || self.sh3.len() as u64
            == 21 * n64) && (!self.lod_tree || (self.child_counts.len() == n
            && self.child_starts.len() == n))
    }
}

/// A quantized spherical-harmonic value in its bucket.
///
/// `q` is the value times 128, rounded. It is moved up by 128 and rounded
/// to the nearest multiple of `2^(8 - bits)`, halves up, and held to a
/// byte.
pub open spec fn sh_bucket(q: i32, bits: u8) -> u8 {
    let bucket: int = if bits == 8 {
        1
    } else if bits == 7 {
        2
    } else if bits == 6 {
        4
    } else if bits == 5 {
        8
    } else if bits == 4 {
        16
    } else if bits == 3 {
        32
    } else if bits == 2 {
        64
    } else {
        128
    };
    let v = (2 * (q + 128) + bucket) / (2 * bucket) * bucket;
    if v < 0 {
        0
    } else if v > 255 {
        255
    } else {
        v as u8
    }
}

/// Puts a quantized spherical-harmonic value into its bucket.
pub fn quantize_sh_byte(q: i32, bits: u8) -> (b: u8)
    requires
        1 <= bits <= 8,
    ensures
        b == sh_bucket(q, bits),
{
    let bucket: i64 = if bits == 8 {
        1
    } else if bits == 7 {
        2
    } else if bits == 6 {
        4
    } else if bits == 5 {
        8
    } else if bits == 4 {
        16
    } else if bits == 3 {
        32
    } else if bits == 2 {
        64
    } else {
        128
    };
    let num: i64 = 2 * (q as i64 + 128) + bucket;
    let den: i64 = 2 * bucket;
    let lift: i64 = 0x100_0000_0000;
    let floor: i64 = (num + lift) / den - lift / den;
    assert(floor == num as int / den as int) by (nonlinear_arith)
        requires
            den > 0,
            lift % den == 0,
            num + lift >= 0,
            floor == (num + lift) / (den as int) - (lift as int) / (den as int),
    ;
    let v = floor * bucket;
    if v < 0 {
        0
    } else if v > 255 {
        255
    } else {
        v as u8
    }
}

/// Writes a scene as an SPZ file of version 2.
pub struct SpzEncoder {
    splats: SpzSplats,
    max_sh_out: Option<u8>,
}

impl SpzEncoder {
    /// The scene to write.
    pub closed spec fn splats(&self) -> SpzSplats {
        self.splats
    }

    /// The highest band to write, if it is limited.
    pub closed spec fn max_sh(&self) -> Option<u8> {
        self.max_sh_out
    }

    /// An encoder for `splats` that writes all its bands.
    pub fn new(splats: SpzSplats) -> (e: Self)
        ensures
            e.splats() == splats,
            e.max_sh().is_none(),
    {
        SpzEncoder { splats, max_sh_out: None }
    }

    /// Limits the bands that are written to `max_sh`, at most 3.
    pub fn with_max_sh(self, max_sh: u8) -> (e: Self)
        ensures
            e.splats() == self.splats(),
            e.max_sh() == Some(if max_sh < 3 {
                max_sh
            } else {
                3u8
            }),
    {
        let m = if max_sh < 3 {
            max_sh
        } else {
            3
        };
        SpzEncoder { splats: self.splats, max_sh_out: Some(m) }
    }

    /// Sets the fraction bits of the fixed-point centers.
    pub fn with_fractional_bits(self, fractional_bits: u8) -> (e: Self)
        ensures
            e.max_sh() == self.max_sh(),
            e.splats() == (SpzSplats { fractional_bits, ..self.splats() }),
    {
        let mut splats = self.splats;
        splats.fractional_bits = fractional_bits;
        SpzEncoder { splats, max_sh_out: self.max_sh_out }
    }

    /// The gzip file of the scene's payload.
    pub fn encode(self) -> (out: Vec<u8>)
        requires
            self.splats().wf(),
        ensures
            out@ == gzip_frame(
                spz_payload(self.splats(), spz_degree_out(self.splats().sh_degree, self.max_sh())),
            ),
    {
        let s = &self.splats;
        let degree: u8 = match self.max_sh_out {
            Some(m) => if m < s.sh_degree {
                m
            } else {
                s.sh_degree
            },
            None => s.sh_degree,
        };
        assert(degree == spz_degree_out(s.sh_degree, self.max_sh_out));
        let mut raw: Vec<u8> = Vec::new();
        write_header(&mut raw, s, degree);
        assert(raw@ =~= spz_header_bytes(*s, degree));
        write_centers(&mut raw, s);
        raw.extend_from_slice(s.alphas.as_slice());
        raw.extend_from_slice(s.rgb.as_slice());
        raw.extend_from_slice(s.scales.as_slice());
        raw.extend_from_slice(s.quats.as_slice());
        write_sh(&mut raw, s, degree);
        write_lod(&mut raw, s);
        assert(raw@ == spz_payload(*s, degree));
        gzip_wrap(raw.as_slice())
    }
}

fn write_header(raw: &mut Vec<u8>, s: &SpzSplats, degree: u8)
    requires
        s.wf(),
    ensures
        final(raw)@ == old(raw)@ + spz_header_bytes(*s, degree),
{
    write_u32_le(raw, SPZ_MAGIC);
    write_u32_le(raw, 2);
    write_u32_le(raw, s.num_splats as u32);
    raw.push(degree);
    raw.push(s.fractional_bits);
    let mut flags: u8 = 0;
    if s.antialias {
        flags = flags + 0x01;
    }
    if s.lod_tree {
        flags = flags + 0x80;
    }
    raw.push(flags);
    raw.push(0);
    assert(raw@ =~= old(raw)@ + spz_header_bytes(*s, degree));
}

fn write_centers(raw: &mut Vec<u8>, s: &SpzSplats)
    requires
        s.wf(),
    ensures
        final(raw)@ == old(raw)@ + centers_bytes(s.centers@, 3 * s.num_splats as nat),
{
    let mut i: usize = 0;
    assert(raw@ =~= old(raw)@ + centers_bytes(s.centers@, 0));
    while i < s.centers.len()
        invariant
            i <= s.centers@.len(),
            raw@ == old(raw)@ + centers_bytes(s.centers@, i as nat),
        decreases s.centers@.len() - i,
    {
        let v = s.centers[i];
        let c: i32 = if v < -0x7f_ffff {
            -0x7f_ffff
        } else if v > 0x7f_ffff {
            0x7f_ffff
        } else {
            v
        };
        write_i24_le(raw, c);
        i += 1;
        assert(raw@ =~= old(raw)@ + centers_bytes(s.centers@, i as nat));
    }
}

fn write_sh(raw: &mut Vec<u8>, s: &SpzSplats, degree: u8)
    requires
        s.wf(),
        degree <= s.sh_degree,
    ensures
        final(raw)@ == old(raw)@ + sh_bytes(
            s.sh1@,
            s.sh2@,
            s.sh3@,
            degree as int,
            s.num_splats as nat,
        ),
{
    let n = s.num_splats;
    let len1 = s.sh1.len();
    let len2 = s.sh2.len();
    let len3 = s.sh3.len();
    let mut k: usize = 0;
    assert(raw@ =~= old(raw)@ + sh_bytes(s.sh1@, s.sh2@, s.sh3@, degree as int, 0));
    if degree < 1 {
        assert(raw@ =~= old(raw)@ + sh_bytes(s.sh1@, s.sh2@, s.sh3@, degree as int, n as nat));
        return ;
    }
    while k < n
        invariant
            len1 == s.sh1@.len(),
            len2 == s.sh2@.len(),
            len3 == s.sh3@.len(),
            k <= n,
            1 <= degree <= s.sh_degree,
            s.wf(),
            n == s.num_splats,
            raw@ == old(raw)@ + sh_bytes(s.sh1@, s.sh2@, s.sh3@, degree as int, k as nat),
        decreases n - k,
    {
        let a = copy_range(&s.sh1, 9 * k, 9 * k + 9);
        raw.extend_from_slice(a.as_slice());
        if degree >= 2 {
            let b = copy_range(&s.sh2, 15 * k, 15 * k + 15);
            raw.extend_from_slice(b.as_slice());
        }
        if degree >= 3 {
            let c = copy_range(&s.sh3, 21 * k, 21 * k + 21);
            raw.extend_from_slice(c.as_slice());
        }
        k += 1;
        assert(raw@ =~= old(raw)@ + sh_bytes(s.sh1@, s.sh2@, s.sh3@, degree as int, k as nat));
    }
}

fn write_lod(raw: &mut Vec<u8>, s: &SpzSplats)
    requires
        s.wf(),
    ensures
        final(raw)@ == old(raw)@ + (if s.lod_tree {
            counts_bytes(s.child_counts@, s.num_splats as nat) + starts_bytes(
                s.child_starts@,
                s.num_splats as nat,
            )
        } else {
            Seq::empty()
        }),
{
    let n = s.num_splats;
    if !s.lod_tree {
        assert(raw@ =~= old(raw)@ + Seq::<u8>::empty());
        return ;
    }
    let mut j: usize = 0;
    assert(raw@ =~= old(raw)@ + counts_bytes(s.child_counts@, 0));
    while j < n
        invariant
            j <= n,
            n == s.child_counts@.len(),
            raw@ == old(raw)@ + counts_bytes(s.child_counts@, j as nat),
        decreases n - j,
    {
        write_u16_le(raw, s.child_counts[j]);
        j += 1;
        assert(raw@ =~= old(raw)@ + counts_bytes(s.child_counts@, j as nat));
    }
    let ghost with_counts = raw@;
    let mut j: usize = 0;
    assert(raw@ =~= with_counts + starts_bytes(s.child_starts@, 0));
    while j < n
        invariant
            j <= n,
            n == s.child_starts@.len(),
            raw@ == with_counts + starts_bytes(s.child_starts@, j as nat),
        decreases n - j,
    {
        write_u32_le(raw, s.child_starts[j]);
        j += 1;
        assert(raw@ =~= with_counts + starts_bytes(s.child_starts@, j as nat));
    }
    assert(raw@ =~= old(raw)@ + (counts_bytes(s.child_counts@, n as nat) + starts_bytes(
        s.child_starts@,
        n as nat,
    )));
}

} // verus!
