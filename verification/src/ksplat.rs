//! The KSPLAT container: a main header of 4 KiB, one section header of
//! 1 KiB per section, then the sections, each with its bucket table and its
//! splat records.

use vstd::prelude::*;
use crate::endian::{
    le16_bytes, le32_bytes, read_u16_at, read_u32_at, u16_le, u32_le, write_u16_le, write_u32_le,
};

verus! {

/// Bytes of the main header.
pub const HEADER_BYTES: usize = 4096;

/// Bytes of a section header.
pub const SECTION_BYTES: usize = 1024;

/// The largest number of splats in a batch.
pub const KSPLAT_MAX_CHUNK: usize = 65536;

/// How the records of a compression level are laid out.
#[derive(Debug, Clone, Copy, PartialEq, Eq, Structural)]
pub struct KsplatCompression {
    pub bytes_per_center: usize,
    pub bytes_per_scale: usize,
    pub bytes_per_rotation: usize,
    pub bytes_per_color: usize,
    pub bytes_per_sh_component: usize,
    pub scale_offset_bytes: usize,
    pub rotation_offset_bytes: usize,
    pub color_offset_bytes: usize,
    pub sh_offset_bytes: usize,
    pub scale_range: u32,
}

/// The layout of a compression level: level 0 holds single-precision
/// floats; levels 1 and 2 hold centers as 16-bit steps within a bucket and
/// scales and rotations in half precision; the spherical harmonics take 4,
/// 2 and 1 bytes.
pub open spec fn compression_of(level: int) -> KsplatCompression {
    if level == 0 {
        KsplatCompression {
            bytes_per_center: 12,
            bytes_per_scale: 12,
            bytes_per_rotation: 16,
            bytes_per_color: 4,
            bytes_per_sh_component: 4,
            scale_offset_bytes: 12,
            rotation_offset_bytes: 24,
            color_offset_bytes: 40,
            sh_offset_bytes: 44,
            scale_range: 1,
        }
    } else {
        KsplatCompression {
            bytes_per_center: 6,
            bytes_per_scale: 6,
            bytes_per_rotation: 8,
            bytes_per_color: 4,
            bytes_per_sh_component: if level == 1 {
                2
            } else {
                1
            },
            scale_offset_bytes: 6,
            rotation_offset_bytes: 12,
            color_offset_bytes: 20,
            sh_offset_bytes: 24,
            scale_range: 32767,
        }
    }
}

/// The layout of a compression level.
pub fn ksplat_compression(level: usize) -> (c: KsplatCompression)
    requires
        level <= 2,
    ensures
        c == compression_of(level as int),
{
    if level == 0 {
        KsplatCompression {
            bytes_per_center: 12,
            bytes_per_scale: 12,
            bytes_per_rotation: 16,
            bytes_per_color: 4,
            bytes_per_sh_component: 4,
            scale_offset_bytes: 12,
            rotation_offset_bytes: 24,
            color_offset_bytes: 40,
            sh_offset_bytes: 44,
            scale_range: 1,
        }
    } else {
        KsplatCompression {
            bytes_per_center: 6,
            bytes_per_scale: 6,
            bytes_per_rotation: 8,
            bytes_per_color: 4,
            bytes_per_sh_component: if level == 1 {
                2
            } else {
                1
            },
            scale_offset_bytes: 6,
            rotation_offset_bytes: 12,
            color_offset_bytes: 20,
            sh_offset_bytes: 24,
            scale_range: 32767,
        }
    }
}

/// Spherical-harmonic components of a splat of that degree: 0, 9, 24 and
/// 45; 0 for any other degree.
pub open spec fn sh_components_of(degree: int) -> int {
    if degree == 1 {
        9
    } else if degree == 2 {
        24
    } else if degree == 3 {
        45
    } else {
        0
    }
}

/// Spherical-harmonic components of a splat of that degree.
pub fn sh_components(degree: usize) -> (n: usize)
    ensures
        n == sh_components_of(degree as int),
{
    if degree == 1 {
        9
    } else if degree == 2 {
        24
    } else if degree == 3 {
        45
    } else {
        0
    }
}

/// The component of the file that holds value `dst` of a band: the file
/// holds the components of a channel together, the bands one after the
/// other within the channel; a band holds for each coefficient its red,
/// green and blue.
pub open spec fn sh_source_of(band: int, dst: int) -> int {
    let coefficient = dst / 3;
    let channel = dst % 3;
    if band == 1 {
        coefficient + 3 * channel
    } else if band == 2 {
        9 + coefficient + 5 * channel
    } else {
        24 + coefficient + 7 * channel
    }
}

/// The component of the file that holds value `dst` of a band.
pub fn sh_source(band: usize, dst: usize) -> (src: usize)
    requires
        1 <= band <= 3,
        dst < 21,
    ensures
        src == sh_source_of(band as int, dst as int),
{
    let coefficient = dst / 3;
    let channel = dst % 3;
    if band == 1 {
        coefficient + 3 * channel
    } else if band == 2 {
        9 + coefficient + 5 * channel
    } else {
        24 + coefficient + 7 * channel
    }
}

/// Why a KSPLAT stream cannot be decoded or written.
#[derive(Debug, Clone, Copy, PartialEq, Eq, Structural)]
pub enum KsplatError {
    /// The stream is shorter than the main header.
    TooSmall,
    /// The version is not 0.1 or later of major version 0.
    UnsupportedVersion(u8, u8),
    /// The compression level is above 2.
    InvalidCompressionLevel(u16),
    /// The stream ends within the section headers.
    SectionHeadersTruncated,
    /// The size of a section does not fit the machine.
    SectionSizeOverflow,
    /// The stream ends within a section.
    Truncated,
    /// The bucket table of a section ends behind the stream.
    BucketsOutOfBounds,
    /// The encoder writes compression level 0 only.
    UnsupportedEncoderLevel(u16),
}

/// The main header.
#[derive(Debug, Clone, Copy, PartialEq, Eq, Structural)]
pub struct KsplatHeader {
    pub version_major: u8,
    pub version_minor: u8,
    /// Number of section headers.
    pub max_section_count: u32,
    /// Number of splats.
    pub num_splats: u32,
    /// Compression level, 0 to 2.
    pub compression_level: u16,
    /// Lower end of the range of 8-bit spherical harmonics, a
    /// single-precision bit pattern; 0 stands for -1.5.
    pub min_sh: u32,
    /// Upper end of that range; 0 stands for 1.5.
    pub max_sh: u32,
}

/// The main header that a stream holds.
pub open spec fn ksplat_header_of(b: Seq<u8>) -> Result<KsplatHeader, KsplatError> {
    if b.len() < 4096 {
        Err(KsplatError::TooSmall)
    } else if b[0] != 0 || b[1] < 1 {
        Err(KsplatError::UnsupportedVersion(b[0], b[1]))
    } else if u16_le(b, 20) > 2 {
        Err(KsplatError::InvalidCompressionLevel(u16_le(b, 20)))
    } else {
        Ok(
            KsplatHeader {
                version_major: b[0],
                version_minor: b[1],
                max_section_count: u32_le(b, 4),
                num_splats: u32_le(b, 16),
                compression_level: u16_le(b, 20),
                min_sh: u32_le(b, 36),
                max_sh: u32_le(b, 40),
            },
        )
    }
}

/// Reads the main header.
pub fn parse_ksplat_header(buf: &[u8]) -> (r: Result<KsplatHeader, KsplatError>)
    ensures
        r == ksplat_header_of(buf@),
{
    if buf.len() < HEADER_BYTES {
        return Err(KsplatError::TooSmall);
    }
    let version_major = buf[0];
    let version_minor = buf[1];
    if version_major != 0 || version_minor < 1 {
        return Err(KsplatError::UnsupportedVersion(version_major, version_minor));
    }
    let compression_level = read_u16_at(buf, 20);
    if compression_level > 2 {
        return Err(KsplatError::InvalidCompressionLevel(compression_level));
    }
    Ok(
        KsplatHeader {
            version_major,
            version_minor,
            max_section_count: read_u32_at(buf, 4),
            num_splats: read_u32_at(buf, 16),
            compression_level,
            min_sh: read_u32_at(buf, 36),
            max_sh: read_u32_at(buf, 40),
        },
    )
}

/// A section: what its header says, and where its parts stand.
#[derive(Debug, Clone, Copy, PartialEq, Eq, Structural)]
pub struct KsplatSection {
    /// Number of splats.
    pub splat_count: u32,
    /// Number of splats that the section has room for.
    pub max_splat_count: u32,
    /// Splats in a full bucket.
    pub bucket_size: u32,
    /// Number of buckets.
    pub bucket_count: u32,
    /// Edge of a bucket, a single-precision bit pattern.
    pub bucket_block_size: u32,
    /// Bytes of a bucket in the table.
    pub bucket_storage_size_bytes: u16,
    /// Steps from the center of a bucket to its face; 0 in the header
    /// stands for the one of the compression level.
    pub compression_scale_range: u32,
    /// Number of full buckets.
    pub full_bucket_count: u32,
    /// Number of buckets that are not full.
    pub partially_filled_bucket_count: u32,
    /// Spherical-harmonic degree of the section.
    pub sh_degree: u16,
    /// Bytes of a splat record.
    pub bytes_per_splat: u64,
    /// Where the section starts.
    pub section_base: u64,
    /// Where the bucket centers start.
    pub buckets_base: u64,
    /// Where the splat records start.
    pub data_base: u64,
    /// Bytes of the section.
    pub storage_size_bytes: u64,
}

/// Bytes of a splat record of a compression level and a degree.
pub open spec fn bytes_per_splat_of(level: int, sh_degree: int) -> int {
    let c = compression_of(level);
    c.bytes_per_center + c.bytes_per_scale + c.bytes_per_rotation + c.bytes_per_color
        + sh_components_of(sh_degree) * c.bytes_per_sh_component
}

/// The section whose header stands at `at`, if the section starts at
/// `base`.
///
/// The section holds the lengths of the buckets that are not full, four
/// bytes each, then the bucket table, then the splat records.
pub open spec fn ksplat_section_of(b: Seq<u8>, level: int, at: int, base: int) -> KsplatSection {
    let sh_degree = u16_le(b, at + 40);
    let per_splat = bytes_per_splat_of(level, sh_degree as int);
    let buckets = u16_le(b, at + 20) * u32_le(b, at + 12) + u32_le(b, at + 36) * 4;
    let data = per_splat * u32_le(b, at + 4);
    KsplatSection {
        splat_count: u32_le(b, at),
        max_splat_count: u32_le(b, at + 4),
        bucket_size: u32_le(b, at + 8),
        bucket_count: u32_le(b, at + 12),
        bucket_block_size: u32_le(b, at + 16),
        bucket_storage_size_bytes: u16_le(b, at + 20),
        compression_scale_range: if u32_le(b, at + 24) == 0 {
            compression_of(level).scale_range
        } else {
            u32_le(b, at + 24)
        },
        full_bucket_count: u32_le(b, at + 32),
        partially_filled_bucket_count: u32_le(b, at + 36),
        sh_degree,
        bytes_per_splat: per_splat as u64,
        section_base: base as u64,
        buckets_base: (base + u32_le(b, at + 36) * 4) as u64,
        data_base: (base + buckets) as u64,
        storage_size_bytes: (data + buckets) as u64,
    }
}

/// Reads the section header at `at` of a section that starts at `base`.
pub fn parse_ksplat_section(buf: &[u8], level: usize, at: usize, base: u64) -> (s: KsplatSection)
    requires
        level <= 2,
        at + 1024 <= buf@.len(),
        base <= 0x1000_0000_0000_0000,
    ensures
        s == ksplat_section_of(buf@, level as int, at as int, base as int),
        s.storage_size_bytes < 0x2_0000_0000_0000,
        s.bytes_per_splat == bytes_per_splat_of(level as int, s.sh_degree as int),
        s.bytes_per_splat >= 18,
        s.buckets_base == s.section_base + s.partially_filled_bucket_count * 4,
        s.section_base <= s.buckets_base <= s.data_base,
        s.data_base + s.bytes_per_splat * s.max_splat_count == s.section_base
            + s.storage_size_bytes,
{
    let total = buf.len();
    let comp = ksplat_compression(level);
    let sh_degree = read_u16_at(buf, at + 40);
    assert(sh_components_of(sh_degree as int) <= 45);
    let components = sh_components(sh_degree as usize);
    assert(components * comp.bytes_per_sh_component <= 180) by (nonlinear_arith)
        requires
            components <= 45,
            comp.bytes_per_sh_component <= 4,
    ;
    let per_splat: u64 = (comp.bytes_per_center + comp.bytes_per_scale + comp.bytes_per_rotation
        + comp.bytes_per_color + components * comp.bytes_per_sh_component) as u64;
    let max_splat_count = read_u32_at(buf, at + 4);
    let bucket_storage_size_bytes = read_u16_at(buf, at + 20);
    let bucket_count = read_u32_at(buf, at + 12);
    let partially = read_u32_at(buf, at + 36);
    assert(bucket_storage_size_bytes * bucket_count <= 0xffff * 0xffff_ffff) by (nonlinear_arith)
        requires
            bucket_storage_size_bytes <= 0xffff,
            bucket_count <= 0xffff_ffff,
    ;
    let buckets: u64 = bucket_storage_size_bytes as u64 * bucket_count as u64 + partially as u64
        * 4;
    assert(per_splat * max_splat_count <= 224 * 0xffff_ffff) by (nonlinear_arith)
        requires
            per_splat <= 224,
            max_splat_count <= 0xffff_ffff,
    ;
    let data: u64 = per_splat * max_splat_count as u64;
    let raw_range = read_u32_at(buf, at + 24);
    KsplatSection {
        splat_count: read_u32_at(buf, at),
        max_splat_count,
        bucket_size: read_u32_at(buf, at + 8),
        bucket_count,
        bucket_block_size: read_u32_at(buf, at + 16),
        bucket_storage_size_bytes,
        compression_scale_range: if raw_range == 0 {
            comp.scale_range
        } else {
            raw_range
        },
        full_bucket_count: read_u32_at(buf, at + 32),
        partially_filled_bucket_count: partially,
        sh_degree,
        bytes_per_splat: per_splat,
        section_base: base,
        buckets_base: base + partially as u64 * 4,
        data_base: base + buckets,
        storage_size_bytes: data + buckets,
    }
}

/// What a KSPLAT file holds: its header, the highest degree of its
/// sections, and its sections.
pub struct KsplatFile {
    pub header: KsplatHeader,
    pub max_sh_degree: usize,
    pub sections: Vec<KsplatSection>,
}

/// Where section `k` starts: behind the headers and the sections before it.
pub open spec fn ksplat_section_base(b: Seq<u8>, level: int, sections: int, k: int) -> int
    decreases k,
{
    if k <= 0 {
        4096 + 1024 * sections
    } else {
        let prev = ksplat_section_base(b, level, sections, k - 1);
        prev + ksplat_section_of(b, level, 4096 + 1024 * (k - 1), prev).storage_size_bytes
    }
}

/// Why the section whose header stands at `at` cannot be read, if it
/// cannot: it starts too far out, it ends behind the stream, or its bucket
/// table does.
pub open spec fn ksplat_section_error(b: Seq<u8>, level: int, at: int, base: int) -> Option<KsplatError> {
    let s = ksplat_section_of(b, level, at, base);
    if base > 0x1000_0000_0000_0000 {
        Some(KsplatError::SectionSizeOverflow)
    } else if s.storage_size_bytes > b.len() - base {
        Some(KsplatError::Truncated)
    } else if s.bucket_count > 0 && s.bucket_count * 12 > b.len() - s.buckets_base {
        Some(KsplatError::BucketsOutOfBounds)
    } else {
        None
    }
}

/// The error of the first of the sections `0..k` that cannot be read.
pub open spec fn ksplat_first_error(b: Seq<u8>, level: int, sections: int, k: int) -> Option<KsplatError>
    decreases k,
{
    if k <= 0 {
        None
    } else {
        match ksplat_first_error(b, level, sections, k - 1) {
            Some(e) => Some(e),
            None => ksplat_section_error(
                b,
                level,
                4096 + 1024 * (k - 1),
                ksplat_section_base(b, level, sections, k - 1),
            ),
        }
    }
}

/// Why a stream cannot be decoded, if it cannot: for its header, for its
/// section headers, or for the first section that cannot be read.
pub open spec fn ksplat_error_of(b: Seq<u8>) -> Option<KsplatError> {
    match ksplat_header_of(b) {
        Err(e) => Some(e),
        Ok(h) => if (b.len() - 4096) / 1024 < h.max_section_count {
            Some(KsplatError::SectionHeadersTruncated)
        } else {
            ksplat_first_error(
                b,
                h.compression_level as int,
                h.max_section_count as int,
                h.max_section_count as int,
            )
        },
    }
}

/// An error among the first sections is the error of all.
proof fn lemma_first_error_stays(b: Seq<u8>, level: int, sections: int, k: int, j: int, e: KsplatError)
    requires
        0 <= k <= j,
        ksplat_first_error(b, level, sections, k) == Some(e),
    ensures
        ksplat_first_error(b, level, sections, j) == Some(e),
    decreases j - k,
{
    if k < j {
        lemma_first_error_stays(b, level, sections, k, j - 1, e);
    }
}

/// The highest degree of the sections `0..k`.
pub open spec fn ksplat_max_degree(b: Seq<u8>, k: int) -> int
    decreases k,
{
    if k <= 0 {
        0
    } else {
        let d = u16_le(b, 4096 + 1024 * (k - 1) + 40) as int;
        let m = ksplat_max_degree(b, k - 1);
        if d > m {
            d
        } else {
            m
        }
    }
}

/// Decodes a KSPLAT stream: the bytes are kept until the stream ends.
pub struct KsplatDecoder {
    buffer: Vec<u8>,
}

impl KsplatDecoder {
    /// The bytes taken so far.
    pub closed spec fn view(&self) -> Seq<u8> {
        self.buffer@
    }

    /// A decoder at the start of a stream.
    pub fn new() -> (d: Self)
        ensures
            d@.len() == 0,
    {
        KsplatDecoder { buffer: Vec::new() }
    }

    /// Takes the next piece of the stream.
    pub fn push(&mut self, bytes: &[u8])
        ensures
            final(self)@ == old(self)@ + bytes@,
    {
        self.buffer.extend_from_slice(bytes);
    }

    /// The bytes taken so far.
    pub fn bytes(&self) -> (b: &Vec<u8>)
        ensures
            b@ == self@,
    {
        &self.buffer
    }

    /// Ends the stream: reads the main header and the section headers, and
    /// finds where every section stands. Every section header and every
    /// section has to lie within the stream.
    pub fn finish(&self) -> (r: Result<KsplatFile, KsplatError>)
        ensures
            match ksplat_error_of(self@) {
                Some(e) => r matches Err(e2) && e2 == e,
                None => r is Ok,
            },
            r matches Ok(file) ==> {
                &&& ksplat_header_of(self@) == Ok::<KsplatHeader, KsplatError>(file.header)
                &&& file.sections@.len() == file.header.max_section_count
                &&& file.max_sh_degree == ksplat_max_degree(self@, file.sections@.len() as int)
                &&& forall|k: int|
                    0 <= k < file.sections@.len() ==> #[trigger] file.sections@[k]
                        == ksplat_section_of(
                        self@,
                        file.header.compression_level as int,
                        4096 + 1024 * k,
                        ksplat_section_base(
                            self@,
                            file.header.compression_level as int,
                            file.sections@.len() as int,
                            k,
                        ),
                    )
                &&& forall|k: int|
                    0 <= k < file.sections@.len() ==> (#[trigger] file.sections@[k]).section_base
                        + file.sections@[k].storage_size_bytes <= self@.len()
            },
    {
        let header = match parse_ksplat_header(self.buffer.as_slice()) {
            Err(e) => {
                return Err(e);
            },
            Ok(h) => h,
        };
        let len = self.buffer.len();
        let count = header.max_section_count as usize;
        let level = header.compression_level as usize;
        if (len - HEADER_BYTES) / SECTION_BYTES < count {
            return Err(KsplatError::SectionHeadersTruncated);
        }
        let mut sections: Vec<KsplatSection> = Vec::new();
        let mut max_sh_degree: usize = 0;
        let mut base: u64 = (HEADER_BYTES + count * SECTION_BYTES) as u64;
        let mut k: usize = 0;
        while k < count
            invariant
                k <= count,
                level <= 2,
                ksplat_header_of(self@) == Ok::<KsplatHeader, KsplatError>(header),
                count == header.max_section_count,
                level == header.compression_level,
                len == self.buffer@.len(),
                4096 + 1024 * count <= len,
                sections@.len() == k,
                base <= len,
                base == ksplat_section_base(self@, level as int, count as int, k as int),
                ksplat_first_error(self@, level as int, count as int, k as int).is_none(),
                max_sh_degree == ksplat_max_degree(self@, k as int),
                max_sh_degree <= 0xffff,
                forall|j: int|
                    0 <= j < k ==> #[trigger] sections@[j] == ksplat_section_of(
                        self@,
                        level as int,
                        4096 + 1024 * j,
                        ksplat_section_base(self@, level as int, count as int, j),
                    ),
                forall|j: int|
                    0 <= j < k ==> (#[trigger] sections@[j]).section_base
                        + sections@[j].storage_size_bytes <= len,
            decreases count - k,
        {
            let ghost found = ksplat_section_error(
                self@,
                level as int,
                4096 + 1024 * k,
                ksplat_section_base(self@, level as int, count as int, k as int),
            );
            proof {
                if found.is_some() {
                    let e = found.unwrap();
                    assert(ksplat_first_error(self@, level as int, count as int, k + 1) == Some(e));
                    lemma_first_error_stays(self@, level as int, count as int, k + 1, count as int, e);
                }
            }
            if base > 0x1000_0000_0000_0000 {
                return Err(KsplatError::SectionSizeOverflow);
            }
            let at = HEADER_BYTES + SECTION_BYTES * k;
            let s = parse_ksplat_section(self.buffer.as_slice(), level, at, base);
            if s.sh_degree as usize > max_sh_degree {
                max_sh_degree = s.sh_degree as usize;
            }
            if s.storage_size_bytes > len as u64 - base {
                return Err(KsplatError::Truncated);
            }
            if s.bucket_count > 0 {
                let table: u64 = s.bucket_count as u64 * 12;
                if table > len as u64 - s.buckets_base {
                    return Err(KsplatError::BucketsOutOfBounds);
                }
            }
            assert(found.is_none());
            base = base + s.storage_size_bytes;
            sections.push(s);
            k += 1;
        }
        Ok(KsplatFile { header, max_sh_degree, sections })
    }
}

/// A value of a record as it stands in the file.
#[derive(Debug, Clone, Copy, PartialEq, Eq, Structural)]
pub enum KsplatValue {
    /// The bit pattern of a single-precision float.
    F32(u32),
    /// The bit pattern of a half-precision float, or a 16-bit step.
    F16(u16),
    /// A byte.
    U8(u8),
}

/// The value of `width` bytes at `offset`: four bytes are a float, two a
/// half or a step, one is a byte.
pub open spec fn ksplat_value_of(b: Seq<u8>, offset: int, width: int) -> KsplatValue {
    if width == 4 {
        KsplatValue::F32(u32_le(b, offset))
    } else if width == 2 {
        KsplatValue::F16(u16_le(b, offset))
    } else {
        KsplatValue::U8(b[offset])
    }
}

/// Reads the value of `width` bytes at `offset`, if it lies in the stream.
pub fn read_ksplat_value(buf: &[u8], offset: u64, width: usize) -> (r: Option<KsplatValue>)
    requires
        width == 1 || width == 2 || width == 4,
    ensures
        r.is_some() <==> offset + width <= buf@.len(),
        r matches Some(v) ==> v == ksplat_value_of(buf@, offset as int, width as int),
{
    let len = buf.len();
    if offset > len as u64 || len as u64 - offset < width as u64 {
        return None;
    }
    let at = offset as usize;
    if width == 4 {
        Some(KsplatValue::F32(read_u32_at(buf, at)))
    } else if width == 2 {
        Some(KsplatValue::F16(read_u16_at(buf, at)))
    } else {
        Some(KsplatValue::U8(buf[at]))
    }
}

impl KsplatSection {
    /// Where the record of splat `i` of the section starts.
    pub fn splat_offset(&self, i: u32) -> (r: Option<u64>)
        requires
            self.bytes_per_splat <= 224,
            self.data_base <= 0x2000_0000_0000_0000,
        ensures
            r.is_some() <==> i < self.splat_count,
            r matches Some(at) ==> at == self.data_base + i * self.bytes_per_splat,
    {
        if i >= self.splat_count {
            return None;
        }
        assert(i * self.bytes_per_splat <= 0xffff_ffff * 224) by (nonlinear_arith)
            requires
                i <= 0xffff_ffff,
                self.bytes_per_splat <= 224,
        ;
        Some(self.data_base + i as u64 * self.bytes_per_splat)
    }
}

/// A splat record as it stands in the file, value for value.
pub struct KsplatRecord {
    /// Center x, y, z: floats at level 0, else steps within the bucket.
    pub center: [KsplatValue; 3],
    /// The center of the bucket of the splat, three single-precision bit
    /// patterns; zeros at level 0 and for a bucket that the table lacks.
    pub bucket_center: [u32; 3],
    /// Scale x, y, z.
    pub scale: [KsplatValue; 3],
    /// Rotation x, y, z, w; the file holds w first.
    pub quat_xyzw: [KsplatValue; 4],
    /// Red, green, blue and opacity.
    pub rgba: [u8; 4],
    /// The spherical harmonics, band after band, for each coefficient its
    /// red, green and blue.
    pub sh: Vec<KsplatValue>,
}

/// Bytes of a float of a center, a scale or a rotation at a level.
pub open spec fn ksplat_float_width(level: int) -> int {
    if level == 0 {
        4
    } else {
        2
    }
}

/// The band of the `j`-th spherical-harmonic value of a splat, and its
/// place in the band.
pub open spec fn ksplat_sh_band(j: int) -> (int, int) {
    if j < 9 {
        (1, j)
    } else if j < 24 {
        (2, j - 9)
    } else {
        (3, j - 24)
    }
}

/// Whether the record of splat `i` of a section lies within the stream,
/// and the center of its bucket too where one is read.
pub open spec fn ksplat_record_in(b: Seq<u8>, s: KsplatSection, level: int, i: int, bucket: int) -> bool {
    &&& i < s.splat_count
    &&& s.data_base + i * s.bytes_per_splat + bytes_per_splat_of(level, s.sh_degree as int) <= b.len()
    &&& (level > 0 && bucket < s.bucket_count ==> s.buckets_base + 12 * bucket + 12 <= b.len())
}

/// Whether `rec` is the record of splat `i` of a section: the center
/// first, then scale, rotation (stored w, x, y, z), color with opacity, and
/// the spherical harmonics, each component where the tables of its band
/// put it.
pub open spec fn ksplat_record_at(
    b: Seq<u8>,
    s: KsplatSection,
    level: int,
    i: int,
    bucket: int,
    rec: KsplatRecord,
) -> bool {
    let at = s.data_base + i * s.bytes_per_splat;
    let c = compression_of(level);
    let w = ksplat_float_width(level);
    &&& forall|d: int| 0 <= d < 3 ==> #[trigger] rec.center[d] == ksplat_value_of(b, at + w * d, w)
    &&& forall|d: int|
        0 <= d < 3 ==> #[trigger] rec.scale[d] == ksplat_value_of(
            b,
            at + c.scale_offset_bytes + w * d,
            w,
        )
    &&& forall|d: int|
        0 <= d < 3 ==> #[trigger] rec.quat_xyzw[d] == ksplat_value_of(
            b,
            at + c.rotation_offset_bytes + w * (d + 1),
            w,
        )
    &&& rec.quat_xyzw[3] == ksplat_value_of(b, at + c.rotation_offset_bytes, w)
    &&& forall|d: int| 0 <= d < 4 ==> #[trigger] rec.rgba[d] == b[at + c.color_offset_bytes + d]
    &&& forall|d: int|
        0 <= d < 3 ==> #[trigger] rec.bucket_center[d] == (if level > 0 && bucket < s.bucket_count {
            u32_le(b, s.buckets_base + 12 * bucket + 4 * d)
        } else {
            0
        })
    &&& rec.sh@.len() == sh_components_of(s.sh_degree as int)
    &&& forall|j: int|
        0 <= j < rec.sh@.len() ==> #[trigger] rec.sh@[j] == ksplat_value_of(
            b,
            at + c.sh_offset_bytes + sh_source_of(ksplat_sh_band(j).0, ksplat_sh_band(j).1)
                * c.bytes_per_sh_component,
            c.bytes_per_sh_component as int,
        )
}

/// Reads three floats of a record.
fn read_three(buf: &[u8], at: u64, width: usize) -> (r: [KsplatValue; 3])
    requires
        width == 2 || width == 4,
        at + 3 * width <= buf@.len(),
    ensures
        forall|d: int|
            0 <= d < 3 ==> #[trigger] r[d] == ksplat_value_of(buf@, at + width * d, width as int),
{
    let w = width as u64;
    let len = buf.len();
    let a = read_ksplat_value(buf, at, width);
    let b = read_ksplat_value(buf, at + w, width);
    let c = read_ksplat_value(buf, at + 2 * w, width);
    [a.unwrap(), b.unwrap(), c.unwrap()]
}

/// Reads the record of splat `i` of a section, the `bucket` of the splat
/// being known. `None` where the record, or the center of the bucket, does
/// not lie within the stream.
pub fn read_ksplat_record(buf: &[u8], s: &KsplatSection, level: usize, i: u32, bucket: u64) -> (r:
    Option<KsplatRecord>)
    requires
        level <= 2,
        s.bytes_per_splat <= 224,
        s.data_base <= 0x2000_0000_0000_0000,
        s.buckets_base <= 0x2000_0000_0000_0000,
        bucket < 0x1_0000_0000_0000,
    ensures
        r.is_some() <==> ksplat_record_in(buf@, *s, level as int, i as int, bucket as int),
        r matches Some(rec) ==> ksplat_record_at(buf@, *s, level as int, i as int, bucket as int, rec),
{
    let len = buf.len() as u64;
    let at = match s.splat_offset(i) {
        None => {
            return None;
        },
        Some(at) => at,
    };
    let c = ksplat_compression(level);
    let components = sh_components(s.sh_degree as usize);
    let bps = c.bytes_per_sh_component;
    assert(components * bps <= 180) by (nonlinear_arith)
        requires
            components <= 45,
            bps <= 4,
    ;
    let record = (c.sh_offset_bytes + components * bps) as u64;
    if at > len || len - at < record {
        return None;
    }
    let with_bucket = level > 0 && bucket < s.bucket_count as u64;
    if with_bucket && (s.buckets_base + 12 * bucket > len || len - (s.buckets_base + 12 * bucket)
        < 12) {
        return None;
    }
    let width: usize = if level == 0 {
        4
    } else {
        2
    };
    let center = read_three(buf, at, width);
    let scale = read_three(buf, at + c.scale_offset_bytes as u64, width);
    let rot = read_three(buf, at + c.rotation_offset_bytes as u64 + width as u64, width);
    let w = read_ksplat_value(buf, at + c.rotation_offset_bytes as u64, width).unwrap();
    let color = (at + c.color_offset_bytes as u64) as usize;
    let rgba = [buf[color], buf[color + 1], buf[color + 2], buf[color + 3]];
    let bucket_center = if with_bucket {
        let base = (s.buckets_base + 12 * bucket) as usize;
        [read_u32_at(buf, base), read_u32_at(buf, base + 4), read_u32_at(buf, base + 8)]
    } else {
        [0u32, 0u32, 0u32]
    };
    let mut sh: Vec<KsplatValue> = Vec::new();
    let mut j: usize = 0;
    while j < components
        invariant
            j <= components,
            components == sh_components_of(s.sh_degree as int),
            components <= 45,
            len == buf@.len(),
            c == compression_of(level as int),
            bps == c.bytes_per_sh_component,
            bps == 1 || bps == 2 || bps == 4,
            at + c.sh_offset_bytes + components * bps <= buf@.len(),
            at == s.data_base + i * s.bytes_per_splat,
            sh@.len() == j,
            forall|k: int|
                0 <= k < j ==> #[trigger] sh@[k] == ksplat_value_of(
                    buf@,
                    at + c.sh_offset_bytes + sh_source_of(ksplat_sh_band(k).0, ksplat_sh_band(k).1)
                        * c.bytes_per_sh_component,
                    c.bytes_per_sh_component as int,
                ),
        decreases components - j,
    {
        let (band, place): (usize, usize) = if j < 9 {
            (1, j)
        } else if j < 24 {
            (2, j - 9)
        } else {
            (3, j - 24)
        };
        let src = sh_source(band, place);
        assert(src < components) by {
            assert(place / 3 <= 6 && place % 3 <= 2);
        }
        assert(src * bps + bps <= components * bps && src * bps <= 180) by (nonlinear_arith)
            requires
                src < components,
                components <= 45,
                1 <= bps <= 4,
        ;
        let v = read_ksplat_value(buf, at + c.sh_offset_bytes as u64 + (src * bps) as u64, bps);
        sh.push(v.unwrap());
        j += 1;
    }
    let rec = KsplatRecord {
        center,
        bucket_center,
        scale,
        quat_xyzw: [rot[0], rot[1], rot[2], w],
        rgba,
        sh,
    };
    proof {
        let wd = ksplat_float_width(level as int);
        assert forall|d: int| 0 <= d < 3 implies #[trigger] rec.quat_xyzw[d] == ksplat_value_of(
            buf@,
            at + c.rotation_offset_bytes + wd * (d + 1),
            wd,
        ) by {
            assert(rot[d] == ksplat_value_of(
                buf@,
                at + c.rotation_offset_bytes + width + width * d,
                width as int,
            ));
            assert(width + width * d == wd * (d + 1)) by (nonlinear_arith)
                requires
                    width == wd,
            ;
        }
    }
    Some(rec)
}

/// Where the walk through the buckets of a section stands: the bucket that
/// is not full into which the splats fall, and the splat at which it
/// starts.
#[derive(Debug, Clone, Copy, PartialEq, Eq, Structural)]
pub struct KsplatBucketWalk {
    pub bucket: u64,
    pub base: u64,
}

/// The walk after splat `i`, and the bucket of that splat.
///
/// The splats of the full buckets come first, bucket after bucket. Behind
/// them a splat falls into the bucket at which the walk stands, unless it
/// lies behind the end of that bucket, whose length the section holds:
/// then the walk goes on to the next bucket.
pub open spec fn bucket_step(b: Seq<u8>, s: KsplatSection, w: KsplatBucketWalk, i: int) -> (
    KsplatBucketWalk,
    int,
) {
    if i < s.full_bucket_count * s.bucket_size {
        (w, i / s.bucket_size as int)
    } else {
        let idx = if w.bucket >= s.full_bucket_count {
            w.bucket - s.full_bucket_count
        } else {
            0
        };
        if idx < s.partially_filled_bucket_count && s.section_base + 4 * idx + 4 <= b.len() && i
            >= w.base + u32_le(b, s.section_base + 4 * idx) {
            let next = KsplatBucketWalk {
                bucket: (w.bucket + 1) as u64,
                base: (w.base + u32_le(b, s.section_base + 4 * idx)) as u64,
            };
            (next, next.bucket as int)
        } else {
            (w, w.bucket as int)
        }
    }
}

impl KsplatBucketWalk {
    /// The walk before the first splat of a section: at the first bucket
    /// that is not full.
    pub fn start(s: &KsplatSection) -> (w: Self)
        ensures
            w.bucket == s.full_bucket_count,
            w.base == s.full_bucket_count * s.bucket_size,
    {
        assert(s.full_bucket_count * s.bucket_size <= 0xffff_ffff * 0xffff_ffff) by (nonlinear_arith)
            requires
                s.full_bucket_count <= 0xffff_ffff,
                s.bucket_size <= 0xffff_ffff,
        ;
        KsplatBucketWalk {
            bucket: s.full_bucket_count as u64,
            base: s.full_bucket_count as u64 * s.bucket_size as u64,
        }
    }

    /// The bucket of splat `i`; the walk goes on as the splat asks.
    pub fn bucket_of(&mut self, buf: &[u8], s: &KsplatSection, i: u32) -> (bucket: u64)
        requires
            old(self).bucket < 0x1_0000_0000_0000,
            old(self).base < 0x1000_0000_0000_0000,
            s.section_base <= 0x2000_0000_0000_0000,
        ensures
            (*final(self), bucket as int) == bucket_step(buf@, *s, *old(self), i as int),
    {
        assert(s.full_bucket_count * s.bucket_size <= 0xffff_ffff * 0xffff_ffff) by (nonlinear_arith)
            requires
                s.full_bucket_count <= 0xffff_ffff,
                s.bucket_size <= 0xffff_ffff,
        ;
        let full: u64 = s.full_bucket_count as u64 * s.bucket_size as u64;
        if (i as u64) < full {
            return (i / s.bucket_size) as u64;
        }
        let idx: u64 = if self.bucket >= s.full_bucket_count as u64 {
            self.bucket - s.full_bucket_count as u64
        } else {
            0
        };
        if idx < s.partially_filled_bucket_count as u64 {
            let at = s.section_base + 4 * idx;
            let len = buf.len();
            if at <= len as u64 && len as u64 - at >= 4 {
                let length = read_u32_at(buf, at as usize);
                if i as u64 >= self.base + length as u64 {
                    self.bucket = self.bucket + 1;
                    self.base = self.base + length as u64;
                }
            }
        }
        self.bucket
    }
}

/// The quantized fields of a scene as a KSPLAT file of compression level 0
/// holds them.
pub struct KsplatSplats {
    /// Number of splats.
    pub num_splats: u32,
    /// Spherical-harmonic degree, 0 to 3.
    pub sh_degree: u16,
    /// Lower end of the range of 8-bit spherical harmonics, a
    /// single-precision bit pattern.
    pub min_sh: u32,
    /// Upper end of that range.
    pub max_sh: u32,
    /// For every splat ten floats: center x, y, z, scale x, y, z, rotation
    /// w, x, y, z.
    pub floats: Vec<u32>,
    /// For every splat four bytes: red, green, blue, opacity.
    pub colors: Vec<u8>,
    /// For every splat its spherical-harmonic components, in the order of
    /// the file.
    pub sh: Vec<u32>,
}

/// `n` zero bytes.
pub open spec fn zeros(n: int) -> Seq<u8> {
    Seq::new(n as nat, |i: int| 0u8)
}

/// The floats `from..to`, four bytes each.
pub open spec fn floats_bytes(v: Seq<u32>, from: int, to: int) -> Seq<u8>
    decreases to - from,
{
    if to <= from {
        Seq::empty()
    } else {
        floats_bytes(v, from, to - 1) + le32_bytes(v[to - 1])
    }
}

/// The record of splat `i`: its ten floats, its color, its
/// spherical-harmonic components.
pub open spec fn ksplat_record(s: KsplatSplats, i: int) -> Seq<u8> {
    let c = sh_components_of(s.sh_degree as int);
    floats_bytes(s.floats@, 10 * i, 10 * i + 10) + s.colors@.subrange(4 * i, 4 * i + 4)
        + floats_bytes(s.sh@, c * i, c * i + c)
}

/// The records of the first `k` splats.
pub open spec fn ksplat_records(s: KsplatSplats, k: int) -> Seq<u8>
    decreases k,
{
    if k <= 0 {
        Seq::empty()
    } else {
        ksplat_records(s, k - 1) + ksplat_record(s, k - 1)
    }
}

/// The main header of a file of one section at compression level 0.
pub open spec fn ksplat_main_header(s: KsplatSplats) -> Seq<u8> {
    seq![0u8, 1u8, 0u8, 0u8] + le32_bytes(1) + zeros(8) + le32_bytes(s.num_splats) + le16_bytes(0)
        + zeros(14) + le32_bytes(s.min_sh) + le32_bytes(s.max_sh) + zeros(4096 - 44)
}

/// The header of the one section: all splats in one full bucket without a
/// table.
pub open spec fn ksplat_section_header(s: KsplatSplats) -> Seq<u8> {
    le32_bytes(s.num_splats) + le32_bytes(s.num_splats) + le32_bytes(
        if s.num_splats == 0 {
            1
        } else {
            s.num_splats
        },
    ) + le32_bytes(1) + le32_bytes(0) + le16_bytes(0) + zeros(2) + le32_bytes(1) + zeros(4)
        + le32_bytes(1) + le32_bytes(0) + le16_bytes(s.sh_degree) + zeros(1024 - 42)
}

/// The file of a scene.
pub open spec fn ksplat_file(s: KsplatSplats) -> Seq<u8> {
    ksplat_main_header(s) + ksplat_section_header(s) + ksplat_records(s, s.num_splats as int)
}

impl KsplatSplats {
    /// Whether every field has the length that the number of splats and the
    /// degree ask for.
    pub open spec fn wf(&self) -> bool {
        let n = self.num_splats as int;
        &&& self.sh_degree <= 3
        &&& self.floats@.len() == 10 * n
        &&& self.colors@.len() == 4 * n
        &&& self.sh@.len() == sh_components_of(self.sh_degree as int) * n
    }

    /// Checks the lengths of the fields.
    pub fn is_wf(&self) -> (ok: bool)
        ensures
            ok == self.wf(),
    {
        if self.sh_degree > 3 {
            return false;
        }
        let n = self.num_splats as u64;
        let c = sh_components(self.sh_degree as usize) as u64;
        assert(c * n <= 45 * 0xffff_ffff) by (nonlinear_arith)
            requires
                c <= 45,
                n <= 0xffff_ffff,
        ;
        self.floats.len() as u64 == 10 * n && self.colors.len() as u64 == 4 * n
            && self.sh.len() as u64 == c * n
    }
}

fn push_zeros(out: &mut Vec<u8>, n: usize)
    ensures
        final(out)@ == old(out)@ + zeros(n as int),
{
    let mut k: usize = 0;
    assert(out@ =~= old(out)@ + zeros(0));
    while k < n
        invariant
            k <= n,
            out@ == old(out)@ + zeros(k as int),
        decreases n - k,
    {
        out.push(0);
        k += 1;
        assert(out@ =~= old(out)@ + zeros(k as int));
    }
}

fn push_floats(out: &mut Vec<u8>, v: &Vec<u32>, from: usize, to: usize)
    requires
        from <= to <= v@.len(),
    ensures
        final(out)@ == old(out)@ + floats_bytes(v@, from as int, to as int),
{
    let mut k: usize = from;
    assert(out@ =~= old(out)@ + floats_bytes(v@, from as int, from as int));
    while k < to
        invariant
            from <= k <= to <= v@.len(),
            out@ == old(out)@ + floats_bytes(v@, from as int, k as int),
        decreases to - k,
    {
        write_u32_le(out, v[k]);
        k += 1;
        assert(out@ =~= old(out)@ + floats_bytes(v@, from as int, k as int));
    }
}

fn push_main_header(out: &mut Vec<u8>, s: &KsplatSplats)
    ensures
        final(out)@ == old(out)@ + ksplat_main_header(*s),
{
    out.push(0);
    out.push(1);
    out.push(0);
    out.push(0);
    assert(out@ =~= old(out)@ + seq![0u8, 1u8, 0u8, 0u8]);
    write_u32_le(out, 1);
    push_zeros(out, 8);
    write_u32_le(out, s.num_splats);
    crate::endian::write_u16_le(out, 0);
    push_zeros(out, 14);
    write_u32_le(out, s.min_sh);
    write_u32_le(out, s.max_sh);
    push_zeros(out, 4096 - 44);
    assert(out@ =~= old(out)@ + ksplat_main_header(*s));
}

fn push_section_header(out: &mut Vec<u8>, s: &KsplatSplats)
    ensures
        final(out)@ == old(out)@ + ksplat_section_header(*s),
{
    write_u32_le(out, s.num_splats);
    write_u32_le(out, s.num_splats);
    write_u32_le(out, if s.num_splats == 0 {
        1
    } else {
        s.num_splats
    });
    write_u32_le(out, 1);
    write_u32_le(out, 0);
    write_u16_le(out, 0);
    push_zeros(out, 2);
    write_u32_le(out, 1);
    push_zeros(out, 4);
    write_u32_le(out, 1);
    write_u32_le(out, 0);
    write_u16_le(out, s.sh_degree);
    push_zeros(out, 1024 - 42);
    assert(out@ =~= old(out)@ + ksplat_section_header(*s));
}

/// Writes a scene as a KSPLAT file of one section. Compression level 0 is
/// the only one that is written.
pub fn encode_ksplat(compression_level: u16, s: &KsplatSplats) -> (r: Result<Vec<u8>, KsplatError>)
    requires
        s.wf(),
    ensures
        r is Err <==> compression_level != 0,
        r matches Err(e) ==> e == KsplatError::UnsupportedEncoderLevel(compression_level),
        r matches Ok(out) ==> out@ == ksplat_file(*s),
{
    if compression_level != 0 {
        return Err(KsplatError::UnsupportedEncoderLevel(compression_level));
    }
    let mut out: Vec<u8> = Vec::new();
    push_main_header(&mut out, s);
    push_section_header(&mut out, s);
    let ghost head = out@;
    assert(head =~= ksplat_main_header(*s) + ksplat_section_header(*s));
    let n = s.num_splats as usize;
    let c = sh_components(s.sh_degree as usize);
    let flen = s.floats.len();
    let clen = s.colors.len();
    let slen = s.sh.len();
    let mut i: usize = 0;
    assert(out@ =~= head + ksplat_records(*s, 0));
    while i < n
        invariant
            i <= n,
            n == s.num_splats,
            s.wf(),
            c == sh_components_of(s.sh_degree as int),
            flen == s.floats@.len(),
            clen == s.colors@.len(),
            slen == s.sh@.len(),
            out@ == head + ksplat_records(*s, i as int),
        decreases n - i,
    {
        assert(c * i + c <= c * n) by (nonlinear_arith)
            requires
                i < n,
                c >= 0,
        ;
        push_floats(&mut out, &s.floats, 10 * i, 10 * i + 10);
        let color = vstd::slice::slice_subrange(s.colors.as_slice(), 4 * i, 4 * i + 4);
        out.extend_from_slice(color);
        push_floats(&mut out, &s.sh, c * i, c * i + c);
        i += 1;
        assert(out@ =~= head + ksplat_records(*s, i as int));
    }
    Ok(out)
}

} // verus!
