//! What the container formats share: the description of a scene that a
//! decoder announces, the file types, and the detection of a file's type
//! from its first bytes.

use vstd::prelude::*;
use vstd::string::StringSliceAdditionalSpecFns;
use crate::endian::{read_u32_at, u32_le};
use crate::gzip::{
    gzip_header, inflate_run, inflate_step, parse_gzip_header, GzipHeader, Inflater, INFLATE_DONE,
    INFLATE_FAILED, INFLATE_HAS_MORE_OUTPUT, INFLATE_NEEDS_MORE_INPUT,
};
use crate::ply::{
    ply_batch_views, ply_end, ply_feed, PlyBatch, PlyBatchView, PlyDecoder, PlyDecoderView, PlyError,
    PlyLayout,
};
use crate::spz::{
    batch_views, spz_decoder_start, spz_finished, spz_pushed, SpzBatch, SpzDecoder, SpzDecoderView, SpzError, SpzHeader, SPZ_MAGIC,
};

verus! {

/// The largest number of splats that a decoder or encoder handles in one
/// batch.
pub const MAX_SPLAT_CHUNK: usize = 16384;

/// The number of splats in the next batch, when `base` of `num_splats` are
/// done.
pub fn chunk_count(num_splats: usize, base: usize) -> (count: usize)
    requires
        base <= num_splats,
    ensures
        count == if num_splats - base < 16384 {
            num_splats - base
        } else {
            16384
        },
{
    if num_splats - base < MAX_SPLAT_CHUNK {
        num_splats - base
    } else {
        MAX_SPLAT_CHUNK
    }
}

/// What a decoder knows of a scene once it has read the header.
#[derive(Debug, Clone, Copy, PartialEq, Eq, Structural)]
pub struct SplatInit {
    /// Number of splats.
    pub num_splats: usize,
    /// Highest spherical-harmonic band present, 0 to 3.
    pub max_sh_degree: usize,
    /// Whether the splats carry a LoD tree.
    pub lod_tree: bool,
}

impl Default for SplatInit {
    fn default() -> (init: Self)
        ensures
            init == (SplatInit { num_splats: 0, max_sh_degree: 0, lod_tree: false }),
    {
        SplatInit { num_splats: 0, max_sh_degree: 0, lod_tree: false }
    }
}

/// The file types that are told apart by their content or extension.
#[derive(Debug, Clone, Copy, PartialEq, Eq, Structural)]
pub enum SplatFileType {
    PLY,
    SPZ,
}

/// A name that is no file type.
#[derive(Debug, Clone, Copy, PartialEq, Eq, Structural)]
pub struct InvalidFileType;

/// The bytes of `ply`.
pub open spec fn ply_name() -> Seq<u8> {
    seq![0x70u8, 0x6c, 0x79]
}

/// The bytes of `spz`.
pub open spec fn spz_name() -> Seq<u8> {
    seq![0x73u8, 0x70, 0x7a]
}

/// An ASCII capital as its small letter; any other byte as it is.
pub open spec fn ascii_lower(b: u8) -> u8 {
    if 0x41 <= b <= 0x5a {
        (b + 0x20) as u8
    } else {
        b
    }
}

/// `s`, its ASCII capitals made small.
pub open spec fn ascii_lowered(s: Seq<u8>) -> Seq<u8> {
    Seq::new(s.len(), |i: int| ascii_lower(s[i]))
}

/// The file type that a name stands for, letter for letter.
pub open spec fn file_type_of_name(name: Seq<u8>) -> Option<SplatFileType> {
    if name == ply_name() {
        Some(SplatFileType::PLY)
    } else if name == spz_name() {
        Some(SplatFileType::SPZ)
    } else {
        None
    }
}

/// The file type that an extension stands for, in capitals or small letters.
pub open spec fn file_type_of_extension(ext: Seq<u8>) -> Option<SplatFileType> {
    file_type_of_name(ascii_lowered(ext))
}

/// What follows the last `.` of a path; the whole path where it has none.
pub open spec fn last_extension(path: Seq<u8>) -> Seq<u8>
    decreases path.len(),
{
    if path.len() == 0 {
        path
    } else if path.last() == 0x2e {
        Seq::empty()
    } else {
        last_extension(path.drop_last()).push(path.last())
    }
}

/// The extension of a path is its tail behind the last `.`.
proof fn lemma_last_extension(path: Seq<u8>, start: int)
    requires
        0 <= start <= path.len(),
        start == 0 || path[start - 1] == 0x2e,
        forall|i: int| start <= i < path.len() ==> path[i] != 0x2e,
    ensures
        last_extension(path) == path.subrange(start, path.len() as int),
    decreases path.len(),
{
    if path.len() == 0 {
        assert(path.subrange(0, 0) =~= path);
    } else if start == path.len() {
        assert(path.subrange(start, path.len() as int) =~= Seq::<u8>::empty());
    } else {
        let head = path.drop_last();
        lemma_last_extension(head, start);
        assert(head.subrange(start, head.len() as int).push(path.last()) =~= path.subrange(
            start,
            path.len() as int,
        ));
    }
}

fn lower(b: u8) -> (r: u8)
    ensures
        r == ascii_lower(b),
{
    if 0x41 <= b && b <= 0x5a {
        b + 0x20
    } else {
        b
    }
}

/// The file type that the bytes from `start` on stand for as an extension.
fn file_type_of_tail(bytes: &[u8], start: usize) -> (r: Option<SplatFileType>)
    requires
        start <= bytes@.len(),
    ensures
        r == file_type_of_extension(bytes@.subrange(start as int, bytes@.len() as int)),
{
    let ghost ext = bytes@.subrange(start as int, bytes@.len() as int);
    let ghost low = ascii_lowered(ext);
    if bytes.len() - start != 3 {
        assert(low.len() != 3);
        return None;
    }
    let a = lower(bytes[start]);
    let b = lower(bytes[start + 1]);
    let c = lower(bytes[start + 2]);
    assert(low =~= seq![a, b, c]);
    if a == 0x70 && b == 0x6c && c == 0x79 {
        assert(low =~= ply_name());
        Some(SplatFileType::PLY)
    } else if a == 0x73 && b == 0x70 && c == 0x7a {
        assert(low =~= spz_name());
        assert(low != ply_name()) by {
            assert(low[0] != ply_name()[0]);
        }
        Some(SplatFileType::SPZ)
    } else {
        assert(low != ply_name()) by {
            assert(low[0] != ply_name()[0] || low[1] != ply_name()[1] || low[2] != ply_name()[2]);
        }
        assert(low != spz_name()) by {
            assert(low[0] != spz_name()[0] || low[1] != spz_name()[1] || low[2] != spz_name()[2]);
        }
        None
    }
}

impl SplatFileType {
    /// The name of the file type.
    pub fn to_enum_str(self) -> (name: &'static str)
        ensures
            self == SplatFileType::PLY ==> name@ == "ply"@,
            self == SplatFileType::SPZ ==> name@ == "spz"@,
    {
        match self {
            SplatFileType::PLY => "ply",
            SplatFileType::SPZ => "spz",
        }
    }

    /// The file type of that name: `ply` or `spz`, in small letters.
    pub fn from_enum_str(enum_str: &str) -> (r: Result<Self, InvalidFileType>)
        ensures
            r == match file_type_of_name(enum_str.spec_bytes()) {
                Some(t) => Ok::<SplatFileType, InvalidFileType>(t),
                None => Err::<SplatFileType, InvalidFileType>(InvalidFileType),
            },
    {
        let bytes = enum_str.as_bytes();
        assert(bytes@.subrange(0, bytes@.len() as int) =~= bytes@);
        if bytes.len() != 3 {
            return Err(InvalidFileType);
        }
        let ghost name = bytes@;
        if bytes[0] == 0x70 && bytes[1] == 0x6c && bytes[2] == 0x79 {
            assert(name =~= ply_name());
            Ok(SplatFileType::PLY)
        } else if bytes[0] == 0x73 && bytes[1] == 0x70 && bytes[2] == 0x7a {
            assert(name =~= spz_name());
            assert(name != ply_name()) by {
                assert(name[0] != ply_name()[0]);
            }
            Ok(SplatFileType::SPZ)
        } else {
            assert(name != ply_name()) by {
                assert(name[0] != ply_name()[0] || name[1] != ply_name()[1] || name[2]
                    != ply_name()[2]);
            }
            assert(name != spz_name()) by {
                assert(name[0] != spz_name()[0] || name[1] != spz_name()[1] || name[2]
                    != spz_name()[2]);
            }
            Err(InvalidFileType)
        }
    }

    /// The file type of a file-name extension, whatever its case.
    pub fn from_extension(extension: &str) -> (r: Option<Self>)
        ensures
            r == file_type_of_extension(extension.spec_bytes()),
    {
        let bytes = extension.as_bytes();
        assert(bytes@.subrange(0, bytes@.len() as int) =~= bytes@);
        file_type_of_tail(bytes, 0)
    }

    /// The file type that the extension of a path stands for.
    pub fn from_pathname(pathname: &str) -> (r: Option<Self>)
        ensures
            r == file_type_of_extension(last_extension(pathname.spec_bytes())),
    {
        let bytes = pathname.as_bytes();
        let mut start: usize = bytes.len();
        while start > 0 && bytes[start - 1] != 0x2e
            invariant
                start <= bytes@.len(),
                forall|i: int| start <= i < bytes@.len() ==> bytes@[i] != 0x2e,
            decreases start,
        {
            start -= 1;
        }
        proof {
            lemma_last_extension(bytes@, start as int);
        }
        file_type_of_tail(bytes, start)
    }
}

/// Why a stream cannot be decoded.
#[derive(Debug, Clone, Copy, PartialEq, Eq, Structural)]
pub enum DecodeError {
    /// The stream is of no known type.
    UnknownFileType,
    /// The stream starts like a gzip stream and is none.
    InvalidGzipHeader,
    /// The deflate stream is broken; the status of the codec is given.
    DecompressionFailed(i8),
    /// The PLY decoder failed.
    Ply(PlyError),
    /// The SPZ decoder failed.
    Spz(SpzError),
}

/// What the first decompressed bytes of a gzip stream are, as far as the
/// codec's answer tells: a broken stream counts as one without bytes; a
/// stream that ended or filled the buffer gives the bytes written; a stream
/// that needs more input gives nothing yet; any other status is an error.
pub open spec fn probe_outcome(status: i8, out: Seq<u8>, written: nat) -> Result<
    Option<Seq<u8>>,
    DecodeError,
> {
    if status == -1 {
        Ok(Some(Seq::empty()))
    } else if status == 0 || status == 2 {
        Ok(Some(out.subrange(0, written as int)))
    } else if status == 1 {
        Ok(None)
    } else {
        Err(DecodeError::DecompressionFailed(status))
    }
}

/// A result with its bytes as plain values.
pub open spec fn probe_view(r: Result<Option<Vec<u8>>, DecodeError>) -> Result<
    Option<Seq<u8>>,
    DecodeError,
> {
    match r {
        Ok(Some(v)) => Ok(Some(v@)),
        Ok(None) => Ok(None),
        Err(e) => Err(e),
    }
}

/// What the first decompressed bytes of a gzip stream are, as far as they
/// are known: `None` while more of the stream is needed.
///
/// `status` is the status of the codec, `out` its output buffer and
/// `written` the number of bytes that it wrote.
pub fn gunzip_probe_result(status: i8, out: Vec<u8>, written: usize) -> (r: Result<
    Option<Vec<u8>>,
    DecodeError,
>)
    requires
        written <= out@.len(),
    ensures
        probe_view(r) == probe_outcome(status, out@, written as nat),
{
    if status == INFLATE_FAILED {
        let none: Vec<u8> = Vec::new();
        assert(none@ =~= Seq::<u8>::empty());
        Ok(Some(none))
    } else if status == INFLATE_DONE || status == INFLATE_HAS_MORE_OUTPUT {
        let mut out = out;
        out.truncate(written);
        Ok(Some(out))
    } else if status == INFLATE_NEEDS_MORE_INPUT {
        Ok(None)
    } else {
        Err(DecodeError::DecompressionFailed(status))
    }
}

/// The first decompressed bytes of a gzip stream, at most `room` of them:
/// an error for a stream that does not start like gzip, nothing while the
/// header or the byte behind it is missing, else what the codec makes of
/// the bytes behind the header when it starts afresh with a buffer of
/// `room` zero bytes.
pub open spec fn gunzip_head(buffer: Seq<u8>, room: nat) -> Result<Option<Seq<u8>>, DecodeError> {
    match gzip_header(buffer) {
        GzipHeader::Invalid => Err(DecodeError::InvalidGzipHeader),
        GzipHeader::Incomplete => Ok(None),
        GzipHeader::Complete(end) => if buffer.len() <= end {
            Ok(None)
        } else {
            let answer = inflate_run(
                seq![
                    (
                        buffer.subrange(end as int, buffer.len() as int),
                        Seq::new(room, |i: int| 0u8),
                        0nat,
                    ),
                ],
            );
            probe_outcome(answer.0, answer.3, answer.2)
        },
    }
}

/// Decompresses the first bytes of a gzip stream, at most `max_bytes` of
/// them. `None` while the stream at hand is too short to tell.
pub fn try_gunzip(buffer: &[u8], max_bytes: usize) -> (r: Result<Option<Vec<u8>>, DecodeError>)
    ensures
        probe_view(r) == gunzip_head(buffer@, max_bytes as nat),
        r matches Ok(Some(v)) ==> v@.len() <= max_bytes,
{
    let end = match parse_gzip_header(buffer) {
        GzipHeader::Incomplete => {
            return Ok(None);
        },
        GzipHeader::Invalid => {
            return Err(DecodeError::InvalidGzipHeader);
        },
        GzipHeader::Complete(end) => end,
    };
    if buffer.len() <= end {
        return Ok(None);
    }
    let mut out: Vec<u8> = Vec::new();
    out.resize(max_bytes, 0u8);
    assert(out@ =~= Seq::new(max_bytes as nat, |i: int| 0u8));
    let mut inflater = Inflater::new();
    let input = vstd::slice::slice_subrange(buffer, end, buffer.len());
    let (status, _consumed, written) = inflate_step(&mut inflater, input, &mut out, 0);
    proof {
        assert(inflater.calls() =~= seq![
            (
                buffer@.subrange(end as int, buffer@.len() as int),
                Seq::new(max_bytes as nat, |i: int| 0u8),
                0nat,
            ),
        ]);
    }
    gunzip_probe_result(status, out, written)
}

/// What is known of the type of a stream.
#[derive(Debug, Clone, Copy, PartialEq, Eq, Structural)]
pub enum Detection {
    /// More bytes are needed.
    Wait,
    /// The stream is of this type.
    Found(SplatFileType),
    /// The stream is of no known type.
    Unknown,
}

/// The type that a path stands for, if there is a path and it stands for
/// one.
pub open spec fn detect_by_path(path: Option<Seq<u8>>) -> Detection {
    match path {
        None => Detection::Unknown,
        Some(p) => match file_type_of_extension(last_extension(p)) {
            Some(t) => Detection::Found(t),
            None => Detection::Unknown,
        },
    }
}

/// What the first bytes of a stream tell of its type.
///
/// Four bytes are needed. A stream that starts with `ply` is PLY. A stream
/// that starts like a gzip stream is SPZ if its first four decompressed
/// bytes `probe` are `NGSP`; while they are not known, more bytes are
/// needed. Every other stream is of the type that its path stands for.
pub open spec fn detect_spec(buffer: Seq<u8>, probe: Option<Seq<u8>>, path: Option<Seq<u8>>) -> Detection {
    if buffer.len() < 4 {
        Detection::Wait
    } else if buffer[0] == 0x70 && buffer[1] == 0x6c && buffer[2] == 0x79 {
        Detection::Found(SplatFileType::PLY)
    } else if buffer[0] == 0x1f && buffer[1] == 0x8b && buffer[2] == 0x08 {
        match probe {
            None => Detection::Wait,
            Some(g) => if g.len() >= 4 && u32_le(g, 0) == SPZ_MAGIC {
                Detection::Found(SplatFileType::SPZ)
            } else {
                detect_by_path(path)
            },
        }
    } else {
        detect_by_path(path)
    }
}

/// The first decompressed bytes of a stream once the bytes `buffer` are
/// held: they are looked for when four bytes are held that start like a
/// gzip stream, unless they are known already.
pub open spec fn probe_after(probe: Option<Seq<u8>>, buffer: Seq<u8>) -> Result<
    Option<Seq<u8>>,
    DecodeError,
> {
    if buffer.len() >= 4 && buffer[0] == 0x1f && buffer[1] == 0x8b && buffer[2] == 0x08
        && probe.is_none() {
        gunzip_head(buffer, 4)
    } else {
        Ok(probe)
    }
}

/// Tells the type of a stream from its first bytes, the first decompressed
/// bytes if it is a gzip stream and they are known, and its path.
pub fn detect_file_type(buffer: &[u8], probe: &Option<Vec<u8>>, pathname: Option<&str>) -> (d:
    Detection)
    ensures
        d == detect_spec(
            buffer@,
            match *probe {
                Some(g) => Some(g@),
                None => None,
            },
            match pathname {
                Some(p) => Some(p.spec_bytes()),
                None => None,
            },
        ),
{
    if buffer.len() < 4 {
        return Detection::Wait;
    }
    if buffer[0] == 0x70 && buffer[1] == 0x6c && buffer[2] == 0x79 {
        return Detection::Found(SplatFileType::PLY);
    }
    if buffer[0] == 0x1f && buffer[1] == 0x8b && buffer[2] == 0x08 {
        match probe {
            None => {
                return Detection::Wait;
            },
            Some(g) => {
                if g.len() >= 4 && read_u32_at(g.as_slice(), 0) == SPZ_MAGIC {
                    return Detection::Found(SplatFileType::SPZ);
                }
            },
        }
    }
    match pathname {
        None => Detection::Unknown,
        Some(p) => match SplatFileType::from_pathname(p) {
            Some(t) => Detection::Found(t),
            None => Detection::Unknown,
        },
    }
}

/// The batches that a push gives: those of the decoder that is at work.
pub struct DecodedBatches {
    /// Batches of PLY records.
    pub ply: Vec<PlyBatch>,
    /// Batches of SPZ section bytes.
    pub spz: Vec<SpzBatch>,
}

/// Decodes a stream of a type that it finds out from the first bytes, or is
/// told.
pub struct MultiDecoder {
    file_type: Option<SplatFileType>,
    pathname: Option<String>,
    buffer: Vec<u8>,
    buffer_gz: Option<Vec<u8>>,
    ply: Option<PlyDecoder>,
    spz: Option<SpzDecoder>,
}

impl MultiDecoder {
    /// The type, once it is known.
    pub closed spec fn kind(&self) -> Option<SplatFileType> {
        self.file_type
    }

    /// The type, once it is known.
    pub fn file_type(&self) -> (t: Option<SplatFileType>)
        ensures
            t == self.kind(),
    {
        self.file_type
    }

    /// The bytes that are held back while the type is not known.
    pub closed spec fn held(&self) -> Seq<u8> {
        self.buffer@
    }

    /// The first decompressed bytes, if they are known.
    pub closed spec fn probe(&self) -> Option<Seq<u8>> {
        match self.buffer_gz {
            Some(g) => Some(g@),
            None => None,
        }
    }

    /// The PLY decoder, if PLY is the type.
    pub closed spec fn ply_state(&self) -> Option<PlyDecoderView> {
        match self.ply {
            Some(d) => Some(d@),
            None => None,
        }
    }

    /// The SPZ decoder, if SPZ is the type.
    pub closed spec fn spz_state(&self) -> Option<SpzDecoderView> {
        match self.spz {
            Some(d) => Some(d@),
            None => None,
        }
    }

    /// The SPZ header, if SPZ is the type and the header is read.
    pub closed spec fn spz_header_state(&self) -> Option<SpzHeader> {
        match self.spz {
            Some(d) => d@.sections.header,
            None => None,
        }
    }

    /// The layout of the PLY records, once PLY is the type and the header is
    /// read.
    pub fn ply_layout(&self) -> (l: Option<&PlyLayout>)
        ensures
            match l {
                Some(x) => self.ply_state() matches Some(v) && v.layout == Some(x@),
                None => self.ply_state() matches Some(v) ==> v.layout.is_none(),
            },
    {
        match &self.ply {
            Some(d) => match d.layout() {
                Some(l) => Some(l),
                None => None,
            },
            None => None,
        }
    }

    /// The SPZ header, once SPZ is the type and the header is read.
    pub fn spz_header(&self) -> (h: Option<SpzHeader>)
        ensures
            h == self.spz_header_state(),
    {
        match &self.spz {
            Some(d) => d.header(),
            None => None,
        }
    }

    /// The path as bytes.
    pub closed spec fn path_bytes(&self) -> Option<Seq<u8>> {
        match self.pathname {
            Some(p) => Some(vstd::utf8::encode_utf8(p@)),
            None => None,
        }
    }

    /// Whether the decoder is in a state that decoding reaches: it has the
    /// decoder of its type, and no other.
    pub closed spec fn wf(&self) -> bool {
        &&& self.file_type.is_none() ==> self.ply.is_none() && self.spz.is_none()
        &&& self.file_type == Some(SplatFileType::PLY) ==> self.ply.is_some() && self.spz.is_none()
            && self.ply.unwrap().wf()
        &&& self.file_type == Some(SplatFileType::SPZ) ==> self.spz.is_some() && self.ply.is_none()
            && self.spz.unwrap().wf()
    }

    /// A decoder for a stream of the given type, or of a type to find out,
    /// with or without a path.
    pub fn new(file_type: Option<SplatFileType>, pathname: Option<&str>) -> (d: Self)
        ensures
            d.wf(),
            d.kind() == file_type,
            d.held().len() == 0,
            d.probe().is_none(),
            d.path_bytes() == (match pathname {
                Some(p) => Some(p.spec_bytes()),
                None => None,
            }),
    {
        let (ply, spz) = match file_type {
            Some(SplatFileType::PLY) => (Some(PlyDecoder::new()), None),
            Some(SplatFileType::SPZ) => (None, Some(SpzDecoder::new())),
            None => (None, None),
        };
        let pathname = match pathname {
            Some(p) => Some(p.to_owned()),
            None => None,
        };
        MultiDecoder { file_type, pathname, buffer: Vec::new(), buffer_gz: None, ply, spz }
    }

    /// Hands bytes to the decoder of the type.
    fn push_inner(&mut self, bytes: &[u8]) -> (r: Result<DecodedBatches, DecodeError>)
        requires
            old(self).wf(),
            old(self).file_type.is_some(),
        ensures
            final(self).wf(),
            final(self).file_type == old(self).file_type,
            final(self).pathname == old(self).pathname,
            final(self).buffer == old(self).buffer,
            final(self).buffer_gz == old(self).buffer_gz,
            old(self).file_type == Some(SplatFileType::PLY) ==> match ply_feed(
                old(self).ply_state().unwrap(),
                bytes@,
            ) {
                Ok((end, batches)) => r matches Ok(b) && b.spz@.len() == 0 && ply_batch_views(b.ply@)
                    == batches && final(self).ply_state() == Some(end),
                Err(e) => r == Err::<DecodedBatches, DecodeError>(DecodeError::Ply(e)),
            },
            old(self).file_type == Some(SplatFileType::SPZ) ==> match spz_pushed(
                old(self).spz_state().unwrap(),
                bytes@,
            ) {
                Ok((end, batches)) => r matches Ok(b) && b.ply@.len() == 0 && batch_views(b.spz@)
                    == batches && final(self).spz_state() == Some(end),
                Err(e) => r == Err::<DecodedBatches, DecodeError>(DecodeError::Spz(e)),
            },
    {
        match self.file_type {
            Some(SplatFileType::PLY) => {
                let mut d = self.ply.take().unwrap();
                let r = d.push(bytes);
                self.ply = Some(d);
                match r {
                    Ok(ply) => Ok(DecodedBatches { ply, spz: Vec::new() }),
                    Err(e) => Err(DecodeError::Ply(e)),
                }
            },
            _ => {
                let mut d = self.spz.take().unwrap();
                let r = d.push(bytes);
                self.spz = Some(d);
                match r {
                    Ok(spz) => Ok(DecodedBatches { ply: Vec::new(), spz }),
                    Err(e) => Err(DecodeError::Spz(e)),
                }
            },
        }
    }

    /// Takes the next piece of the stream. While the type is not known the
    /// bytes are held back; once it is, they go to the decoder of the type,
    /// and so do all that follow.
    pub fn push(&mut self, bytes: &[u8]) -> (r: Result<DecodedBatches, DecodeError>)
        requires
            old(self).wf(),
        ensures
            final(self).wf(),
            final(self).path_bytes() == old(self).path_bytes(),
            old(self).kind().is_some() ==> final(self).kind() == old(self).kind(),
            old(self).kind() == Some(SplatFileType::PLY) ==> match ply_feed(
                old(self).ply_state().unwrap(),
                bytes@,
            ) {
                Ok((end, batches)) => r matches Ok(b) && b.spz@.len() == 0 && ply_batch_views(b.ply@)
                    == batches && final(self).ply_state() == Some(end),
                Err(e) => r == Err::<DecodedBatches, DecodeError>(DecodeError::Ply(e)),
            },
            old(self).kind() == Some(SplatFileType::SPZ) ==> match spz_pushed(
                old(self).spz_state().unwrap(),
                bytes@,
            ) {
                Ok((end, batches)) => r matches Ok(b) && b.ply@.len() == 0 && batch_views(b.spz@)
                    == batches && final(self).spz_state() == Some(end),
                Err(e) => r == Err::<DecodedBatches, DecodeError>(DecodeError::Spz(e)),
            },
            old(self).kind().is_none() ==> match probe_after(
                old(self).probe(),
                old(self).held() + bytes@,
            ) {
                Err(e) => r == Err::<DecodedBatches, DecodeError>(e) && final(self).kind().is_none(),
                Ok(probe) => match detect_spec(
                    old(self).held() + bytes@,
                    probe,
                    old(self).path_bytes(),
                ) {
                    Detection::Wait => r matches Ok(b) && b.ply@.len() == 0 && b.spz@.len() == 0
                        && final(self).kind().is_none() && final(self).held() == old(self).held()
                        + bytes@ && final(self).probe() == probe,
                    Detection::Unknown => r == Err::<DecodedBatches, DecodeError>(
                        DecodeError::UnknownFileType,
                    ) && final(self).kind().is_none(),
                    Detection::Found(t) => final(self).kind() == Some(t) && (t
                        == SplatFileType::PLY ==> match ply_feed(
                        PlyDecoderView { layout: None, next_splat: 0, buffer: Seq::empty() },
                        old(self).held() + bytes@,
                    ) {
                        Ok((end, batches)) => r matches Ok(b) && b.spz@.len() == 0
                            && ply_batch_views(b.ply@) == batches && final(self).ply_state()
                            == Some(end),
                        Err(e) => r == Err::<DecodedBatches, DecodeError>(DecodeError::Ply(e)),
                    }) && (t == SplatFileType::SPZ ==> match spz_pushed(
                        spz_decoder_start(),
                        old(self).held() + bytes@,
                    ) {
                        Ok((end, batches)) => r matches Ok(b) && b.ply@.len() == 0 && batch_views(
                            b.spz@,
                        ) == batches && final(self).spz_state() == Some(end),
                        Err(e) => r == Err::<DecodedBatches, DecodeError>(DecodeError::Spz(e)),
                    }),
                },
            },
    {
        if self.file_type.is_some() {
            return self.push_inner(bytes);
        }
        self.buffer.extend_from_slice(bytes);
        if self.buffer.len() < 4 {
            return Ok(DecodedBatches { ply: Vec::new(), spz: Vec::new() });
        }
        let gzip = self.buffer[0] == 0x1f && self.buffer[1] == 0x8b && self.buffer[2] == 0x08;
        assert(self.buffer@ == old(self).held() + bytes@);
        if gzip && self.buffer_gz.is_none() {
            match try_gunzip(self.buffer.as_slice(), 4) {
                Err(e) => {
                    return Err(e);
                },
                Ok(g) => {
                    self.buffer_gz = g;
                },
            }
        }
        let path: Option<&str> = match &self.pathname {
            Some(p) => Some(p.as_str()),
            None => None,
        };
        assert(self.path_bytes() == (match path {
            Some(p) => Some(p.spec_bytes()),
            None => None,
        }));
        assert(self.buffer@ == old(self).held() + bytes@);
        match detect_file_type(self.buffer.as_slice(), &self.buffer_gz, path) {
            Detection::Wait => Ok(DecodedBatches { ply: Vec::new(), spz: Vec::new() }),
            Detection::Unknown => Err(DecodeError::UnknownFileType),
            Detection::Found(t) => {
                self.file_type = Some(t);
                match t {
                    SplatFileType::PLY => {
                        self.ply = Some(PlyDecoder::new());
                    },
                    SplatFileType::SPZ => {
                        self.spz = Some(SpzDecoder::new());
                    },
                }
                let mut held: Vec<u8> = Vec::new();
                std::mem::swap(&mut held, &mut self.buffer);
                assert(held@ == old(self).held() + bytes@);
                assert(t == SplatFileType::PLY ==> self.ply_state() == Some(
                    PlyDecoderView { layout: None, next_splat: 0, buffer: Seq::empty() },
                )) by {
                    if t == SplatFileType::PLY {
                        assert(self.ply.unwrap()@.buffer =~= Seq::<u8>::empty());
                    }
                }
                let r = self.push_inner(held.as_slice());
                r
            },
        }
    }

    /// Ends the stream.
    pub fn finish(&mut self) -> (r: Result<DecodedBatches, DecodeError>)
        requires
            old(self).wf(),
        ensures
            final(self).wf(),
            old(self).kind().is_none() ==> r == Err::<DecodedBatches, DecodeError>(
                DecodeError::UnknownFileType,
            ),
            old(self).kind() == Some(SplatFileType::PLY) ==> match ply_end(
                old(self).ply_state().unwrap(),
            ) {
                Err(e) => r == Err::<DecodedBatches, DecodeError>(DecodeError::Ply(e)),
                Ok((end, batches)) => r matches Ok(b) && b.spz@.len() == 0 && ply_batch_views(b.ply@)
                    == batches && final(self).ply_state() == Some(end),
            },
            old(self).kind() == Some(SplatFileType::SPZ) ==> match spz_finished(
                old(self).spz_state().unwrap(),
            ) {
                Ok((end, batches)) => r matches Ok(b) && b.ply@.len() == 0 && batch_views(b.spz@)
                    == batches && final(self).spz_state() == Some(end),
                Err(e) => r == Err::<DecodedBatches, DecodeError>(DecodeError::Spz(e)),
            },
    {
        match self.file_type {
            None => Err(DecodeError::UnknownFileType),
            Some(SplatFileType::PLY) => {
                let mut d = self.ply.take().unwrap();
                let r = d.finish();
                self.ply = Some(d);
                match r {
                    Ok(ply) => Ok(DecodedBatches { ply, spz: Vec::new() }),
                    Err(e) => Err(DecodeError::Ply(e)),
                }
            },
            Some(SplatFileType::SPZ) => {
                let mut d = self.spz.take().unwrap();
                let r = d.finish();
                self.spz = Some(d);
                match r {
                    Ok(spz) => Ok(DecodedBatches { ply: Vec::new(), spz }),
                    Err(e) => Err(DecodeError::Spz(e)),
                }
            },
        }
    }
}

} // verus!
