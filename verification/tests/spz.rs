use spark_lib::gzip::{crc32, gzip_wrap, parse_gzip_header, GzipHeader};
use spark_lib::spz::{
    decode_smallest_three, parse_spz_header, quantize_sh_byte, SpzBatch, SpzDecoder,
    SpzDecoderStage, SpzEncoder, SpzError, SpzSections, SpzSplats, SPZ_MAGIC,
};

fn splats(n: usize, degree: u8, lod: bool) -> SpzSplats {
    let mut s = SpzSplats {
        num_splats: n,
        sh_degree: degree,
        fractional_bits: 12,
        antialias: true,
        lod_tree: lod,
        centers: Vec::new(),
        alphas: Vec::new(),
        rgb: Vec::new(),
        scales: Vec::new(),
        quats: Vec::new(),
        sh1: Vec::new(),
        sh2: Vec::new(),
        sh3: Vec::new(),
        child_counts: Vec::new(),
        child_starts: Vec::new(),
    };
    for i in 0..n {
        let t = i as i32;
        s.centers.extend_from_slice(&[t * 100 - 5, -t * 7, 0x7f_ffff - t]);
        s.alphas.push((i % 256) as u8);
        s.rgb.extend_from_slice(&[1, 2, (i % 250) as u8]);
        s.scales.extend_from_slice(&[10, 20, 30]);
        s.quats.extend_from_slice(&[128, 127, (i % 256) as u8]);
        if degree >= 1 {
            for k in 0..9 {
                s.sh1.push(((i * 9 + k) % 256) as u8);
            }
        }
        if degree >= 2 {
            for k in 0..15 {
                s.sh2.push((100 + (i * 15 + k) % 100) as u8);
            }
        }
        if degree >= 3 {
            for k in 0..21 {
                s.sh3.push((200 + k) as u8);
            }
        }
        if lod {
            s.child_counts.push((i % 3) as u16);
            s.child_starts.push(1000 + i as u32);
        }
    }
    s
}

fn decode_in_pieces(bytes: &[u8], piece: usize) -> Result<(SpzDecoder, Vec<SpzBatch>), SpzError> {
    let mut dec = SpzDecoder::new();
    let mut all = Vec::new();
    for part in bytes.chunks(piece) {
        all.extend(dec.push(part)?);
    }
    all.extend(dec.finish()?);
    Ok((dec, all))
}

fn section(batches: &[SpzBatch], stage: SpzDecoderStage) -> (usize, Vec<u8>) {
    let mut count = 0;
    let mut bytes = Vec::new();
    for b in batches {
        if b.stage == stage {
            assert_eq!(b.base, count);
            count += b.count;
            bytes.extend_from_slice(&b.bytes);
        }
    }
    (count, bytes)
}

#[test]
fn crc32_of_the_check_string() {
    assert_eq!(crc32(b"123456789"), 0xCBF4_3926);
    assert_eq!(crc32(b""), 0);
}

#[test]
fn gzip_header_with_all_optional_fields() {
    let mut h = vec![0x1f, 0x8b, 0x08, 0x1e, 0, 0, 0, 0, 0, 0xff];
    h.extend_from_slice(&[3, 0, 9, 9, 9]); // extra field
    h.extend_from_slice(b"name\0");
    h.extend_from_slice(b"comment\0");
    h.extend_from_slice(&[0xab, 0xcd]); // header checksum
    let end = h.len();
    assert_eq!(parse_gzip_header(&h), GzipHeader::Complete(end));
    h.push(0x42);
    assert_eq!(parse_gzip_header(&h), GzipHeader::Complete(end));
    for cut in 0..end {
        assert_eq!(parse_gzip_header(&h[..cut]), GzipHeader::Incomplete, "cut at {}", cut);
    }
    assert_eq!(parse_gzip_header(&[0x1f, 0x8b, 0x09, 0, 0, 0, 0, 0, 0, 0]), GzipHeader::Invalid);
    assert_eq!(
        parse_gzip_header(&[0x1f, 0x8b, 0x08, 0, 0, 0, 0, 0, 0, 0]),
        GzipHeader::Complete(10)
    );
}

#[test]
fn gzip_wrap_frames_the_payload() {
    let raw = b"hello hello hello hello";
    let out = gzip_wrap(raw);
    assert_eq!(&out[..10], &[0x1f, 0x8b, 0x08, 0, 0, 0, 0, 0, 0, 0xff]);
    let n = out.len();
    assert_eq!(&out[n - 8..n - 4], &crc32(raw).to_le_bytes());
    assert_eq!(&out[n - 4..], &(raw.len() as u32).to_le_bytes());
    let inflated = miniz_oxide::inflate::decompress_to_vec(&out[10..n - 8]).unwrap();
    assert_eq!(inflated, raw);
}

#[test]
fn spz_header_is_checked() {
    let mut h = Vec::new();
    h.extend_from_slice(&SPZ_MAGIC.to_le_bytes());
    h.extend_from_slice(&2u32.to_le_bytes());
    h.extend_from_slice(&7u32.to_le_bytes());
    h.extend_from_slice(&[3, 12, 0x81, 0]);
    let header = parse_spz_header(&h).unwrap();
    assert_eq!(header.version, 2);
    assert_eq!(header.num_splats, 7);
    assert_eq!(header.sh_degree, 3);
    assert_eq!(header.fractional_bits, 12);
    assert_eq!(header.flags, 0x81);
    let mut bad = h.clone();
    bad[0] = 0;
    assert_eq!(parse_spz_header(&bad), Err(SpzError::InvalidMagic(0x5053_4700)));
    let mut bad = h.clone();
    bad[4] = 4;
    assert_eq!(parse_spz_header(&bad), Err(SpzError::UnsupportedVersion(4)));
    let mut bad = h.clone();
    bad[4] = 0;
    assert_eq!(parse_spz_header(&bad), Err(SpzError::UnsupportedVersion(0)));
    let mut bad = h.clone();
    bad[12] = 4;
    assert_eq!(parse_spz_header(&bad), Err(SpzError::InvalidShDegree(4)));
}

#[test]
fn spz_without_splats_decodes_to_nothing() {
    let bytes = SpzEncoder::new(splats(0, 0, false)).encode();
    let (dec, batches) = decode_in_pieces(&bytes, 5).unwrap();
    let header = dec.header().unwrap();
    assert_eq!(header.num_splats, 0);
    assert_eq!(header.version, 2);
    for b in &batches {
        assert_eq!(b.count, 0);
        assert!(b.bytes.is_empty());
    }
}

#[test]
fn spz_round_trip_keeps_every_section() {
    let input = splats(5, 2, true);
    let bytes = SpzEncoder::new(splats(5, 2, true)).encode();
    for piece in [1usize, 7, 64, 100_000] {
        let (dec, batches) = decode_in_pieces(&bytes, piece).unwrap();
        let header = dec.header().unwrap();
        assert_eq!(header.num_splats, 5);
        assert_eq!(header.sh_degree, 2);
        assert_eq!(header.fractional_bits, 12);
        assert_eq!(header.flags, 0x81);
        let (count, _) = section(&batches, SpzDecoderStage::Centers);
        assert_eq!(count, 5);
        let mut at = 0;
        for b in batches.iter().filter(|b| b.stage == SpzDecoderStage::Centers) {
            for i in 0..b.count {
                let c = b.center_fixed(i).unwrap();
                for d in 0..3 {
                    assert_eq!(c[d], input.centers[3 * at + d].clamp(-0x7f_ffff, 0x7f_ffff));
                }
                at += 1;
            }
            assert!(b.center_fixed(b.count).is_none());
        }
        assert_eq!(section(&batches, SpzDecoderStage::Alphas), (5, input.alphas.clone()));
        assert_eq!(section(&batches, SpzDecoderStage::Rgb), (5, input.rgb.clone()));
        assert_eq!(section(&batches, SpzDecoderStage::Scales), (5, input.scales.clone()));
        assert_eq!(section(&batches, SpzDecoderStage::Quats), (5, input.quats.clone()));
        let mut splat = 0;
        for b in batches.iter().filter(|b| b.stage == SpzDecoderStage::Sh) {
            for i in 0..b.count {
                let sh1 = b.sh_band(i, 2, 1).unwrap();
                let sh2 = b.sh_band(i, 2, 2).unwrap();
                assert_eq!(sh1, input.sh1[9 * splat..9 * splat + 9]);
                assert_eq!(sh2, input.sh2[15 * splat..15 * splat + 15]);
                assert!(b.sh_band(i, 2, 3).is_none());
                splat += 1;
            }
        }
        assert_eq!(splat, 5);
        let mut node = 0;
        for b in &batches {
            for i in 0..b.count {
                if b.stage == SpzDecoderStage::ChildCounts {
                    assert_eq!(b.child_count(i), Some(input.child_counts[b.base + i]));
                    node += 1;
                }
                if b.stage == SpzDecoderStage::ChildStarts {
                    assert_eq!(b.child_start(i), Some(input.child_starts[b.base + i]));
                    node += 1;
                }
            }
        }
        assert_eq!(node, 10);
    }
}

#[test]
fn spz_encoder_limits_the_bands() {
    let bytes = SpzEncoder::new(splats(3, 3, false)).with_max_sh(1).with_fractional_bits(10).encode();
    let (dec, batches) = decode_in_pieces(&bytes, 4096).unwrap();
    let header = dec.header().unwrap();
    assert_eq!(header.sh_degree, 1);
    assert_eq!(header.fractional_bits, 10);
    assert_eq!(header.flags, 0x01);
    let (count, sh) = section(&batches, SpzDecoderStage::Sh);
    assert_eq!(count, 3);
    assert_eq!(sh, splats(3, 3, false).sh1);
    assert!(batches.iter().all(|b| b.stage != SpzDecoderStage::ChildCounts));
}

#[test]
fn spz_sections_are_cut_into_batches_of_16384() {
    let n = 40000;
    let bytes = SpzEncoder::new(splats(n, 0, false)).encode();
    let (_, batches) = decode_in_pieces(&bytes, 1 << 20).unwrap();
    let alphas: Vec<&SpzBatch> =
        batches.iter().filter(|b| b.stage == SpzDecoderStage::Alphas).collect();
    assert!(alphas.iter().all(|b| b.count <= 16384));
    assert_eq!(alphas.iter().map(|b| b.count).sum::<usize>(), n);
    assert_eq!(section(&batches, SpzDecoderStage::Alphas).1, splats(n, 0, false).alphas);
}

#[test]
fn spz_reads_a_gzip_header_with_optional_fields() {
    let bytes = SpzEncoder::new(splats(2, 1, false)).encode();
    let mut stream = vec![0x1f, 0x8b, 0x08, 0x1e, 0, 0, 0, 0, 0, 0xff];
    stream.extend_from_slice(&[2, 0, 1, 2]);
    stream.extend_from_slice(b"scene.spz\0");
    stream.extend_from_slice(b"a comment\0");
    stream.extend_from_slice(&[0, 0]);
    stream.extend_from_slice(&bytes[10..]);
    let (dec, batches) = decode_in_pieces(&stream, 3).unwrap();
    assert_eq!(dec.header().unwrap().num_splats, 2);
    assert_eq!(section(&batches, SpzDecoderStage::Rgb), (2, splats(2, 1, false).rgb));
}

#[test]
fn spz_stream_errors() {
    let mut dec = SpzDecoder::new();
    assert_eq!(dec.push(b"not a gzip stream").err(), Some(SpzError::InvalidGzipHeader));

    let bytes = SpzEncoder::new(splats(5, 0, false)).encode();
    let mut dec = SpzDecoder::new();
    dec.push(&bytes[..bytes.len() / 2]).unwrap();
    assert_eq!(dec.finish().err(), Some(SpzError::TruncatedGzip));

    let mut dec = SpzDecoder::new();
    assert_eq!(dec.finish().err(), Some(SpzError::TruncatedGzip));

    let wrong = gzip_wrap(b"QQQQsixteen bytes at least");
    let mut dec = SpzDecoder::new();
    let r = dec.push(&wrong).and_then(|_| dec.finish());
    assert_eq!(r.err(), Some(SpzError::InvalidMagic(0x5151_5151)));

    // A payload that ends within a section.
    let mut raw = Vec::new();
    raw.extend_from_slice(&SPZ_MAGIC.to_le_bytes());
    raw.extend_from_slice(&2u32.to_le_bytes());
    raw.extend_from_slice(&4u32.to_le_bytes());
    raw.extend_from_slice(&[0, 12, 0, 0]);
    raw.extend_from_slice(&[0u8; 36]); // four centers
    raw.extend_from_slice(&[1, 2]); // two of four opacities
    let mut dec = SpzDecoder::new();
    let r = dec.push(&gzip_wrap(&raw)).and_then(|_| dec.finish());
    assert_eq!(r.err(), Some(SpzError::Incomplete(SpzDecoderStage::Alphas)));

    let mut dec = SpzDecoder::new();
    let r = dec.push(&gzip_wrap(b"short")).and_then(|_| dec.finish());
    assert_eq!(r.err(), Some(SpzError::Invalid));
}

#[test]
fn sections_reader_works_on_plain_bytes() {
    let mut raw = Vec::new();
    raw.extend_from_slice(&SPZ_MAGIC.to_le_bytes());
    raw.extend_from_slice(&1u32.to_le_bytes());
    raw.extend_from_slice(&1u32.to_le_bytes());
    raw.extend_from_slice(&[0, 0, 0, 0]);
    raw.extend_from_slice(&[0x00, 0x3c, 0x00, 0x40, 0x00, 0xc0]); // halves 1, 2, -2
    raw.extend_from_slice(&[255, 1, 2, 3, 160, 160, 160, 0, 128, 255]);
    let mut r = SpzSections::new();
    let first = r.feed(&raw[..20]).unwrap();
    assert!(first.is_empty());
    assert_eq!(r.stage(), SpzDecoderStage::Centers);
    let rest = r.feed(&raw[20..]).unwrap();
    assert_eq!(rest.len(), 5);
    assert_eq!(rest[0].center_half(0), Some([0x3c00, 0x4000, 0xc000]));
    assert_eq!(rest[1].byte(0), Some(255));
    assert_eq!(rest[1].byte(1), None);
    assert_eq!(rest[2].triple(0), Some([1, 2, 3]));
    assert_eq!(rest[4].triple(0), Some([0, 128, 255]));
    assert_eq!(r.stage(), SpzDecoderStage::Done);
    assert_eq!(r.is_complete(), Ok(()));
}

#[test]
fn smallest_three_fields() {
    // Largest component 2; fields from the low bits: component 3, 1, 0.
    let comp: u32 = (2 << 30) | (0x155 << 20) | ((0x200 | 0x0aa) << 10) | 0x1ff;
    let q = decode_smallest_three(comp);
    assert_eq!(q.largest, 2);
    assert_eq!(q.magnitude, [0x155, 0x0aa, 0, 0x1ff]);
    assert_eq!(q.negative, [false, true, false, false]);
    let q = decode_smallest_three(0x200);
    assert_eq!(q.largest, 0);
    assert_eq!(q.negative, [false, false, false, true]);
    assert_eq!(q.magnitude, [0, 0, 0, 0]);
}

#[test]
fn sh_bytes_fall_into_buckets() {
    // value times 128, moved up by 128, rounded to the bucket
    assert_eq!(quantize_sh_byte(0, 5), 128);
    assert_eq!(quantize_sh_byte(3, 5), 128); // 131 -> 128
    assert_eq!(quantize_sh_byte(4, 5), 136); // 132 -> 136
    assert_eq!(quantize_sh_byte(-5, 5), 120); // 123 + 4 = 127 -> 120
    assert_eq!(quantize_sh_byte(8, 4), 144); // 136 + 8 = 144 -> 144
    assert_eq!(quantize_sh_byte(7, 4), 128); // 135 + 8 = 143 -> 128
    assert_eq!(quantize_sh_byte(200, 4), 255);
    assert_eq!(quantize_sh_byte(-200, 4), 0);
    assert_eq!(quantize_sh_byte(i32::MAX, 5), 255);
    assert_eq!(quantize_sh_byte(i32::MIN, 5), 0);
    assert_eq!(quantize_sh_byte(-3, 8), 125);
}
