use spark_lib::antisplat::{
    encode_antisplat, read_record, AntiSplatBatch, AntiSplatDecoder, AntiSplatError,
    AntiSplatRecord,
};
use spark_lib::endian::{
    read_i24_le, read_u16_le, read_u32_le, write_i24_le, write_u16_le, write_u32_le,
};
use spark_lib::ksplat::{
    encode_ksplat, ksplat_compression, read_ksplat_record, read_ksplat_value, sh_components,
    sh_source,
    KsplatBucketWalk, KsplatDecoder, KsplatError, KsplatSplats, KsplatValue,
};
use spark_lib::text::{bytes_eq, parse_decimal, split_lines, split_words, write_decimal};

#[test]
fn little_endian_numbers() {
    let mut out = Vec::new();
    write_u16_le(&mut out, 0xabcd);
    write_u32_le(&mut out, 0x0123_4567);
    write_i24_le(&mut out, -2);
    write_i24_le(&mut out, 0x12_3456);
    assert_eq!(out, vec![0xcd, 0xab, 0x67, 0x45, 0x23, 0x01, 0xfe, 0xff, 0xff, 0x56, 0x34, 0x12]);
    assert_eq!(read_u16_le(&out), 0xabcd);
    assert_eq!(read_u32_le(&out[2..]), 0x0123_4567);
    assert_eq!(read_i24_le(&out[6..]), -2);
    assert_eq!(read_i24_le(&out[9..]), 0x12_3456);
    assert_eq!(read_i24_le(&[0, 0, 0x80]), -0x80_0000);
    assert_eq!(read_i24_le(&[0xff, 0xff, 0x7f]), 0x7f_ffff);
}

#[test]
fn lines_words_and_numbers() {
    assert_eq!(split_lines(b"a\n\nb c\n"), vec![b"a".to_vec(), vec![], b"b c".to_vec(), vec![]]);
    assert_eq!(split_lines(b""), vec![Vec::<u8>::new()]);
    assert_eq!(split_words(b"  one\ttwo \r\n three"), vec![
        b"one".to_vec(),
        b"two".to_vec(),
        b"three".to_vec()
    ]);
    assert!(split_words(b" \t ").is_empty());
    assert_eq!(parse_decimal(b"0"), Some(0));
    assert_eq!(parse_decimal(b"+42"), Some(42));
    assert_eq!(parse_decimal(b"007"), Some(7));
    assert_eq!(parse_decimal(b""), None);
    assert_eq!(parse_decimal(b"+"), None);
    assert_eq!(parse_decimal(b"4 2"), None);
    assert_eq!(parse_decimal(b"-1"), None);
    assert_eq!(parse_decimal(usize::MAX.to_string().as_bytes()), Some(usize::MAX));
    let mut big = usize::MAX.to_string();
    big.push('0');
    assert_eq!(parse_decimal(big.as_bytes()), None);
    let mut out = b"n=".to_vec();
    write_decimal(&mut out, 0);
    write_decimal(&mut out, 1090);
    assert_eq!(out, b"n=01090".to_vec());
    assert!(bytes_eq(b"abc", b"abc"));
    assert!(!bytes_eq(b"abc", b"abd"));
    assert!(!bytes_eq(b"abc", b"ab"));
}

fn record(tag: u8) -> AntiSplatRecord {
    let t = tag as u32;
    AntiSplatRecord {
        center: [t, t + 1, t + 2],
        scale: [0x3f80_0000, 0x4000_0000 + t, 7],
        rgb: [tag, tag + 1, tag + 2],
        opacity: 255 - tag,
        quat: [1, 2, 3, 200],
    }
}

#[test]
fn antisplat_round_trip() {
    let records = vec![record(0), record(10), record(20)];
    let bytes = encode_antisplat(0, &records).unwrap();
    assert_eq!(bytes.len(), 96);
    // The file holds w first.
    assert_eq!(&bytes[24..32], &[0, 1, 2, 255, 200, 1, 2, 3]);
    let mut dec = AntiSplatDecoder::new();
    dec.push(&bytes[..50]);
    dec.push(&bytes[50..]);
    let (n, batches) = dec.finish().unwrap();
    assert_eq!(n, 3);
    assert_eq!(batches, vec![AntiSplatBatch { base: 0, count: 3 }]);
    for i in 0..3 {
        let r = read_record(dec.bytes(), i).unwrap();
        assert_eq!(r.center, records[i].center);
        assert_eq!(r.scale, records[i].scale);
        assert_eq!(r.rgb, records[i].rgb);
        assert_eq!(r.opacity, records[i].opacity);
        assert_eq!(r.quat, records[i].quat);
    }
    assert!(read_record(dec.bytes(), 3).is_none());
}

#[test]
fn antisplat_errors_and_batches() {
    assert_eq!(encode_antisplat(1, &[]).err(), Some(AntiSplatError::ShNotSupported));
    let mut dec = AntiSplatDecoder::new();
    dec.push(&[0u8; 33]);
    assert_eq!(dec.finish().err(), Some(AntiSplatError::InvalidSize));
    let mut dec = AntiSplatDecoder::new();
    dec.push(&vec![0u8; 32 * 70000]);
    let (n, batches) = dec.finish().unwrap();
    assert_eq!(n, 70000);
    assert_eq!(batches, vec![
        AntiSplatBatch { base: 0, count: 65536 },
        AntiSplatBatch { base: 65536, count: 4464 }
    ]);
    let dec = AntiSplatDecoder::new();
    assert_eq!(dec.finish(), Ok((0, vec![])));
}

#[test]
fn ksplat_tables() {
    assert_eq!(ksplat_compression(0).bytes_per_rotation, 16);
    assert_eq!(ksplat_compression(1).bytes_per_sh_component, 2);
    assert_eq!(ksplat_compression(2).bytes_per_sh_component, 1);
    assert_eq!(ksplat_compression(2).scale_range, 32767);
    assert_eq!([0, 1, 2, 3, 4].map(sh_components), [0, 9, 24, 45, 0]);
    let band1: Vec<usize> = (0..9).map(|d| sh_source(1, d)).collect();
    assert_eq!(band1, vec![0, 3, 6, 1, 4, 7, 2, 5, 8]);
    let band2: Vec<usize> = (0..15).map(|d| sh_source(2, d)).collect();
    assert_eq!(band2, vec![9, 14, 19, 10, 15, 20, 11, 16, 21, 12, 17, 22, 13, 18, 23]);
    let band3: Vec<usize> = (0..21).map(|d| sh_source(3, d)).collect();
    assert_eq!(band3, vec![
        24, 31, 38, 25, 32, 39, 26, 33, 40, 27, 34, 41, 28, 35, 42, 29, 36, 43, 30, 37, 44
    ]);
}

fn ksplat_scene(n: u32, degree: u16) -> KsplatSplats {
    let c = sh_components(degree as usize);
    KsplatSplats {
        num_splats: n,
        sh_degree: degree,
        min_sh: (-1.5f32).to_bits(),
        max_sh: 1.5f32.to_bits(),
        floats: (0..10 * n).map(|i| 1000 + i).collect(),
        colors: (0..4 * n).map(|i| i as u8).collect(),
        sh: (0..c as u32 * n).map(|i| 5000 + i).collect(),
    }
}

#[test]
fn ksplat_round_trip() {
    let scene = ksplat_scene(3, 1);
    assert!(scene.is_wf());
    let bytes = encode_ksplat(0, &scene).unwrap();
    assert_eq!(bytes.len(), 4096 + 1024 + 3 * (44 + 36));
    let mut dec = KsplatDecoder::new();
    dec.push(&bytes[..5000]);
    dec.push(&bytes[5000..]);
    let file = dec.finish().unwrap();
    assert_eq!(file.header.num_splats, 3);
    assert_eq!(file.header.max_section_count, 1);
    assert_eq!(file.header.compression_level, 0);
    assert_eq!(file.header.version_minor, 1);
    assert_eq!(file.header.min_sh, (-1.5f32).to_bits());
    assert_eq!(file.max_sh_degree, 1);
    assert_eq!(file.sections.len(), 1);
    let s = &file.sections[0];
    assert_eq!(s.splat_count, 3);
    assert_eq!(s.bucket_size, 3);
    assert_eq!(s.bucket_count, 1);
    assert_eq!(s.full_bucket_count, 1);
    assert_eq!(s.compression_scale_range, 1);
    assert_eq!(s.bytes_per_splat, 80);
    assert_eq!(s.data_base, 5120);
    assert_eq!(s.storage_size_bytes, 240);
    let mut walk = KsplatBucketWalk::start(s);
    for i in 0..3u32 {
        assert_eq!(walk.bucket_of(dec.bytes(), s, i), 0);
        let at = s.splat_offset(i).unwrap();
        assert_eq!(at, 5120 + 80 * i as u64);
        for k in 0..10u64 {
            assert_eq!(
                read_ksplat_value(dec.bytes(), at + 4 * k, 4),
                Some(KsplatValue::F32(1000 + 10 * i + k as u32))
            );
        }
        assert_eq!(
            read_ksplat_value(dec.bytes(), at + 40 + 3, 1),
            Some(KsplatValue::U8((4 * i + 3) as u8))
        );
        assert_eq!(
            read_ksplat_value(dec.bytes(), at + 44 + 4 * 8, 4),
            Some(KsplatValue::F32(5000 + 9 * i + 8))
        );
    }
    assert_eq!(s.splat_offset(3), None);
    assert_eq!(read_ksplat_value(dec.bytes(), bytes.len() as u64 - 1, 2), None);
    assert_eq!(
        read_ksplat_value(dec.bytes(), bytes.len() as u64 - 2, 2),
        Some(KsplatValue::F16(0x0000 | ((5000 + 26) >> 16) as u16))
    );
}

#[test]
fn ksplat_errors() {
    assert_eq!(
        encode_ksplat(1, &ksplat_scene(1, 0)).err(),
        Some(KsplatError::UnsupportedEncoderLevel(1))
    );
    let good = encode_ksplat(0, &ksplat_scene(2, 0)).unwrap();
    let mut dec = KsplatDecoder::new();
    dec.push(&good[..4095]);
    assert_eq!(dec.finish().err(), Some(KsplatError::TooSmall));
    let decode = |bytes: &[u8]| {
        let mut dec = KsplatDecoder::new();
        dec.push(bytes);
        dec.finish().map(|f| f.sections.len())
    };
    let mut bad = good.clone();
    bad[0] = 1;
    assert_eq!(decode(&bad), Err(KsplatError::UnsupportedVersion(1, 1)));
    let mut bad = good.clone();
    bad[1] = 0;
    assert_eq!(decode(&bad), Err(KsplatError::UnsupportedVersion(0, 0)));
    let mut bad = good.clone();
    bad[20] = 3;
    assert_eq!(decode(&bad), Err(KsplatError::InvalidCompressionLevel(3)));
    assert_eq!(decode(&good[..5000]), Err(KsplatError::SectionHeadersTruncated));
    assert_eq!(decode(&good[..good.len() - 1]), Err(KsplatError::Truncated));
    let mut bad = good.clone();
    bad[4096 + 12] = 9; // nine buckets in the table
    assert_eq!(decode(&bad), Err(KsplatError::BucketsOutOfBounds));
    assert_eq!(decode(&good), Ok(1));
}

#[test]
fn ksplat_walk_through_buckets_that_are_not_full() {
    // Two full buckets of two splats, then buckets of three and one.
    let mut file = vec![0u8; 4096 + 1024 + 8];
    file[1] = 1;
    file[4] = 1;
    let h = 4096;
    file[h] = 8; // splats
    file[h + 4] = 0; // room for none: no records in this test
    file[h + 8] = 2; // bucket size
    file[h + 32] = 2; // full buckets
    file[h + 36] = 2; // buckets that are not full
    file[5120] = 3;
    file[5124] = 1;
    let mut dec = KsplatDecoder::new();
    dec.push(&file);
    let parsed = dec.finish().unwrap();
    let s = &parsed.sections[0];
    assert_eq!(s.buckets_base, 5128);
    let mut walk = KsplatBucketWalk::start(s);
    let buckets: Vec<u64> = (0..8).map(|i| walk.bucket_of(dec.bytes(), s, i)).collect();
    assert_eq!(buckets, vec![0, 0, 1, 1, 2, 2, 2, 3]);
}

#[test]
fn ksplat_record_is_read_field_by_field() {
    let mut b = vec![0u8; 5164];
    b[1] = 1;
    for at in [4usize, 16, 4096, 4100] {
        b[at..at + 4].copy_from_slice(&1u32.to_le_bytes());
    }
    let floats = [1.0f32, 2.0, 3.0, 1.0, 1.0, 1.0, 0.5, -0.5, 0.5, 0.5];
    for (k, v) in floats.iter().enumerate() {
        b[5120 + 4 * k..5124 + 4 * k].copy_from_slice(&v.to_le_bytes());
    }
    b[5160..5164].copy_from_slice(&[255, 0, 0, 255]);

    let mut d = KsplatDecoder::new();
    d.push(&b);
    let file = d.finish().unwrap();
    assert_eq!(file.header.num_splats, 1);
    assert_eq!(file.max_sh_degree, 0);
    assert_eq!(file.sections.len(), 1);
    let s = &file.sections[0];
    let mut walk = KsplatBucketWalk::start(s);
    let bucket = walk.bucket_of(&b, s, 0);
    let rec = read_ksplat_record(&b, s, 0, 0, bucket).unwrap();
    let f = |v: f32| KsplatValue::F32(v.to_bits());
    assert_eq!(rec.center, [f(1.0), f(2.0), f(3.0)]);
    assert_eq!(rec.scale, [f(1.0), f(1.0), f(1.0)]);
    // Stored w, x, y, z; handed out x, y, z, w.
    assert_eq!(rec.quat_xyzw, [f(-0.5), f(0.5), f(0.5), f(0.5)]);
    assert_eq!(rec.rgba, [255, 0, 0, 255]);
    assert_eq!(rec.bucket_center, [0, 0, 0]);
    assert!(rec.sh.is_empty());
    assert!(read_ksplat_record(&b, s, 0, 1, bucket).is_none());
    assert!(read_ksplat_record(&b[..5163], s, 0, 0, bucket).is_none());
}
