use spark_lib::decoder::{
    chunk_count, detect_file_type, gunzip_probe_result, try_gunzip, DecodeError, Detection,
    InvalidFileType, MultiDecoder, SplatFileType, SplatInit,
};
use spark_lib::gzip::gzip_wrap;
use spark_lib::ply::{PlyEncoder, PlyError, PlySplats};
use spark_lib::spz::{SpzEncoder, SpzSplats};

fn spz_scene(n: usize) -> SpzSplats {
    SpzSplats {
        num_splats: n,
        sh_degree: 0,
        fractional_bits: 12,
        antialias: false,
        lod_tree: false,
        centers: vec![7; 3 * n],
        alphas: vec![200; n],
        rgb: vec![10; 3 * n],
        scales: vec![20; 3 * n],
        quats: vec![128; 3 * n],
        sh1: Vec::new(),
        sh2: Vec::new(),
        sh3: Vec::new(),
        child_counts: Vec::new(),
        child_starts: Vec::new(),
    }
}

#[test]
fn file_type_names() {
    assert_eq!(SplatFileType::PLY.to_enum_str(), "ply");
    assert_eq!(SplatFileType::SPZ.to_enum_str(), "spz");
    assert_eq!(SplatFileType::from_enum_str("ply"), Ok(SplatFileType::PLY));
    assert_eq!(SplatFileType::from_enum_str("spz"), Ok(SplatFileType::SPZ));
    assert_eq!(SplatFileType::from_enum_str("PLY"), Err(InvalidFileType));
    assert_eq!(SplatFileType::from_enum_str(""), Err(InvalidFileType));
    assert_eq!(SplatFileType::from_enum_str("splat"), Err(InvalidFileType));
}

#[test]
fn file_type_of_extension_and_path() {
    assert_eq!(SplatFileType::from_extension("ply"), Some(SplatFileType::PLY));
    assert_eq!(SplatFileType::from_extension("PlY"), Some(SplatFileType::PLY));
    assert_eq!(SplatFileType::from_extension("SPZ"), Some(SplatFileType::SPZ));
    assert_eq!(SplatFileType::from_extension("spzz"), None);
    assert_eq!(SplatFileType::from_extension(""), None);
    assert_eq!(SplatFileType::from_pathname("scenes/room.v2.spz"), Some(SplatFileType::SPZ));
    assert_eq!(SplatFileType::from_pathname("room.PLY"), Some(SplatFileType::PLY));
    assert_eq!(SplatFileType::from_pathname("ply"), Some(SplatFileType::PLY));
    assert_eq!(SplatFileType::from_pathname("room.ply.gz"), None);
    assert_eq!(SplatFileType::from_pathname("room."), None);
    assert_eq!(SplatFileType::from_pathname("r\u{f6}\u{f6}m.spz"), Some(SplatFileType::SPZ));
}

#[test]
fn init_defaults_to_an_empty_scene() {
    assert_eq!(SplatInit::default(), SplatInit { num_splats: 0, max_sh_degree: 0, lod_tree: false });
}

#[test]
fn chunks_hold_at_most_16384_splats() {
    assert_eq!(chunk_count(0, 0), 0);
    assert_eq!(chunk_count(100, 40), 60);
    assert_eq!(chunk_count(16384, 0), 16384);
    assert_eq!(chunk_count(40000, 16384), 16384);
    assert_eq!(chunk_count(40000, 32768), 7232);
}

#[test]
fn probe_result_follows_the_status() {
    assert_eq!(gunzip_probe_result(-1, vec![1, 2, 3, 4], 2), Ok(Some(vec![])));
    assert_eq!(gunzip_probe_result(0, vec![1, 2, 3, 4], 3), Ok(Some(vec![1, 2, 3])));
    assert_eq!(gunzip_probe_result(2, vec![1, 2, 3, 4], 4), Ok(Some(vec![1, 2, 3, 4])));
    assert_eq!(gunzip_probe_result(1, vec![1, 2, 3, 4], 1), Ok(None));
    assert_eq!(
        gunzip_probe_result(-3, vec![1, 2, 3, 4], 0),
        Err(DecodeError::DecompressionFailed(-3))
    );
}

#[test]
fn gunzip_probe_reads_the_first_bytes() {
    let stream = gzip_wrap(b"NGSP and more");
    assert_eq!(try_gunzip(&stream, 4), Ok(Some(b"NGSP".to_vec())));
    assert_eq!(try_gunzip(&stream[..9], 4), Ok(None));
    assert_eq!(try_gunzip(&stream[..10], 4), Ok(None));
    assert_eq!(try_gunzip(b"\x1f\x8b\x07 more bytes", 4), Err(DecodeError::InvalidGzipHeader));
    let short = gzip_wrap(b"ab");
    assert_eq!(try_gunzip(&short, 4), Ok(Some(b"ab".to_vec())));
}

#[test]
fn detection_by_content_then_by_path() {
    assert_eq!(detect_file_type(b"ply", &None, Some("a.spz")), Detection::Wait);
    assert_eq!(detect_file_type(b"ply\n", &None, Some("a.spz")), Detection::Found(SplatFileType::PLY));
    let gz = [0x1f, 0x8b, 0x08, 0x00, 0x00];
    assert_eq!(detect_file_type(&gz, &None, Some("a.ply")), Detection::Wait);
    assert_eq!(
        detect_file_type(&gz, &Some(b"NGSP".to_vec()), Some("a.ply")),
        Detection::Found(SplatFileType::SPZ)
    );
    assert_eq!(
        detect_file_type(&gz, &Some(b"NGS".to_vec()), Some("a.ply")),
        Detection::Found(SplatFileType::PLY)
    );
    assert_eq!(detect_file_type(&gz, &Some(b"QQQQ".to_vec()), None), Detection::Unknown);
    assert_eq!(detect_file_type(b"abcd", &None, Some("a.SPZ")), Detection::Found(SplatFileType::SPZ));
    assert_eq!(detect_file_type(b"abcd", &None, Some("a.txt")), Detection::Unknown);
    assert_eq!(detect_file_type(b"abcd", &None, None), Detection::Unknown);
}

#[test]
fn multi_decoder_finds_ply() {
    let bytes = PlyEncoder::new(PlySplats {
        num_splats: 2,
        max_sh_degree: 0,
        values: (0..28).collect(),
    })
    .encode();
    let mut dec = MultiDecoder::new(None, None);
    let mut count = 0;
    for part in bytes.chunks(3) {
        let b = dec.push(part).unwrap();
        assert!(b.spz.is_empty());
        count += b.ply.iter().map(|p| p.count).sum::<usize>();
    }
    let b = dec.finish().unwrap();
    count += b.ply.iter().map(|p| p.count).sum::<usize>();
    assert_eq!(count, 2);
    assert_eq!(dec.file_type(), Some(SplatFileType::PLY));
}

#[test]
fn multi_decoder_finds_spz_behind_gzip() {
    let bytes = SpzEncoder::new(spz_scene(3)).encode();
    let mut dec = MultiDecoder::new(None, Some("scene.bin"));
    let mut batches = Vec::new();
    for part in bytes.chunks(5) {
        let b = dec.push(part).unwrap();
        assert!(b.ply.is_empty());
        batches.extend(b.spz);
    }
    batches.extend(dec.finish().unwrap().spz);
    assert_eq!(dec.file_type(), Some(SplatFileType::SPZ));
    assert_eq!(batches.iter().filter(|b| b.count == 3).count(), 5);
}

#[test]
fn multi_decoder_falls_back_to_the_path() {
    let mut dec = MultiDecoder::new(None, Some("scene.ply"));
    assert_eq!(dec.push(b"abcdef").err(), Some(DecodeError::Ply(PlyError::Invalid)));
    assert_eq!(dec.file_type(), Some(SplatFileType::PLY));

    let mut dec = MultiDecoder::new(None, Some("scene.txt"));
    assert_eq!(dec.push(b"abcdef").err(), Some(DecodeError::UnknownFileType));
    let mut dec = MultiDecoder::new(None, None);
    assert_eq!(dec.push(b"ab").map(|b| b.ply.len() + b.spz.len()), Ok(0));
    assert_eq!(dec.finish().err(), Some(DecodeError::UnknownFileType));
    // A gzip stream of something else, without a path that tells.
    let mut dec = MultiDecoder::new(None, None);
    assert_eq!(dec.push(&gzip_wrap(b"something else")).err(), Some(DecodeError::UnknownFileType));
}

#[test]
fn multi_decoder_of_a_given_type_does_not_look() {
    let bytes = SpzEncoder::new(spz_scene(1)).encode();
    let mut dec = MultiDecoder::new(Some(SplatFileType::SPZ), Some("scene.ply"));
    let mut n = dec.push(&bytes).unwrap().spz.len();
    n += dec.finish().unwrap().spz.len();
    assert_eq!(n, 5);
}

#[test]
fn multi_decoder_waits_for_four_bytes() {
    let mut d = MultiDecoder::new(None, None);
    let r = d.push(&[0x1f, 0x8b]).unwrap();
    assert!(r.ply.is_empty() && r.spz.is_empty());
    assert_eq!(d.file_type(), None);
    let r = d.push(&[0x08]).unwrap();
    assert!(r.ply.is_empty() && r.spz.is_empty());
    assert_eq!(d.file_type(), None);

    // Neither PLY nor gzip, and no path: the type stays unknown.
    let mut d = MultiDecoder::new(None, None);
    assert!(d.push(b"ab").is_ok());
    assert_eq!(d.push(b"cd").err(), Some(DecodeError::UnknownFileType));
    assert_eq!(d.file_type(), None);
    assert_eq!(d.finish().err(), Some(DecodeError::UnknownFileType));
}
