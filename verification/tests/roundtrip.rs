use half::f16;
use spark_lib::ply::{ply_row, PlyDecoder, PlyEncoder, PlySplats, PlyValue};
use spark_lib::spz::{quantize_sh_byte, SpzDecoder, SpzDecoderStage, SpzEncoder, SpzSplats};

const SH_C0: f32 = 0.282_094_8;

fn approx(a: f32, b: f32, eps: f32) -> bool {
    (a - b).abs() <= eps
}

/// What a scene holds for a value: the nearest half-precision float.
fn stored(v: f32) -> f32 {
    f16::from_f32(v).to_f32()
}

fn to_byte(v: f32) -> u8 {
    v.round().clamp(0.0, 255.0) as u8
}

/// One splat as an SPZ payload holds it, with twelve fraction bits.
fn spz_splat(
    center: [f32; 3],
    opacity: f32,
    rgb: [f32; 3],
    scales: [f32; 3],
    quat_xyzw: [f32; 4],
    sh1: &[f32],
    sh2: &[f32],
) -> SpzSplats {
    let sign = if quat_xyzw[3] < 0.0 { -1.0 } else { 1.0 };
    let sh_bytes = |values: &[f32], bits: u8| -> Vec<u8> {
        values.iter().map(|&v| quantize_sh_byte((stored(v) * 128.0).round() as i32, bits)).collect()
    };
    SpzSplats {
        num_splats: 1,
        sh_degree: if sh2.is_empty() { 1 } else { 2 },
        fractional_bits: 0,
        antialias: true,
        lod_tree: false,
        centers: center.iter().map(|c| (c * 4096.0).round() as i32).collect(),
        alphas: vec![to_byte(stored(opacity) * 255.0)],
        rgb: rgb.iter().map(|&c| to_byte(((stored(c) - 0.5) / (SH_C0 / 0.15) + 0.5) * 255.0)).collect(),
        scales: scales.iter().map(|&s| to_byte((stored(s.ln()) + 10.0) * 16.0)).collect(),
        quats: quat_xyzw[..3].iter().map(|&q| to_byte((sign * stored(q) + 1.0) * 127.5)).collect(),
        sh1: sh_bytes(sh1, 5),
        sh2: sh_bytes(sh2, 4),
        sh3: Vec::new(),
        child_counts: Vec::new(),
        child_starts: Vec::new(),
    }
}

/// Decodes an SPZ file of one splat and gives its degree, its number of
/// splats and its bands as the scene stores them.
fn spz_bands(encoded: &[u8]) -> (usize, usize, Vec<f32>, Vec<f32>) {
    let mut dec = SpzDecoder::new();
    let mut batches = dec.push(encoded).expect("push ok");
    batches.extend(dec.finish().expect("finish ok"));
    let header = dec.header().expect("header");
    let band = |b: usize| -> Vec<f32> {
        batches
            .iter()
            .filter(|batch| batch.stage == SpzDecoderStage::Sh)
            .flat_map(|batch| batch.sh_band(0, header.sh_degree, b).unwrap_or_default())
            .map(|byte| stored((byte as f32 - 128.0) / 128.0))
            .collect()
    };
    (header.sh_degree, header.num_splats, band(1), band(2))
}

#[test]
fn spz_roundtrip_sh_degree1_interleaving() {
    let sh1_vals: [f32; 9] = [
        0.10, 0.40, 0.70, // c0: R,G,B
        0.20, 0.50, 0.80, // c1
        0.30, 0.60, 0.90, // c2
    ];
    let splats = spz_splat(
        [0.1, 0.2, 0.3],
        0.7,
        [0.2, 0.5, 0.8],
        [0.5, 0.6, 0.7],
        [0.1, 0.2, 0.3, 0.93],
        &sh1_vals,
        &[],
    );
    assert!(splats.is_wf());

    let encoded = SpzEncoder::new(splats).with_fractional_bits(12).encode();
    let (degree, len, got, _) = spz_bands(&encoded);

    assert_eq!(degree, 1);
    assert_eq!(len, 1);
    assert_eq!(got.len(), 9);
    for i in 0..9 {
        assert!(approx(got[i], sh1_vals[i], 0.12), "sh1[{}] got={} expect={}", i, got[i], sh1_vals[i]);
    }
}

#[test]
fn spz_roundtrip_sh_degree2_interleaving() {
    let sh1_vals: [f32; 9] = [
        -0.3, 0.1, 0.4,
        0.2, -0.2, 0.5,
        0.0, 0.3, -0.1,
    ];
    let sh2_vals: [f32; 15] = [
        0.11, 0.21, 0.31,
        0.12, 0.22, 0.32,
        0.13, 0.23, 0.33,
        0.14, 0.24, 0.34,
        0.15, 0.25, 0.35,
    ];
    let splats = spz_splat(
        [0.0, 0.0, 0.0],
        0.9,
        [0.3, 0.6, 0.1],
        [0.8, 0.9, 1.0],
        [0.0, 0.0, 0.0, 1.0],
        &sh1_vals,
        &sh2_vals,
    );
    assert!(splats.is_wf());

    let encoded = SpzEncoder::new(splats).with_fractional_bits(12).encode();
    let (degree, len, got1, got2) = spz_bands(&encoded);

    assert_eq!(degree, 2);
    assert_eq!(len, 1);
    assert_eq!((got1.len(), got2.len()), (9, 15));
    for i in 0..9 {
        assert!(approx(got1[i], sh1_vals[i], 0.15), "sh1[{}] {} vs {}", i, got1[i], sh1_vals[i]);
    }
    for i in 0..15 {
        assert!(approx(got2[i], sh2_vals[i], 0.20), "sh2[{}] {} vs {}", i, got2[i], sh2_vals[i]);
    }
}

#[test]
fn ply_roundtrip_sh_degree2() {
    let center = [0.123f32, -0.456, 0.789];
    let (opacity, rgb, scales) = (0.73f32, [0.25f32, 0.6, 0.9], [0.7f32, 0.8, 0.9]);
    let quat_xyzw = [0.3f32, -0.4, 0.5, 0.7];
    let sh1_vals: [f32; 9] = [
        -0.2, 0.0, 0.2,
        0.1, 0.3, 0.5,
        -0.4, -0.1, 0.7,
    ];
    let sh2_vals: [f32; 15] = [
        0.01, 0.02, 0.03,
        0.11, 0.12, 0.13,
        0.21, 0.22, 0.23,
        0.31, 0.32, 0.33,
        0.41, 0.42, 0.43,
    ];

    // The values of the splat as a scene stores them, the spherical
    // harmonics band after band.
    let sh: Vec<u32> =
        sh1_vals.iter().chain(sh2_vals.iter()).map(|&v| stored(v).to_bits()).collect();
    let o = stored(opacity);
    let row = ply_row(
        2,
        center.map(f32::to_bits),
        rgb.map(|c| ((stored(c) - 0.5) / SH_C0).to_bits()),
        &sh,
        (o / (1.0 - o)).ln().to_bits(),
        scales.map(|s| stored(s.ln()).to_bits()),
        quat_xyzw.map(|q| stored(q).to_bits()),
    );
    assert_eq!(row.len(), 38);
    // The rotation is written w first.
    assert_eq!(row[34], stored(0.7).to_bits());
    assert_eq!(row[35], stored(0.3).to_bits());
    // f_rest_0 is the red of the first coefficient, f_rest_8 the green.
    assert_eq!(row[6], stored(-0.2).to_bits());
    assert_eq!(row[6 + 8], stored(0.0).to_bits());
    let splats = PlySplats { num_splats: 1, max_sh_degree: 2, values: row };
    assert!(splats.is_wf());

    let encoded = PlyEncoder::new(splats).encode();

    let mut dec = PlyDecoder::new();
    let mut batches = dec.push(&encoded).expect("push ok");
    batches.extend(dec.finish().expect("finish ok"));
    let layout = dec.layout().as_ref().expect("layout");

    assert_eq!(layout.max_sh_degree, 2);
    assert_eq!(dec.num_read(), 1);
    assert_eq!(batches.len(), 1);
    assert_eq!(layout.sh.len(), 24);

    let got: Vec<f32> = layout
        .sh
        .iter()
        .map(|&p| match layout.value(&batches[0].bytes, 0, p) {
            Some(PlyValue::Float(bits)) => stored(f32::from_bits(bits)),
            other => panic!("no float: {:?}", other),
        })
        .collect();
    for i in 0..9 {
        assert!(approx(got[i], sh1_vals[i], 3e-4), "sh1[{}] {} vs {}", i, got[i], sh1_vals[i]);
    }
    for i in 0..15 {
        assert!(approx(got[9 + i], sh2_vals[i], 3e-4), "sh2[{}] {} vs {}", i, got[9 + i], sh2_vals[i]);
    }
    let x = layout.value(&batches[0].bytes, 0, layout.required[0]);
    assert_eq!(x, Some(PlyValue::Float(center[0].to_bits())));
}
