use spark_lib::ply::{
    f_rest_name, f_rest_offset, parse_ply_header, PlyDecoder, PlyEncoder, PlyError, PlyProperty,
    PlyPropertyType, PlySplats, PlyValue,
};

fn header(lines: &[&str]) -> Vec<u8> {
    let mut text = String::new();
    for l in lines {
        text.push_str(l);
        text.push('\n');
    }
    text.into_bytes()
}

const REQUIRED: [&str; 14] = [
    "x", "y", "z", "f_dc_0", "f_dc_1", "f_dc_2", "opacity", "scale_0", "scale_1", "scale_2",
    "rot_0", "rot_1", "rot_2", "rot_3",
];

fn file(n: usize, names: &[String], records: &[u8]) -> Vec<u8> {
    let mut text = String::from("ply\nformat binary_little_endian 1.0\n");
    text.push_str(&format!("element vertex {}\n", n));
    for name in names {
        text.push_str(&format!("property float {}\n", name));
    }
    text.push_str("end_header\n");
    let mut bytes = text.into_bytes();
    bytes.extend_from_slice(records);
    bytes
}

fn names_with_rest(k: usize) -> Vec<String> {
    let mut names: Vec<String> = REQUIRED.iter().map(|s| s.to_string()).collect();
    for i in 0..k {
        names.push(format!("f_rest_{}", i));
    }
    names
}

#[test]
fn property_sizes() {
    assert_eq!(PlyPropertyType::Float.size(), 4);
    assert_eq!(PlyPropertyType::Uchar.size(), 1);
}

#[test]
fn f_rest_names_stand_channel_by_channel() {
    assert_eq!(f_rest_offset(0), 0);
    assert_eq!(f_rest_offset(1), 3);
    assert_eq!(f_rest_offset(2), 8);
    assert_eq!(f_rest_offset(3), 15);
    assert_eq!(f_rest_name(1, 1, 0, 0), b"f_rest_0".to_vec());
    assert_eq!(f_rest_name(1, 1, 2, 1), b"f_rest_5".to_vec());
    // degree 2 of 3, coefficient 4, blue: 15 * 2 + 3 + 4
    assert_eq!(f_rest_name(3, 2, 4, 2), b"f_rest_37".to_vec());
    assert_eq!(f_rest_name(3, 3, 6, 2), b"f_rest_44".to_vec());
}

#[test]
fn header_gives_offsets_in_order_of_declaration() {
    let text = header(&[
        "ply",
        "format binary_little_endian 1.0",
        "comment made by hand",
        "",
        "element vertex +12",
        "property float x",
        "  property   uchar\tred  ",
        "property float y\r",
    ]);
    let h = parse_ply_header(&text).unwrap();
    assert_eq!(h.num_splats, Some(12));
    assert_eq!(h.record_size, 9);
    assert_eq!(h.properties.len(), 3);
    assert_eq!(h.properties[1].name, b"red".to_vec());
    assert_eq!(h.properties[1].property, PlyProperty { ty: PlyPropertyType::Uchar, offset: 4 });
    assert_eq!(h.lookup(b"y"), Some(PlyProperty { ty: PlyPropertyType::Float, offset: 5 }));
    assert_eq!(h.lookup(b"z"), None);
}

#[test]
fn header_errors() {
    let cases: Vec<(Vec<&str>, PlyError)> = vec![
        (vec!["plx"], PlyError::InvalidHeader),
        (vec!["ply", "format ascii 1.0"], PlyError::UnsupportedFormat),
        (vec!["ply", "format binary_little_endian 1.1"], PlyError::UnsupportedVersion),
        (vec!["ply", "element face 3"], PlyError::UnsupportedElement),
        (vec!["ply", "element vertex many"], PlyError::InvalidCount),
        (vec!["ply", "element vertex -3"], PlyError::InvalidCount),
        (vec!["ply", "element vertex 99999999999999999999999999"], PlyError::InvalidCount),
        (vec!["ply", "property double x"], PlyError::UnsupportedPropertyType),
        (vec!["ply", "obj_info something"], PlyError::UnsupportedLine),
        (vec!["ply", "format binary_little_endian"], PlyError::UnsupportedLine),
        (vec!["ply", "format binary_little_endian 1.0"], PlyError::MissingCount),
    ];
    for (lines, want) in cases {
        assert_eq!(parse_ply_header(&header(&lines)).err(), Some(want), "{:?}", lines);
    }
}

#[test]
fn layout_without_f_rest_has_degree_0() {
    let bytes = file(0, &names_with_rest(0), &[]);
    let mut dec = PlyDecoder::new();
    assert!(dec.push(&bytes).unwrap().is_empty());
    assert!(dec.finish().unwrap().is_empty());
    let layout = dec.layout().as_ref().unwrap();
    assert_eq!(layout.max_sh_degree, 0);
    assert_eq!(layout.num_splats, 0);
    assert_eq!(layout.record_size, 56);
    assert!(layout.sh.is_empty());
    // x, y, z, scales, rotation as x, y, z, w, opacity, base color
    let offsets: Vec<usize> = layout.required.iter().map(|p| p.offset).collect();
    assert_eq!(offsets, vec![0, 4, 8, 28, 32, 36, 44, 48, 52, 40, 24, 12, 16, 20]);
}

#[test]
fn layout_counts_f_rest_for_the_degree() {
    for (k, degree) in [(9usize, 1usize), (24, 2), (45, 3)] {
        let bytes = file(0, &names_with_rest(k), &[]);
        let mut dec = PlyDecoder::new();
        dec.push(&bytes).unwrap();
        let layout = dec.layout().as_ref().unwrap();
        assert_eq!(layout.max_sh_degree, degree);
        assert_eq!(layout.sh.len(), k);
        // value 1 of band 1 is the green of coefficient 0
        assert_eq!(layout.sh[1].offset, 56 + 4 * (k / 3));
    }
    let mut dec = PlyDecoder::new();
    let bytes = file(0, &names_with_rest(10), &[]);
    assert_eq!(dec.push(&bytes).err(), Some(PlyError::InvalidFRestCount(10)));
}

#[test]
fn missing_property_is_named_by_its_place() {
    let mut names = names_with_rest(0);
    names.retain(|n| n != "opacity");
    let mut dec = PlyDecoder::new();
    assert_eq!(dec.push(&file(0, &names, &[])).err(), Some(PlyError::MissingProperty(10)));
    let mut names = names_with_rest(0);
    names.retain(|n| n != "rot_0");
    let mut dec = PlyDecoder::new();
    assert_eq!(dec.push(&file(0, &names, &[])).err(), Some(PlyError::MissingProperty(9)));
}

#[test]
fn stream_errors() {
    let mut dec = PlyDecoder::new();
    assert_eq!(dec.push(b"plz\nformat").err(), Some(PlyError::Invalid));
    let mut dec = PlyDecoder::new();
    assert!(dec.push(b"pl").unwrap().is_empty());
    assert_eq!(dec.finish().err(), Some(PlyError::Invalid));
    let mut dec = PlyDecoder::new();
    let mut long = b"ply\n".to_vec();
    long.resize(70000, b' ');
    assert_eq!(dec.push(&long).err(), Some(PlyError::HeaderTooLarge));
    let mut dec = PlyDecoder::new();
    assert_eq!(
        dec.push(b"ply\ncomment \xff\xfe\nend_header\n").err(),
        Some(PlyError::HeaderNotUtf8)
    );

    let record = [0u8; 56];
    let mut two = Vec::new();
    two.extend_from_slice(&record);
    two.extend_from_slice(&record);
    let mut dec = PlyDecoder::new();
    assert_eq!(dec.push(&file(1, &names_with_rest(0), &two)).err(), Some(PlyError::UnexpectedData));
    let mut dec = PlyDecoder::new();
    dec.push(&file(3, &names_with_rest(0), &two)).unwrap();
    assert_eq!(dec.finish().err(), Some(PlyError::CountMismatch(3, 2)));
    let mut dec = PlyDecoder::new();
    dec.push(&file(2, &names_with_rest(0), &two)).unwrap();
    dec.push(&[1, 2, 3]).unwrap();
    assert_eq!(dec.finish().err(), Some(PlyError::UnexpectedData));
}

#[test]
fn ply_round_trip_keeps_float_bits() {
    let degree = 2;
    let row = 14 + 24;
    let n = 3;
    let mut values = Vec::new();
    for i in 0..n * row {
        values.push((i as f32 * 0.25 - 3.0).to_bits());
    }
    let bytes =
        PlyEncoder::new(PlySplats { num_splats: n, max_sh_degree: degree, values: values.clone() })
            .encode();
    assert!(bytes.starts_with(b"ply\nformat binary_little_endian 1.0\nelement vertex 3\nproperty float x\n"));
    for piece in [1usize, 13, 1 << 20] {
        let mut dec = PlyDecoder::new();
        let mut batches = Vec::new();
        for part in bytes.chunks(piece) {
            batches.extend(dec.push(part).unwrap());
        }
        batches.extend(dec.finish().unwrap());
        assert_eq!(dec.num_read(), n);
        let layout = dec.layout().as_ref().unwrap();
        assert_eq!(layout.max_sh_degree, 2);
        assert_eq!(layout.record_size, 4 * row);
        let mut splat = 0;
        for b in &batches {
            assert_eq!(b.base, splat);
            for i in 0..b.count {
                let at = |k: usize| PlyValue::Float(values[splat * row + k]);
                // x, y, z are the first three properties written
                for d in 0..3 {
                    assert_eq!(layout.value(&b.bytes, i, layout.required[d]), Some(at(d)));
                }
                // opacity follows the base color and the 24 further coefficients
                assert_eq!(layout.value(&b.bytes, i, layout.required[10]), Some(at(6 + 24)));
                // rotation x is rot_1
                assert_eq!(layout.value(&b.bytes, i, layout.required[6]), Some(at(6 + 24 + 5)));
                // value 4 of band 1: coefficient 1, green: f_rest_(8 + 1)
                assert_eq!(layout.value(&b.bytes, i, layout.sh[4]), Some(at(6 + 9)));
                // value 2 of band 2: coefficient 0, blue: f_rest_(16 + 3)
                assert_eq!(layout.value(&b.bytes, i, layout.sh[9 + 2]), Some(at(6 + 19)));
                splat += 1;
            }
            assert_eq!(layout.value(&b.bytes, b.count, layout.required[0]), None);
        }
        assert_eq!(splat, n);
    }
}

#[test]
fn uchar_properties_are_read_as_bytes() {
    let text = header(&[
        "ply",
        "format binary_little_endian 1.0",
        "element vertex 1",
        "property uchar a",
        "property float b",
    ]);
    let h = parse_ply_header(&text).unwrap();
    assert_eq!(h.lookup(b"b").unwrap().offset, 1);
}

#[test]
fn minimal_ply_scene_round_trips_within_tolerance() {
    // One splat of degree 0, written as a PLY file would hold it.
    let center = [0.1f32, 0.2, 0.3];
    let opacity = 0.73f32;
    let rgb = [0.25f32, 0.6, 0.9];
    let scales = [0.7f32, 0.8, 0.9];
    let norm = (0.3f32 * 0.3 + 0.4 * 0.4 + 0.5 * 0.5 + 0.7 * 0.7).sqrt();
    let quat = [0.3 / norm, -0.4 / norm, 0.5 / norm, 0.7 / norm];
    let sh_c0 = 0.282_094_8f32;
    let logit = (opacity / (1.0 - opacity)).ln();
    let mut values = Vec::new();
    values.extend(center.iter().map(|v| v.to_bits()));
    values.extend(rgb.iter().map(|v| ((v - 0.5) / sh_c0).to_bits()));
    values.push(logit.to_bits());
    values.extend(scales.iter().map(|v| v.ln().to_bits()));
    // rot_0 is w
    values.extend([quat[3], quat[0], quat[1], quat[2]].iter().map(|v| v.to_bits()));
    let bytes = PlyEncoder::new(PlySplats { num_splats: 1, max_sh_degree: 0, values }).encode();

    let mut dec = PlyDecoder::new();
    let mut batches = dec.push(&bytes).unwrap();
    batches.extend(dec.finish().unwrap());
    assert_eq!(batches.len(), 1);
    let layout = dec.layout().as_ref().unwrap();
    assert_eq!(layout.max_sh_degree, 0);
    let get = |k: usize| match layout.value(&batches[0].bytes, 0, layout.required[k]).unwrap() {
        PlyValue::Float(bits) => f32::from_bits(bits),
        PlyValue::Uchar(b) => b as f32 / 255.0,
    };
    for d in 0..3 {
        assert_eq!(get(d).to_bits(), center[d].to_bits());
        assert!((get(3 + d).exp() - scales[d]).abs() <= 3e-4);
        assert!((0.5 + get(11 + d) * sh_c0 - rgb[d]).abs() <= 3e-4);
    }
    for d in 0..4 {
        assert!((get(6 + d) - quat[d]).abs() <= 3e-4);
    }
    assert!((1.0 / (1.0 + (-get(10)).exp()) - opacity).abs() <= 3e-4);
}
