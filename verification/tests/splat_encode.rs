use spark_lib::splat_encode::{
    decode_lod_tree, decode_lod_tree_children, decode_packed_splat, decode_packed_splat_center,
    decode_packed_splat_opacity, decode_packed_splat_quat, decode_packed_splat_rgb,
    decode_packed_splat_scale, decode_sh1, decode_sh2, decode_sh3, encode_lod_tree,
    encode_packed_splat, encode_packed_splat_center, encode_packed_splat_opacity,
    encode_packed_splat_quat, encode_packed_splat_rgb, encode_packed_splat_rgba,
    encode_packed_splat_scale, encode_sh1, encode_sh2, encode_sh3, get_splat_tex_size, LodNode,
};

#[test]
fn tex_size_of_no_splats_has_one_layer() {
    assert_eq!(get_splat_tex_size(0), (2048, 1, 1, 2048));
}

#[test]
fn tex_size_grows_by_rows_then_layers() {
    assert_eq!(get_splat_tex_size(1), (2048, 1, 1, 2048));
    assert_eq!(get_splat_tex_size(2048), (2048, 1, 1, 2048));
    assert_eq!(get_splat_tex_size(2049), (2048, 2, 1, 4096));
    assert_eq!(get_splat_tex_size(1 << 22), (2048, 2048, 1, 1 << 22));
    assert_eq!(get_splat_tex_size((1 << 22) + 1), (2048, 2048, 2, 1 << 23));
}

#[test]
fn lod_tree_children_are_low_half_and_last_word() {
    assert_eq!(decode_lod_tree_children(&[0, 0, 0x1234_0007, 99]), (7, 99));
    assert_eq!(decode_lod_tree_children(&[1, 2, 0xffff, 0xffff_ffff, 5]), (0xffff, 0xffff_ffff));
}

#[test]
fn packed_splat_record_layout() {
    let packed = encode_packed_splat(
        [0x1111, 0x2222, 0x3333],
        0xaa,
        [1, 2, 3],
        [4, 5, 6],
        [7, 8, 9],
    );
    assert_eq!(packed, [0xaa03_0201, 0x2222_1111, 0x0807_3333, 0x0906_0504]);
    let fields = decode_packed_splat(&packed);
    assert_eq!(fields.center, [0x1111, 0x2222, 0x3333]);
    assert_eq!(fields.opacity, 0xaa);
    assert_eq!(fields.rgb, [1, 2, 3]);
    assert_eq!(fields.scale, [4, 5, 6]);
    assert_eq!(fields.quat, [7, 8, 9]);
}

#[test]
fn packed_splat_updates_leave_other_fields() {
    let mut packed = encode_packed_splat([1, 2, 3], 4, [5, 6, 7], [8, 9, 10], [11, 12, 13]);
    encode_packed_splat_center(&mut packed, [0xfff1, 0xfff2, 0xfff3]);
    encode_packed_splat_opacity(&mut packed, 0xf4);
    assert_eq!(decode_packed_splat_center(&packed), [0xfff1, 0xfff2, 0xfff3]);
    assert_eq!(decode_packed_splat_opacity(&packed), 0xf4);
    assert_eq!(decode_packed_splat_rgb(&packed), [5, 6, 7]);
    assert_eq!(decode_packed_splat_scale(&packed), [8, 9, 10]);
    assert_eq!(decode_packed_splat_quat(&packed), [11, 12, 13]);
    encode_packed_splat_rgb(&mut packed, [0xe5, 0xe6, 0xe7]);
    encode_packed_splat_scale(&mut packed, [0xe8, 0xe9, 0xea]);
    encode_packed_splat_quat(&mut packed, [0xeb, 0xec, 0xed]);
    assert_eq!(
        packed,
        encode_packed_splat(
            [0xfff1, 0xfff2, 0xfff3],
            0xf4,
            [0xe5, 0xe6, 0xe7],
            [0xe8, 0xe9, 0xea],
            [0xeb, 0xec, 0xed]
        )
    );
    encode_packed_splat_rgba(&mut packed, [1, 1, 1], 2);
    assert_eq!(decode_packed_splat_rgb(&packed), [1, 1, 1]);
    assert_eq!(decode_packed_splat_opacity(&packed), 2);
    assert_eq!(decode_packed_splat_quat(&packed), [0xeb, 0xec, 0xed]);
}

#[test]
fn sh1_lanes_straddle_the_word_boundary() {
    // Lane 4 starts at bit 28: its low four bits end word 0, its high three start word 1.
    let mut lanes = [0i8; 9];
    lanes[4] = 0x55;
    assert_eq!(encode_sh1(&lanes), [0x5000_0000, 0x5]);
    lanes = [0i8; 9];
    lanes[0] = -1;
    assert_eq!(encode_sh1(&lanes), [0x7f, 0]);
    lanes = [0i8; 9];
    lanes[8] = 1;
    assert_eq!(encode_sh1(&lanes), [0, 1 << 24]);
}

#[test]
fn sh_lanes_round_trip() {
    let sh1 = [-63i8, 63, 0, 1, -1, 31, -32, 7, -8];
    assert_eq!(decode_sh1(&encode_sh1(&sh1)), sh1);
    let sh2 = [-127i8, 127, 0, 1, -1, 64, -64, 100, -100, 3, -3, 17, -17, 90, -128];
    assert_eq!(decode_sh2(&encode_sh2(&sh2)), sh2);
    let mut sh3 = [0i8; 21];
    for i in 0..21 {
        sh3[i] = (i as i8) - 10;
    }
    sh3[0] = -31;
    sh3[20] = 31;
    assert_eq!(decode_sh3(&encode_sh3(&sh3)), sh3);
}

#[test]
fn sh2_is_one_byte_per_lane() {
    let mut lanes = [0i8; 15];
    lanes[0] = 1;
    lanes[1] = 2;
    lanes[4] = -1;
    lanes[14] = 0x7f;
    assert_eq!(encode_sh2(&lanes), [0x0000_0201, 0x0000_00ff, 0, 0x007f_0000]);
}

#[test]
fn sh3_lanes_take_six_bits() {
    let mut lanes = [0i8; 21];
    lanes[1] = 1;
    lanes[5] = -1; // bits 30..36
    assert_eq!(encode_sh3(&lanes), [(1 << 6) | (0x3 << 30), 0xf, 0, 0]);
    // A lane that does not fit keeps its low six bits.
    lanes = [0i8; 21];
    lanes[0] = 33;
    assert_eq!(decode_sh3(&encode_sh3(&lanes))[0], -31);
}

#[test]
fn lod_node_record_layout() {
    let node = LodNode { center: [0x3c00, 0x4000, 0xbc00], size: 0x4200, child_count: 3, child_start: 70000 };
    let words = encode_lod_tree(&node);
    assert_eq!(words, [0x4000_3c00, 0x4200_bc00, 3, 70000]);
    assert_eq!(decode_lod_tree_children(&words), (3, 70000));
    let back = decode_lod_tree(&[0x4000_3c00, 0x4200_bc00, 0xabcd_0003, 70000]);
    assert_eq!(back.center, [0x3c00, 0x4000, 0xbc00]);
    assert_eq!(back.size, 0x4200);
    assert_eq!(back.child_count, 3);
    assert_eq!(back.child_start, 70000);
}
