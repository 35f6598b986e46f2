use spark_lib::ordering::{
    morton_coord16_to_index, morton_coord24_to_index, morton_coord32_to_index,
    morton_coord64_to_index,
};

/// For a byte `b`, the 24-bit value with bit `k` of `b` at bit `3k`.
fn expand8_by_2(b: u32) -> u32 {
    let mut v = 0u32;
    let mut bit = 0u32;
    while bit < 8 {
        let one = (b >> bit) & 1;
        v |= one << (bit * 3);
        bit += 1;
    }
    v
}

fn expand3_32_table(x: u32) -> u128 {
    let b0 = expand8_by_2(x & 0xff) as u128;
    let b1 = expand8_by_2((x >> 8) & 0xff) as u128;
    let b2 = expand8_by_2((x >> 16) & 0xff) as u128;
    let b3 = expand8_by_2((x >> 24) & 0xff) as u128;
    b0 | (b1 << 24) | (b2 << 48) | (b3 << 72)
}

fn morton_coord32_to_index_table([x, y, z]: [u32; 3]) -> u128 {
    (expand3_32_table(x) << 0) | (expand3_32_table(y) << 1) | (expand3_32_table(z) << 2)
}

fn or_shift_u32_into_u192_le(out: &mut [u64; 3], v: u32, shift: u32) {
    let limb = (shift / 64) as usize;
    let off = (shift % 64) as u32;
    let v = v as u64;

    out[limb] |= v << off;
    if off != 0 && limb + 1 < 3 {
        out[limb + 1] |= v >> (64 - off);
    }
}

fn expand3_64_le_table(x: u64) -> [u64; 3] {
    let mut out = [0u64; 3];
    let mut byte = 0u32;
    while byte < 8 {
        let b = ((x >> (byte * 8)) & 0xff) as u32;
        let v = expand8_by_2(b);
        or_shift_u32_into_u192_le(&mut out, v, byte * 24);
        byte += 1;
    }
    out
}

fn shl_u192_le_table(a: [u64; 3], shift: u32) -> [u64; 3] {
    match shift {
        0 => a,
        1 => [a[0] << 1, (a[1] << 1) | (a[0] >> 63), (a[2] << 1) | (a[1] >> 63)],
        2 => [a[0] << 2, (a[1] << 2) | (a[0] >> 62), (a[2] << 2) | (a[1] >> 62)],
        _ => unreachable!("only used for 0..=2 bit shifts"),
    }
}

fn morton_coord64_to_index_table([x, y, z]: [u64; 3]) -> [u64; 3] {
    let ex = shl_u192_le_table(expand3_64_le_table(x), 0);
    let ey = shl_u192_le_table(expand3_64_le_table(y), 1);
    let ez = shl_u192_le_table(expand3_64_le_table(z), 2);

    [ex[0] | ey[0] | ez[0], ex[1] | ey[1] | ez[1], ex[2] | ey[2] | ez[2]]
}

#[test]
fn morton_coord16_hardcoded_vectors() {
    assert_eq!(morton_coord16_to_index([0, 0, 0]), 0);
    assert_eq!(morton_coord16_to_index([1, 0, 0]), 1);
    assert_eq!(morton_coord16_to_index([0, 1, 0]), 2);
    assert_eq!(morton_coord16_to_index([0, 0, 1]), 4);
    assert_eq!(morton_coord16_to_index([1, 1, 1]), 7);
    assert_eq!(morton_coord16_to_index([2, 0, 0]), 8);
    assert_eq!(morton_coord16_to_index([0, 2, 0]), 16);
    assert_eq!(morton_coord16_to_index([0, 0, 2]), 32);
    assert_eq!(morton_coord16_to_index([3, 0, 0]), 9); // x bits 0 and 1 -> positions 0 and 3
}

#[test]
fn morton_coord24_hardcoded_vectors() {
    assert_eq!(morton_coord24_to_index([0, 0, 0]), 0);
    assert_eq!(morton_coord24_to_index([1, 0, 0]), 1);
    assert_eq!(morton_coord24_to_index([0, 1, 0]), 2);
    assert_eq!(morton_coord24_to_index([0, 0, 1]), 4);
    assert_eq!(morton_coord24_to_index([1, 1, 1]), 7);

    // High-bit checks: bit 23 interleaves at positions 69/70/71.
    assert_eq!(morton_coord24_to_index([1 << 23, 0, 0]), 1u128 << 69);
    assert_eq!(morton_coord24_to_index([0, 1 << 23, 0]), 1u128 << 70);
    assert_eq!(morton_coord24_to_index([0, 0, 1 << 23]), 1u128 << 71);
}

#[test]
fn morton_coord32_hardcoded_vectors() {
    assert_eq!(morton_coord32_to_index([0, 0, 0]), 0);
    assert_eq!(morton_coord32_to_index([1, 0, 0]), 1);
    assert_eq!(morton_coord32_to_index([0, 1, 0]), 2);
    assert_eq!(morton_coord32_to_index([0, 0, 1]), 4);
    assert_eq!(morton_coord32_to_index([1, 1, 1]), 7);

    // Cross the 63/64-bit boundary of the expanded representation:
    // bit 21 interleaves at positions 63/64/65.
    assert_eq!(morton_coord32_to_index([1 << 21, 0, 0]), 1u128 << 63);
    assert_eq!(morton_coord32_to_index([0, 1 << 21, 0]), 1u128 << 64);
    assert_eq!(morton_coord32_to_index([0, 0, 1 << 21]), 1u128 << 65);

    // Top-bit: bit 31 interleaves at positions 93/94/95.
    assert_eq!(morton_coord32_to_index([1 << 31, 0, 0]), 1u128 << 93);
    assert_eq!(morton_coord32_to_index([0, 1 << 31, 0]), 1u128 << 94);
    assert_eq!(morton_coord32_to_index([0, 0, 1 << 31]), 1u128 << 95);
}

#[test]
fn morton_coord64_hardcoded_vectors() {
    assert_eq!(morton_coord64_to_index([0, 0, 0]), [0, 0, 0]);
    assert_eq!(morton_coord64_to_index([1, 0, 0]), [1, 0, 0]);
    assert_eq!(morton_coord64_to_index([0, 1, 0]), [2, 0, 0]);
    assert_eq!(morton_coord64_to_index([0, 0, 1]), [4, 0, 0]);
    assert_eq!(morton_coord64_to_index([1, 1, 1]), [7, 0, 0]);

    assert_eq!(morton_coord64_to_index([2, 0, 0]), [8, 0, 0]);
    assert_eq!(morton_coord64_to_index([0, 2, 0]), [16, 0, 0]);
    assert_eq!(morton_coord64_to_index([0, 0, 2]), [32, 0, 0]);

    // Cross limb boundary: bit 21 interleaves at 63/64/65.
    assert_eq!(morton_coord64_to_index([1u64 << 21, 0, 0]), [1u64 << 63, 0, 0]);
    assert_eq!(morton_coord64_to_index([0, 1u64 << 21, 0]), [0, 1, 0]);
    assert_eq!(morton_coord64_to_index([0, 0, 1u64 << 21]), [0, 2, 0]);

    // Top-bit: bit 63 interleaves at 189/190/191 (limb 2, offsets 61/62/63).
    assert_eq!(morton_coord64_to_index([1u64 << 63, 0, 0]), [0, 0, 1u64 << 61]);
    assert_eq!(morton_coord64_to_index([0, 1u64 << 63, 0]), [0, 0, 1u64 << 62]);
    assert_eq!(morton_coord64_to_index([0, 0, 1u64 << 63]), [0, 0, 1u64 << 63]);
    assert_eq!(
        morton_coord64_to_index([1u64 << 63, 1u64 << 63, 1u64 << 63]),
        [0, 0, (1u64 << 61) | (1u64 << 62) | (1u64 << 63)]
    );
}

#[test]
fn morton_coord32_and_64_match_table_impls() {
    // A few non-trivial mixed-bit patterns.
    let cases32: &[[u32; 3]] = &[
        [0, 0, 0],
        [1, 2, 4],
        [0xdead_beef, 0x0123_4567, 0x89ab_cdef],
        [1 << 31, 1 << 17, 1 << 3],
        [0xffff_ffff, 0, 0],
    ];
    for &c in cases32 {
        assert_eq!(morton_coord32_to_index(c), morton_coord32_to_index_table(c), "case32={:?}", c);
    }

    let cases64: &[[u64; 3]] = &[
        [0, 0, 0],
        [1, 2, 4],
        [0x0123_4567_89ab_cdef, 0xfedc_ba98_7654_3210, 0x0f0f_0f0f_0f0f_0f0f],
        [1u64 << 63, 1u64 << 21, 1u64 << 7],
        [u64::MAX, 0, 0],
    ];
    for &c in cases64 {
        assert_eq!(morton_coord64_to_index(c), morton_coord64_to_index_table(c), "case64={:?}", c);
    }
}

#[test]
fn morton_coord24_matches_coord32_on_wide_input() {
    let cases: &[[u32; 3]] = &[[0xdead_beef, 0x0123_4567, 0x89ab_cdef], [0xffff_ffff, 1 << 24, 0]];
    for &c in cases {
        assert_eq!(morton_coord24_to_index(c), morton_coord32_to_index(c));
    }
}

#[test]
fn morton_key_bits_follow_coordinates() {
    let c = [0x5a5au16, 0x0f0f, 0x8001];
    let key = morton_coord16_to_index(c);
    for k in 0..16 {
        for i in 0..3 {
            let want = (c[i] >> k) & 1;
            let got = (key >> (3 * k + i)) & 1;
            assert_eq!(got as u16, want);
        }
    }
    assert_eq!(key >> 48, 0);
}
