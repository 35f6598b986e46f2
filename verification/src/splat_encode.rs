//! Field-level packing of quantized splat data: the 16-byte packed splat
//! record, bit-packed spherical-harmonic lanes, and the LoD-tree node record.
//!
//! Everything here works on integers that are already quantized. Turning a
//! real number into its quantized form, and back, is left to the caller.

use vstd::prelude::*;

verus! {

pub const SPLAT_TEX_WIDTH_BITS: usize = 11;

pub const SPLAT_TEX_HEIGHT_BITS: usize = 11;

pub const SPLAT_TEX_DEPTH_BITS: usize = 11;

pub const SPLAT_TEX_LAYER_BITS: usize = 22;

pub const SPLAT_TEX_WIDTH: usize = 2048;

pub const SPLAT_TEX_HEIGHT: usize = 2048;

pub const SPLAT_TEX_DEPTH: usize = 2048;

pub const SPLAT_TEX_MIN_HEIGHT: usize = 1;

pub const SPLAT_TEX_LAYER_SIZE: usize = 0x40_0000;

pub const SPLAT_TEX_WIDTH_MASK: usize = 2047;

pub const SPLAT_TEX_HEIGHT_MASK: usize = 2047;

pub const SPLAT_TEX_DEPTH_MASK: usize = 2047;

/// `a / b`, rounded up.
pub open spec fn div_ceil(a: nat, b: nat) -> nat {
    if a % b == 0 {
        a / b
    } else {
        a / b + 1
    }
}

/// Rows of a texture layer that `num_splats` splats need: at least one, at
/// most a full layer.
pub open spec fn tex_height(num_splats: nat) -> nat {
    let rows = div_ceil(num_splats, 2048);
    if rows < 1 {
        1
    } else if rows > 2048 {
        2048
    } else {
        rows
    }
}

/// Texture layers that `num_splats` splats need: at least one.
pub open spec fn tex_depth(num_splats: nat) -> nat {
    let layers = div_ceil(num_splats, 0x40_0000);
    if layers < 1 {
        1
    } else {
        layers
    }
}

/// Splats that the texture for `num_splats` splats can hold.
pub open spec fn tex_capacity(num_splats: nat) -> nat {
    2048 * tex_height(num_splats) * tex_depth(num_splats)
}

/// The texture always has room for the splats it was sized for, and is
/// never empty.
pub proof fn lemma_tex_capacity(num_splats: nat)
    ensures
        tex_capacity(num_splats) >= num_splats,
        tex_capacity(num_splats) >= 2048,
        tex_depth(num_splats) >= 1,
        tex_capacity(num_splats) <= num_splats + 0x3f_ffff || tex_capacity(num_splats) == 2048,
{
    let h = tex_height(num_splats);
    let d = tex_depth(num_splats);
    if num_splats > 0x40_0000 {
        assert(h == 2048);
        assert(2048 * h * d == 0x40_0000 * d) by (nonlinear_arith)
            requires
                h == 2048,
        ;
    } else {
        assert(d == 1);
        assert(2048 * h * d == 2048 * h) by (nonlinear_arith)
            requires
                d == 1,
        ;
    }
}

/// Width, height and depth of the texture that holds `num_splats` packed
/// splats, and the number of splats that it can hold.
pub fn get_splat_tex_size(num_splats: usize) -> (size: (usize, usize, usize, usize))
    requires
        num_splats + 0x3f_ffff <= usize::MAX,
    ensures
        size.0 == 2048,
        size.1 == tex_height(num_splats as nat),
        size.2 == tex_depth(num_splats as nat),
        size.3 == tex_capacity(num_splats as nat),
        size.3 >= num_splats,
        size.2 >= 1,
{
    let width = SPLAT_TEX_WIDTH;
    let rows = if num_splats % SPLAT_TEX_WIDTH == 0 {
        num_splats / SPLAT_TEX_WIDTH
    } else {
        num_splats / SPLAT_TEX_WIDTH + 1
    };
    let height = if rows < SPLAT_TEX_MIN_HEIGHT {
        SPLAT_TEX_MIN_HEIGHT
    } else if rows > SPLAT_TEX_HEIGHT {
        SPLAT_TEX_HEIGHT
    } else {
        rows
    };
    let layers = if num_splats % SPLAT_TEX_LAYER_SIZE == 0 {
        num_splats / SPLAT_TEX_LAYER_SIZE
    } else {
        num_splats / SPLAT_TEX_LAYER_SIZE + 1
    };
    let depth = if layers < 1 {
        1
    } else {
        layers
    };
    proof {
        lemma_tex_capacity(num_splats as nat);
        assert(width * height <= 0x40_0000) by (nonlinear_arith)
            requires
                width == 2048,
                height <= 2048,
        ;
        assert(2048 * height * depth == (width * height) * depth) by (nonlinear_arith)
            requires
                width == 2048,
        ;
    }
    let max_splats = width * height * depth;
    (width, height, depth, max_splats)
}

/// The child count and the first child of a LoD-tree node record: the low
/// 16 bits of its third word, and its fourth word.
pub fn decode_lod_tree_children(buffer: &[u32]) -> (children: (u16, u32))
    requires
        buffer@.len() >= 4,
    ensures
        children.0 == buffer@[2] % 0x1_0000,
        children.1 == buffer@[3],
{
    let w = buffer[2];
    assert(w & 0xffff == w % 0x1_0000) by (bit_vector);
    let child_count = (w & 0xffff) as u16;
    let child_start = buffer[3];
    (child_count, child_start)
}

/// Byte `i` of a word, the lowest byte being byte 0.
pub open spec fn word_byte(w: u32, i: int) -> u8 {
    if i == 0 {
        (w % 0x100) as u8
    } else if i == 1 {
        ((w / 0x100) % 0x100) as u8
    } else if i == 2 {
        ((w / 0x1_0000) % 0x100) as u8
    } else {
        ((w / 0x100_0000) % 0x100) as u8
    }
}

/// The low half of a word.
pub open spec fn word_low(w: u32) -> u16 {
    (w % 0x1_0000) as u16
}

/// The high half of a word.
pub open spec fn word_high(w: u32) -> u16 {
    (w / 0x1_0000) as u16
}

/// The quantized fields of a packed splat record.
pub struct PackedFields {
    /// Color, one byte per channel.
    pub rgb: [u8; 3],
    /// Opacity, one byte.
    pub opacity: u8,
    /// Center, three half-precision bit patterns.
    pub center: [u16; 3],
    /// Orientation: two bytes of octahedral axis, one byte of angle.
    pub quat: [u8; 3],
    /// Log-encoded scale, one byte per axis.
    pub scale: [u8; 3],
}

/// Color of a packed record: bytes 0, 1 and 2 of word 0.
pub open spec fn packed_rgb(p: [u32; 4]) -> Seq<u8> {
    seq![word_byte(p[0], 0), word_byte(p[0], 1), word_byte(p[0], 2)]
}

/// Opacity of a packed record: byte 3 of word 0.
pub open spec fn packed_opacity(p: [u32; 4]) -> u8 {
    word_byte(p[0], 3)
}

/// Center of a packed record: both halves of word 1, and the low half of
/// word 2.
pub open spec fn packed_center(p: [u32; 4]) -> Seq<u16> {
    seq![word_low(p[1]), word_high(p[1]), word_low(p[2])]
}

/// Orientation of a packed record: bytes 2 and 3 of word 2, and byte 3 of
/// word 3.
pub open spec fn packed_quat(p: [u32; 4]) -> Seq<u8> {
    seq![word_byte(p[2], 2), word_byte(p[2], 3), word_byte(p[3], 3)]
}

/// Scale of a packed record: bytes 0, 1 and 2 of word 3.
pub open spec fn packed_scale(p: [u32; 4]) -> Seq<u8> {
    seq![word_byte(p[3], 0), word_byte(p[3], 1), word_byte(p[3], 2)]
}

proof fn lemma_word_of_bytes(b0: u8, b1: u8, b2: u8, b3: u8)
    by (bit_vector)
    ensures
        ({
            let w = (b0 as u32) | ((b1 as u32) << 8) | ((b2 as u32) << 16) | ((b3 as u32) << 24);
            &&& w % 0x100 == b0
            &&& (w / 0x100) % 0x100 == b1
            &&& (w / 0x1_0000) % 0x100 == b2
            &&& (w / 0x100_0000) % 0x100 == b3
        }),
{
}

proof fn lemma_word_of_halves(lo: u16, hi: u16)
    by (bit_vector)
    ensures
        ({
            let w = (lo as u32) | ((hi as u32) << 16);
            &&& w % 0x1_0000 == lo
            &&& w / 0x1_0000 == hi
        }),
{
}

proof fn lemma_word_of_half_and_bytes(lo: u16, b2: u8, b3: u8)
    by (bit_vector)
    ensures
        ({
            let w = (lo as u32) | ((b2 as u32) << 16) | ((b3 as u32) << 24);
            &&& w % 0x1_0000 == lo
            &&& (w / 0x1_0000) % 0x100 == b2
            &&& (w / 0x100_0000) % 0x100 == b3
        }),
{
}

proof fn lemma_word_parts(w: u32)
    by (bit_vector)
    ensures
        w & 0xffff == w % 0x1_0000,
        w >> 16 == w / 0x1_0000,
        w & 0xff == w % 0x100,
        (w >> 8) & 0xff == (w / 0x100) % 0x100,
        (w >> 16) & 0xff == (w / 0x1_0000) % 0x100,
        w >> 24 == w / 0x100_0000,
        (w >> 24) & 0xff == (w / 0x100_0000) % 0x100,
        w & 0xffff0000 == ((w >> 16) & 0xff) << 16 | (w >> 24) << 24,
        w & 0x00ffffff == (w & 0xff) | ((w >> 8) & 0xff) << 8 | ((w >> 16) & 0xff) << 16,
        w & 0xff000000 == (w >> 24) << 24,
        w & 0x0000ffff == (w & 0xffff),
{
}

/// Packs the quantized fields of one splat into its 16-byte record.
pub fn encode_packed_splat(
    center: [u16; 3],
    opacity: u8,
    rgb: [u8; 3],
    scale: [u8; 3],
    quat: [u8; 3],
) -> (packed: [u32; 4])
    ensures
        packed_center(packed) == center@,
        packed_opacity(packed) == opacity,
        packed_rgb(packed) == rgb@,
        packed_scale(packed) == scale@,
        packed_quat(packed) == quat@,
{
    proof {
        lemma_word_of_bytes(rgb[0], rgb[1], rgb[2], opacity);
        lemma_word_of_halves(center[0], center[1]);
        lemma_word_of_half_and_bytes(center[2], quat[0], quat[1]);
        lemma_word_of_bytes(scale[0], scale[1], scale[2], quat[2]);
    }
    let packed = [
        (rgb[0] as u32) | ((rgb[1] as u32) << 8) | ((rgb[2] as u32) << 16) | ((opacity as u32)
            << 24),
        (center[0] as u32) | ((center[1] as u32) << 16),
        (center[2] as u32) | ((quat[0] as u32) << 16) | ((quat[1] as u32) << 24),
        (scale[0] as u32) | ((scale[1] as u32) << 8) | ((scale[2] as u32) << 16) | ((quat[2] as u32)
            << 24),
    ];
    assert(packed_center(packed) =~= center@);
    assert(packed_rgb(packed) =~= rgb@);
    assert(packed_scale(packed) =~= scale@);
    assert(packed_quat(packed) =~= quat@);
    packed
}

/// Unpacks the quantized fields of a 16-byte splat record.
pub fn decode_packed_splat(packed: &[u32; 4]) -> (fields: PackedFields)
    ensures
        fields.center@ == packed_center(*packed),
        fields.opacity == packed_opacity(*packed),
        fields.rgb@ == packed_rgb(*packed),
        fields.scale@ == packed_scale(*packed),
        fields.quat@ == packed_quat(*packed),
{
    proof {
        lemma_word_parts(packed[0]);
        lemma_word_parts(packed[1]);
        lemma_word_parts(packed[2]);
        lemma_word_parts(packed[3]);
    }
    let fields = PackedFields {
        rgb: [
            (packed[0] & 0xff) as u8,
            ((packed[0] >> 8) & 0xff) as u8,
            ((packed[0] >> 16) & 0xff) as u8,
        ],
        opacity: ((packed[0] >> 24) & 0xff) as u8,
        center: [
            (packed[1] & 0xffff) as u16,
            (packed[1] >> 16) as u16,
            (packed[2] & 0xffff) as u16,
        ],
        quat: [
            ((packed[2] >> 16) & 0xff) as u8,
            ((packed[2] >> 24) & 0xff) as u8,
            ((packed[3] >> 24) & 0xff) as u8,
        ],
        scale: [
            (packed[3] & 0xff) as u8,
            ((packed[3] >> 8) & 0xff) as u8,
            ((packed[3] >> 16) & 0xff) as u8,
        ],
    };
    assert(fields.center@ =~= packed_center(*packed));
    assert(fields.rgb@ =~= packed_rgb(*packed));
    assert(fields.scale@ =~= packed_scale(*packed));
    assert(fields.quat@ =~= packed_quat(*packed));
    fields
}

/// The center of a packed record, as three half-precision bit patterns.
pub fn decode_packed_splat_center(packed: &[u32; 4]) -> (center: [u16; 3])
    ensures
        center@ == packed_center(*packed),
{
    decode_packed_splat(packed).center
}

/// The opacity byte of a packed record.
pub fn decode_packed_splat_opacity(packed: &[u32; 4]) -> (opacity: u8)
    ensures
        opacity == packed_opacity(*packed),
{
    decode_packed_splat(packed).opacity
}

/// The color bytes of a packed record.
pub fn decode_packed_splat_rgb(packed: &[u32; 4]) -> (rgb: [u8; 3])
    ensures
        rgb@ == packed_rgb(*packed),
{
    decode_packed_splat(packed).rgb
}

/// The scale bytes of a packed record.
pub fn decode_packed_splat_scale(packed: &[u32; 4]) -> (scale: [u8; 3])
    ensures
        scale@ == packed_scale(*packed),
{
    decode_packed_splat(packed).scale
}

/// The orientation bytes of a packed record.
pub fn decode_packed_splat_quat(packed: &[u32; 4]) -> (quat: [u8; 3])
    ensures
        quat@ == packed_quat(*packed),
{
    decode_packed_splat(packed).quat
}

/// Replaces the center of a packed record and leaves its other fields.
pub fn encode_packed_splat_center(packed: &mut [u32; 4], center: [u16; 3])
    ensures
        packed_center(*final(packed)) == center@,
        packed_opacity(*final(packed)) == packed_opacity(*old(packed)),
        packed_rgb(*final(packed)) == packed_rgb(*old(packed)),
        packed_scale(*final(packed)) == packed_scale(*old(packed)),
        packed_quat(*final(packed)) == packed_quat(*old(packed)),
{
    let f = decode_packed_splat(packed);
    *packed = encode_packed_splat(center, f.opacity, f.rgb, f.scale, f.quat);
}

/// Replaces the opacity of a packed record and leaves its other fields.
pub fn encode_packed_splat_opacity(packed: &mut [u32; 4], opacity: u8)
    ensures
        packed_center(*final(packed)) == packed_center(*old(packed)),
        packed_opacity(*final(packed)) == opacity,
        packed_rgb(*final(packed)) == packed_rgb(*old(packed)),
        packed_scale(*final(packed)) == packed_scale(*old(packed)),
        packed_quat(*final(packed)) == packed_quat(*old(packed)),
{
    let f = decode_packed_splat(packed);
    *packed = encode_packed_splat(f.center, opacity, f.rgb, f.scale, f.quat);
}

/// Replaces the color of a packed record and leaves its other fields.
pub fn encode_packed_splat_rgb(packed: &mut [u32; 4], rgb: [u8; 3])
    ensures
        packed_center(*final(packed)) == packed_center(*old(packed)),
        packed_opacity(*final(packed)) == packed_opacity(*old(packed)),
        packed_rgb(*final(packed)) == rgb@,
        packed_scale(*final(packed)) == packed_scale(*old(packed)),
        packed_quat(*final(packed)) == packed_quat(*old(packed)),
{
    let f = decode_packed_splat(packed);
    *packed = encode_packed_splat(f.center, f.opacity, rgb, f.scale, f.quat);
}

/// Replaces color and opacity of a packed record and leaves its other
/// fields.
pub fn encode_packed_splat_rgba(packed: &mut [u32; 4], rgb: [u8; 3], opacity: u8)
    ensures
        packed_center(*final(packed)) == packed_center(*old(packed)),
        packed_opacity(*final(packed)) == opacity,
        packed_rgb(*final(packed)) == rgb@,
        packed_scale(*final(packed)) == packed_scale(*old(packed)),
        packed_quat(*final(packed)) == packed_quat(*old(packed)),
{
    let f = decode_packed_splat(packed);
    *packed = encode_packed_splat(f.center, opacity, rgb, f.scale, f.quat);
}

/// Replaces the scale of a packed record and leaves its other fields.
pub fn encode_packed_splat_scale(packed: &mut [u32; 4], scale: [u8; 3])
    ensures
        packed_center(*final(packed)) == packed_center(*old(packed)),
        packed_opacity(*final(packed)) == packed_opacity(*old(packed)),
        packed_rgb(*final(packed)) == packed_rgb(*old(packed)),
        packed_scale(*final(packed)) == scale@,
        packed_quat(*final(packed)) == packed_quat(*old(packed)),
{
    let f = decode_packed_splat(packed);
    *packed = encode_packed_splat(f.center, f.opacity, f.rgb, scale, f.quat);
}

/// Replaces the orientation of a packed record and leaves its other fields.
pub fn encode_packed_splat_quat(packed: &mut [u32; 4], quat: [u8; 3])
    ensures
        packed_center(*final(packed)) == packed_center(*old(packed)),
        packed_opacity(*final(packed)) == packed_opacity(*old(packed)),
        packed_rgb(*final(packed)) == packed_rgb(*old(packed)),
        packed_scale(*final(packed)) == packed_scale(*old(packed)),
        packed_quat(*final(packed)) == quat@,
{
    let f = decode_packed_splat(packed);
    *packed = encode_packed_splat(f.center, f.opacity, f.rgb, f.scale, quat);
}

/// The lane that stands for `v` among `radix` lane values: `v` itself where
/// it is not negative, `v + radix` where it is (two's complement).
pub open spec fn lane_of(v: int, radix: nat) -> nat {
    (v % radix as int) as nat
}

/// The signed value that a lane stands for: the lanes from `radix / 2` on
/// are the negative ones.
pub open spec fn lane_signed(d: nat, radix: nat) -> int {
    if 2 * d >= radix {
        d - radix
    } else {
        d as int
    }
}

/// The lanes of a row of signed values.
pub open spec fn lane_digits(values: Seq<i8>, radix: nat) -> Seq<nat> {
    Seq::new(values.len(), |j: int| lane_of(values[j] as int, radix))
}

/// The number whose digits in base `radix` are the lanes from index `from`
/// on, the first of them the lowest digit.
pub open spec fn lanes_value(lanes: Seq<nat>, radix: nat, from: int) -> nat
    decreases lanes.len() - from,
{
    if from < 0 || from >= lanes.len() {
        0
    } else {
        lanes[from] + radix * lanes_value(lanes, radix, from + 1)
    }
}

/// Digit `i` of `value` in base `radix`.
pub open spec fn lane_at(value: nat, radix: nat, i: nat) -> nat
    decreases i,
{
    if i == 0 {
        value % radix
    } else {
        lane_at(value / radix, radix, (i - 1) as nat)
    }
}

/// `radix` to the power `n`.
pub open spec fn radix_pow(radix: nat, n: nat) -> nat
    decreases n,
{
    if n == 0 {
        1
    } else {
        radix * radix_pow(radix, (n - 1) as nat)
    }
}

/// The number that words hold, the first word lowest.
pub open spec fn words_value(words: Seq<u32>) -> nat
    decreases words.len(),
{
    if words.len() == 0 {
        0
    } else {
        words[0] as nat + 0x1_0000_0000 * words_value(words.drop_first())
    }
}

/// Packed lanes read back as they were written.
pub proof fn lemma_lane_at_value(lanes: Seq<nat>, radix: nat, from: int, i: nat)
    requires
        radix > 0,
        0 <= from,
        from + i < lanes.len(),
        forall|j: int| 0 <= j < lanes.len() ==> lanes[j] < radix,
    ensures
        lane_at(lanes_value(lanes, radix, from), radix, i) == lanes[from + i],
    decreases i,
{
    let rest = lanes_value(lanes, radix, from + 1);
    let v = lanes_value(lanes, radix, from);
    let d = lanes[from];
    assert(v == d + radix * rest);
    assert(v % radix == d && v / radix == rest) by (nonlinear_arith)
        requires
            v == d + radix * rest,
            d < radix,
            radix > 0,
    ;
    if i > 0 {
        lemma_lane_at_value(lanes, radix, from + 1, (i - 1) as nat);
    }
}

/// A signed value that fits a lane is the signed reading of its lane.
pub proof fn lemma_lane_signed_of(v: int, radix: nat)
    requires
        radix > 0,
        radix % 2 == 0,
        -(radix / 2) <= v < radix / 2,
    ensures
        lane_signed(lane_of(v, radix), radix) == v,
{
    let r = radix as int;
    if v < 0 {
        assert((v + r) % r == v + r && v % r == (v + r) % r) by (nonlinear_arith)
            requires
                0 <= v + r < r,
        ;
    } else {
        assert(v % r == v) by (nonlinear_arith)
            requires
                0 <= v < r,
        ;
    }
}

/// Signed values that fit their lanes come back from the packed number as
/// they went in.
pub proof fn lemma_sh_lanes_roundtrip(values: Seq<i8>, radix: nat, i: int)
    requires
        radix > 0,
        radix % 2 == 0,
        0 <= i < values.len(),
        forall|j: int| 0 <= j < values.len() ==> -(radix / 2) <= #[trigger] values[j] < radix / 2,
    ensures
        lane_signed(
            lane_at(lanes_value(lane_digits(values, radix), radix, 0), radix, i as nat),
            radix,
        ) == values[i],
{
    let lanes = lane_digits(values, radix);
    assert forall|j: int| 0 <= j < lanes.len() implies lanes[j] < radix by {
        assert(lanes[j] == lane_of(values[j] as int, radix));
        assert((values[j] as int) % (radix as int) < radix) by (nonlinear_arith)
            requires
                radix > 0,
        ;
    }
    lemma_lane_at_value(lanes, radix, 0, i as nat);
    lemma_lane_signed_of(values[i] as int, radix);
}

proof fn lemma_lanes_value_below(lanes: Seq<nat>, radix: nat, from: int)
    requires
        radix > 0,
        0 <= from <= lanes.len(),
        forall|j: int| 0 <= j < lanes.len() ==> lanes[j] < radix,
    ensures
        lanes_value(lanes, radix, from) < radix_pow(radix, (lanes.len() - from) as nat),
    decreases lanes.len() - from,
{
    if from < lanes.len() {
        lemma_lanes_value_below(lanes, radix, from + 1);
        let rest = lanes_value(lanes, radix, from + 1);
        let top = radix_pow(radix, (lanes.len() - from - 1) as nat);
        assert(lanes[from] + radix * rest < radix * top) by (nonlinear_arith)
            requires
                lanes[from] < radix,
                rest < top,
        ;
    }
}

proof fn lemma_radix_pow_mono(radix: nat, a: nat, b: nat)
    requires
        radix >= 1,
        a <= b,
    ensures
        radix_pow(radix, a) <= radix_pow(radix, b),
    decreases b - a,
{
    if a < b {
        lemma_radix_pow_mono(radix, a, (b - 1) as nat);
        let x = radix_pow(radix, (b - 1) as nat);
        assert(x <= radix * x) by (nonlinear_arith)
            requires
                radix >= 1,
        ;
    }
}

proof fn lemma_pack_step(digits: Seq<nat>, radix: nat, i: int, acc: nat)
    requires
        0 <= i < digits.len(),
        radix >= 1,
        acc == lanes_value(digits, radix, i + 1),
        acc < radix_pow(radix, (digits.len() - i - 1) as nat),
        digits[i] < radix,
    ensures
        digits[i] + radix * acc == lanes_value(digits, radix, i),
        acc * radix + digits[i] < radix_pow(radix, (digits.len() - i) as nat),
        radix_pow(radix, (digits.len() - i) as nat) <= radix_pow(radix, digits.len()),
{
    let below = radix_pow(radix, (digits.len() - i - 1) as nat);
    assert(radix_pow(radix, (digits.len() - i) as nat) == radix * below);
    assert(acc * radix + digits[i] < radix * below) by (nonlinear_arith)
        requires
            acc < below,
            digits[i] < radix,
    ;
    lemma_radix_pow_mono(radix, (digits.len() - i) as nat, digits.len());
}

proof fn lemma_radix_pow_top()
    ensures
        radix_pow(128, 9) == 0x8000_0000_0000_0000,
        radix_pow(256, 15) == 0x100_0000_0000_0000_0000_0000_0000_0000,
        radix_pow(64, 21) == 0x4000_0000_0000_0000_0000_0000_0000_0000,
{
    assert(radix_pow(128, 0) == 0x1);
    assert(radix_pow(128, 1) == 0x80);
    assert(radix_pow(128, 2) == 0x4000);
    assert(radix_pow(128, 3) == 0x200000);
    assert(radix_pow(128, 4) == 0x10000000);
    assert(radix_pow(128, 5) == 0x800000000);
    assert(radix_pow(128, 6) == 0x40000000000);
    assert(radix_pow(128, 7) == 0x2000000000000);
    assert(radix_pow(128, 8) == 0x100000000000000);
    assert(radix_pow(128, 9) == 0x8000000000000000);
    assert(radix_pow(256, 0) == 0x1);
    assert(radix_pow(256, 1) == 0x100);
    assert(radix_pow(256, 2) == 0x10000);
    assert(radix_pow(256, 3) == 0x1000000);
    assert(radix_pow(256, 4) == 0x100000000);
    assert(radix_pow(256, 5) == 0x10000000000);
    assert(radix_pow(256, 6) == 0x1000000000000);
    assert(radix_pow(256, 7) == 0x100000000000000);
    assert(radix_pow(256, 8) == 0x10000000000000000);
    assert(radix_pow(256, 9) == 0x1000000000000000000);
    assert(radix_pow(256, 10) == 0x100000000000000000000);
    assert(radix_pow(256, 11) == 0x10000000000000000000000);
    assert(radix_pow(256, 12) == 0x1000000000000000000000000);
    assert(radix_pow(256, 13) == 0x100000000000000000000000000);
    assert(radix_pow(256, 14) == 0x10000000000000000000000000000);
    assert(radix_pow(256, 15) == 0x1000000000000000000000000000000);
    assert(radix_pow(64, 0) == 0x1);
    assert(radix_pow(64, 1) == 0x40);
    assert(radix_pow(64, 2) == 0x1000);
    assert(radix_pow(64, 3) == 0x40000);
    assert(radix_pow(64, 4) == 0x1000000);
    assert(radix_pow(64, 5) == 0x40000000);
    assert(radix_pow(64, 6) == 0x1000000000);
    assert(radix_pow(64, 7) == 0x40000000000);
    assert(radix_pow(64, 8) == 0x1000000000000);
    assert(radix_pow(64, 9) == 0x40000000000000);
    assert(radix_pow(64, 10) == 0x1000000000000000);
    assert(radix_pow(64, 11) == 0x40000000000000000);
    assert(radix_pow(64, 12) == 0x1000000000000000000);
    assert(radix_pow(64, 13) == 0x40000000000000000000);
    assert(radix_pow(64, 14) == 0x1000000000000000000000);
    assert(radix_pow(64, 15) == 0x40000000000000000000000);
    assert(radix_pow(64, 16) == 0x1000000000000000000000000);
    assert(radix_pow(64, 17) == 0x40000000000000000000000000);
    assert(radix_pow(64, 18) == 0x1000000000000000000000000000);
    assert(radix_pow(64, 19) == 0x40000000000000000000000000000);
    assert(radix_pow(64, 20) == 0x1000000000000000000000000000000);
    assert(radix_pow(64, 21) == 0x40000000000000000000000000000000);
}

/// The lane of a signed byte among 64, 128 or 256 lane values.
fn lane_digit(v: i8, radix: u16) -> (d: u16)
    requires
        radix == 64 || radix == 128 || radix == 256,
    ensures
        d == lane_of(v as int, radix as nat),
        d < radix,
{
    let b: u16 = if v >= 0 {
        v as u16
    } else {
        (v as i16 + 256) as u16
    };
    b % radix
}

/// The signed value of a lane among `radix` lane values.
fn lane_value(d: u16, radix: u16) -> (v: i8)
    requires
        radix == 64 || radix == 128 || radix == 256,
        d < radix,
    ensures
        v == lane_signed(d as nat, radix as nat),
{
    if 2 * d >= radix {
        (d as i16 - radix as i16) as i8
    } else {
        d as i8
    }
}

proof fn lemma_words_value2(w: [u32; 2])
    ensures
        words_value(w@) == w[0] + 0x1_0000_0000 * w[1],
{
    reveal_with_fuel(words_value, 3);
    assert(w@.drop_first()[0] == w[1]);
    assert(w@.drop_first().drop_first().len() == 0);
}

proof fn lemma_words_value4(w: [u32; 4])
    ensures
        words_value(w@) == w[0] + 0x1_0000_0000 * (w[1] + 0x1_0000_0000 * (w[2] + 0x1_0000_0000
            * w[3])),
{
    reveal_with_fuel(words_value, 5);
    let a = w@.drop_first();
    let b = a.drop_first();
    let c = b.drop_first();
    assert(a[0] == w[1] && b[0] == w[2] && c[0] == w[3]);
    assert(c.drop_first().len() == 0);
}

/// Packs the nine signed 7-bit lanes of SH band 1 into two words: lane `i`
/// starts at bit `7i`.
pub fn encode_sh1(lanes: &[i8; 9]) -> (words: [u32; 2])
    ensures
        words_value(words@) == lanes_value(lane_digits(lanes@, 128), 128, 0),
{
    let ghost digits = lane_digits(lanes@, 128);
    let mut acc: u64 = 0;
    let mut i: usize = 9;
    while i > 0
        invariant
            i <= 9,
            digits.len() == 9,
            digits == lane_digits(lanes@, 128),
            acc == lanes_value(digits, 128, i as int),
            acc < radix_pow(128, (9 - i) as nat),
        decreases i,
    {
        i = i - 1;
        let d = lane_digit(lanes[i], 128);
        proof {
            lemma_radix_pow_top();
            lemma_pack_step(digits, 128, i as int, acc as nat);
        }
        acc = acc * 128 + d as u64;
    }
    let words = [(acc % 0x1_0000_0000) as u32, (acc / 0x1_0000_0000) as u32];
    proof {
        lemma_words_value2(words);
    }
    words
}

/// Unpacks the nine signed 7-bit lanes of SH band 1.
pub fn decode_sh1(words: &[u32; 2]) -> (lanes: [i8; 9])
    ensures
        forall|i: int|
            0 <= i < 9 ==> lanes[i] == lane_signed(
                lane_at(words_value(words@), 128, i as nat),
                128,
            ),
{
    let ghost value = words_value(words@);
    proof {
        lemma_words_value2(*words);
    }
    let mut acc: u64 = words[0] as u64 + 0x1_0000_0000 * (words[1] as u64);
    let mut lanes = [0i8;9];
    let mut i: usize = 0;
    while i < 9
        invariant
            i <= 9,
            forall|j: nat| lane_at(value, 128, i as nat + j) == #[trigger] lane_at(acc as nat, 128, j),
            forall|k: int|
                0 <= k < i ==> lanes[k] == lane_signed(lane_at(value, 128, k as nat), 128),
        decreases 9 - i,
    {
        let d = (acc % 128) as u16;
        let ghost prev = acc;
        assert(lane_at(prev as nat, 128, 0) == d);
        acc = acc / 128;
        assert forall|j: nat| lane_at(value, 128, (i + 1) as nat + j) == #[trigger] lane_at(
            acc as nat,
            128,
            j,
        ) by {
            assert(lane_at(prev as nat, 128, j + 1) == lane_at(acc as nat, 128, j));
        }
        lanes[i] = lane_value(d, 128);
        i = i + 1;
    }
    lanes
}

/// Packs the 15 signed 8-bit lanes of SH band 2 into four words: lane
/// `i` starts at bit `8i`.
pub fn encode_sh2(lanes: &[i8; 15]) -> (words: [u32; 4])
    ensures
        words_value(words@) == lanes_value(lane_digits(lanes@, 256), 256, 0),
{
    let ghost digits = lane_digits(lanes@, 256);
    let mut acc: u128 = 0;
    let mut i: usize = 15;
    while i > 0
        invariant
            i <= 15,
            digits.len() == 15,
            digits == lane_digits(lanes@, 256),
            acc == lanes_value(digits, 256, i as int),
            acc < radix_pow(256, (15 - i) as nat),
        decreases i,
    {
        i = i - 1;
        let d = lane_digit(lanes[i], 256);
        proof {
            lemma_radix_pow_top();
            lemma_pack_step(digits, 256, i as int, acc as nat);
        }
        acc = acc * 256 + d as u128;
    }
    let q1 = acc / 0x1_0000_0000;
    let q2 = q1 / 0x1_0000_0000;
    let q3 = q2 / 0x1_0000_0000;
    let words = [
        (acc % 0x1_0000_0000) as u32,
        (q1 % 0x1_0000_0000) as u32,
        (q2 % 0x1_0000_0000) as u32,
        q3 as u32,
    ];
    proof {
        lemma_words_value4(words);
    }
    words
}

/// Unpacks the 15 signed 8-bit lanes of SH band 2.
pub fn decode_sh2(words: &[u32; 4]) -> (lanes: [i8; 15])
    ensures
        forall|i: int|
            0 <= i < 15 ==> lanes[i] == lane_signed(
                lane_at(words_value(words@), 256, i as nat),
                256,
            ),
{
    let ghost value = words_value(words@);
    proof {
        lemma_words_value4(*words);
    }
    let hi: u128 = words[2] as u128 + 0x1_0000_0000 * (words[3] as u128);
    let mid: u128 = words[1] as u128 + 0x1_0000_0000 * hi;
    let mut acc: u128 = words[0] as u128 + 0x1_0000_0000 * mid;
    let mut lanes = [0i8;15];
    let mut i: usize = 0;
    while i < 15
        invariant
            i <= 15,
            forall|j: nat|
                lane_at(value, 256, i as nat + j) == #[trigger] lane_at(acc as nat, 256, j),
            forall|k: int|
                0 <= k < i ==> lanes[k] == lane_signed(lane_at(value, 256, k as nat), 256),
        decreases 15 - i,
    {
        let d = (acc % 256) as u16;
        let ghost prev = acc;
        assert(lane_at(prev as nat, 256, 0) == d);
        acc = acc / 256;
        assert forall|j: nat| lane_at(value, 256, (i + 1) as nat + j) == #[trigger] lane_at(
            acc as nat,
            256,
            j,
        ) by {
            assert(lane_at(prev as nat, 256, j + 1) == lane_at(acc as nat, 256, j));
        }
        lanes[i] = lane_value(d, 256);
        i = i + 1;
    }
    lanes
}

/// Packs the 21 signed 6-bit lanes of SH band 3 into four words: lane
/// `i` starts at bit `6i`.
pub fn encode_sh3(lanes: &[i8; 21]) -> (words: [u32; 4])
    ensures
        words_value(words@) == lanes_value(lane_digits(lanes@, 64), 64, 0),
{
    let ghost digits = lane_digits(lanes@, 64);
    let mut acc: u128 = 0;
    let mut i: usize = 21;
    while i > 0
        invariant
            i <= 21,
            digits.len() == 21,
            digits == lane_digits(lanes@, 64),
            acc == lanes_value(digits, 64, i as int),
            acc < radix_pow(64, (21 - i) as nat),
        decreases i,
    {
        i = i - 1;
        let d = lane_digit(lanes[i], 64);
        proof {
            lemma_radix_pow_top();
            lemma_pack_step(digits, 64, i as int, acc as nat);
        }
        acc = acc * 64 + d as u128;
    }
    let q1 = acc / 0x1_0000_0000;
    let q2 = q1 / 0x1_0000_0000;
    let q3 = q2 / 0x1_0000_0000;
    let words = [
        (acc % 0x1_0000_0000) as u32,
        (q1 % 0x1_0000_0000) as u32,
        (q2 % 0x1_0000_0000) as u32,
        q3 as u32,
    ];
    proof {
        lemma_words_value4(words);
    }
    words
}

/// Unpacks the 21 signed 6-bit lanes of SH band 3.
pub fn decode_sh3(words: &[u32; 4]) -> (lanes: [i8; 21])
    ensures
        forall|i: int|
            0 <= i < 21 ==> lanes[i] == lane_signed(
                lane_at(words_value(words@), 64, i as nat),
                64,
            ),
{
    let ghost value = words_value(words@);
    proof {
        lemma_words_value4(*words);
    }
    let hi: u128 = words[2] as u128 + 0x1_0000_0000 * (words[3] as u128);
    let mid: u128 = words[1] as u128 + 0x1_0000_0000 * hi;
    let mut acc: u128 = words[0] as u128 + 0x1_0000_0000 * mid;
    let mut lanes = [0i8;21];
    let mut i: usize = 0;
    while i < 21
        invariant
            i <= 21,
            forall|j: nat|
                lane_at(value, 64, i as nat + j) == #[trigger] lane_at(acc as nat, 64, j),
            forall|k: int|
                0 <= k < i ==> lanes[k] == lane_signed(lane_at(value, 64, k as nat), 64),
        decreases 21 - i,
    {
        let d = (acc % 64) as u16;
        let ghost prev = acc;
        assert(lane_at(prev as nat, 64, 0) == d);
        acc = acc / 64;
        assert forall|j: nat| lane_at(value, 64, (i + 1) as nat + j) == #[trigger] lane_at(
            acc as nat,
            64,
            j,
        ) by {
            assert(lane_at(prev as nat, 64, j + 1) == lane_at(acc as nat, 64, j));
        }
        lanes[i] = lane_value(d, 64);
        i = i + 1;
    }
    lanes
}

/// The fields of a LoD-tree node record.
#[derive(Clone, Copy, Debug)]
pub struct LodNode {
    /// Center, three half-precision bit patterns.
    pub center: [u16; 3],
    /// Size (twice the widest extent), a half-precision bit pattern.
    pub size: u16,
    /// Number of children; 0 for a leaf.
    pub child_count: u16,
    /// Index of the first child.
    pub child_start: u32,
}

/// Packs a LoD-tree node into its 16-byte record: center x and y in word 0,
/// center z and size in word 1, the child count in the low half of word 2,
/// the first child in word 3.
pub fn encode_lod_tree(node: &LodNode) -> (buffer: [u32; 4])
    ensures
        word_low(buffer[0]) == node.center[0],
        word_high(buffer[0]) == node.center[1],
        word_low(buffer[1]) == node.center[2],
        word_high(buffer[1]) == node.size,
        buffer[2] == node.child_count,
        buffer[3] == node.child_start,
{
    proof {
        lemma_word_of_halves(node.center[0], node.center[1]);
        lemma_word_of_halves(node.center[2], node.size);
    }
    [
        (node.center[0] as u32) | ((node.center[1] as u32) << 16),
        (node.center[2] as u32) | ((node.size as u32) << 16),
        node.child_count as u32,
        node.child_start,
    ]
}

/// Unpacks a LoD-tree node record. The high half of word 2 is padding.
pub fn decode_lod_tree(buffer: &[u32; 4]) -> (node: LodNode)
    ensures
        node.center[0] == word_low(buffer[0]),
        node.center[1] == word_high(buffer[0]),
        node.center[2] == word_low(buffer[1]),
        node.size == word_high(buffer[1]),
        node.child_count == buffer[2] % 0x1_0000,
        node.child_start == buffer[3],
{
    LodNode {
        center: [
            (buffer[0] % 0x1_0000) as u16,
            (buffer[0] / 0x1_0000) as u16,
            (buffer[1] % 0x1_0000) as u16,
        ],
        size: (buffer[1] / 0x1_0000) as u16,
        child_count: (buffer[2] % 0x1_0000) as u16,
        child_start: buffer[3],
    }
}

} // verus!
