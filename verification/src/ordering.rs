//! Morton (Z-order) keys: the bits of three grid coordinates interleaved, so
//! that bit `k` of coordinate `c` lands at bit `3k + c` of the key.

use vstd::prelude::*;
use vstd::arithmetic::div_mod::{lemma_breakdown, lemma_div_denominator};

verus! {

/// The number whose bit `3k` is bit `k` of `x`, all other bits being zero.
pub open spec fn spread3(x: nat) -> nat
    decreases x,
{
    if x == 0 {
        0
    } else {
        (x % 2) + 8 * spread3(x / 2)
    }
}

/// The Morton key of a cell: `x` in the bits `3k`, `y` in the bits `3k + 1`,
/// `z` in the bits `3k + 2`.
pub open spec fn morton3(x: nat, y: nat, z: nat) -> nat {
    spread3(x) + 2 * spread3(y) + 4 * spread3(z)
}

/// Whether bit `k` of `x` is set.
pub open spec fn bit_at(x: nat, k: nat) -> bool
    decreases k,
{
    if k == 0 {
        x % 2 == 1
    } else {
        bit_at(x / 2, (k - 1) as nat)
    }
}

/// `p == 2^n` and `q == 8^n`.
pub open spec fn is_spread_power(p: nat, q: nat, n: nat) -> bool
    decreases n,
{
    if n == 0 {
        p == 1 && q == 1
    } else {
        p % 2 == 0 && q % 8 == 0 && is_spread_power(p / 2, q / 8, (n - 1) as nat)
    }
}

/// A number spreads as its low `n` bits do, followed by the spread of the rest.
pub proof fn lemma_spread3_split(x: nat, p: nat, q: nat, n: nat)
    requires
        is_spread_power(p, q, n),
    ensures
        spread3(x) == spread3(x % p) + q * spread3(x / p),
    decreases n,
{
    if n == 0 {
        assert(x % 1 == 0);
        assert(x / 1 == x);
    } else if x == 0 {
        lemma_spread_power_positive(p, q, n);
        assert(0nat % p == 0 && 0nat / p == 0) by (nonlinear_arith)
            requires
                p > 0,
        ;
        assert(q * 0 == 0) by (nonlinear_arith);
    } else {
        let p1 = p / 2;
        let q1 = q / 8;
        lemma_spread_power_positive(p1, q1, (n - 1) as nat);
        lemma_spread3_split(x / 2, p1, q1, (n - 1) as nat);
        lemma_breakdown(x as int, 2, p1 as int);
        lemma_div_denominator(x as int, 2, p1 as int);
        assert(2 * p1 == p);
        let low = x % p;
        assert(low == 2 * ((x / 2) % p1) + x % 2);
        assert(low % 2 == x % 2);
        assert(low / 2 == (x / 2) % p1);
        assert(x / p == (x / 2) / p1);
        assert(spread3(low) == (low % 2) + 8 * spread3(low / 2));
        let s = spread3(x / p);
        assert(q * s == 8 * (q1 * s)) by (nonlinear_arith)
            requires
                q == 8 * q1,
        ;
    }
}

proof fn lemma_spread_power_positive(p: nat, q: nat, n: nat)
    requires
        is_spread_power(p, q, n),
    ensures
        p > 0,
        q > 0,
    decreases n,
{
    if n > 0 {
        lemma_spread_power_positive(p / 2, q / 8, (n - 1) as nat);
    }
}

/// Bit `3k + c` of a Morton key is bit `k` of coordinate `c`.
pub proof fn lemma_morton3_bits(x: nat, y: nat, z: nat, k: nat)
    ensures
        bit_at(morton3(x, y, z), 3 * k) == bit_at(x, k),
        bit_at(morton3(x, y, z), 3 * k + 1) == bit_at(y, k),
        bit_at(morton3(x, y, z), 3 * k + 2) == bit_at(z, k),
    decreases k,
{
    let m = morton3(x, y, z);
    let m1 = morton3(x / 2, y / 2, z / 2);
    assert(m == (x % 2) + 2 * (y % 2) + 4 * (z % 2) + 8 * m1);
    assert(m / 2 / 2 / 2 == m1);
    reveal_with_fuel(bit_at, 4);
    if k > 0 {
        lemma_morton3_bits(x / 2, y / 2, z / 2, (k - 1) as nat);
    }
}

spec fn magic21(x: u64) -> u64 {
    let a = (x | x << 32) & 0x1f00000000ffff;
    let b = (a | a << 16) & 0x1f0000ff0000ff;
    let c = (b | b << 8) & 0x100f00f00f00f00f;
    let d = (c | c << 4) & 0x10c30c30c30c30c3;
    (d | d << 2) & 0x1249249249249249
}

proof fn lemma_magic21_step(x: u64)
    by (bit_vector)
    requires
        x < 0x20_0000,
    ensures
        magic21(x) == (x & 1) + 8 * magic21(x >> 1),
        x >> 1 == x / 2,
        x & 1 == x % 2,
        magic21(x) & 0x1249249249249249 == magic21(x),
        magic21(0) == 0,
{
}

proof fn lemma_magic21(x: u64)
    requires
        x < 0x20_0000,
    ensures
        magic21(x) == spread3(x as nat),
        magic21(x) & 0x1249249249249249 == magic21(x),
    decreases x,
{
    lemma_magic21_step(x);
    if x != 0 {
        lemma_magic21((x >> 1) as u64);
    }
}

/// Moves bit `k` of the low 21 bits of `x` to bit `3k`.
fn expand3_21(x: u32) -> (r: u64)
    ensures
        r == spread3((x % 0x20_0000) as nat),
        r & 0x1249249249249249 == r,
{
    let x0: u64 = (x & 0x1f_ffff) as u64;
    assert(x0 == x % 0x20_0000) by (bit_vector)
        requires
            x0 == (x & 0x1f_ffff) as u64,
    ;
    let a: u64 = (x0 | x0 << 32) & 0x1f00000000ffff;
    let b: u64 = (a | a << 16) & 0x1f0000ff0000ff;
    let c: u64 = (b | b << 8) & 0x100f00f00f00f00f;
    let d: u64 = (c | c << 4) & 0x10c30c30c30c30c3;
    let r: u64 = (d | d << 2) & 0x1249249249249249;
    proof {
        lemma_magic21(x0);
    }
    r
}

proof fn lemma_interleave64(a: u64, b: u64, c: u64)
    by (bit_vector)
    requires
        a & 0x1249249249249249 == a,
        b & 0x1249249249249249 == b,
        c & 0x1249249249249249 == c,
    ensures
        (a << 0) | (b << 1) | (c << 2) == a + 2 * b + 4 * c,
{
}

/// The Morton key of a cell with 16-bit coordinates.
pub fn morton_coord16_to_index(coord: [u16; 3]) -> (key: u64)
    ensures
        key == morton3(coord[0] as nat, coord[1] as nat, coord[2] as nat),
{
    let ex = expand3_21(coord[0] as u32);
    let ey = expand3_21(coord[1] as u32);
    let ez = expand3_21(coord[2] as u32);
    proof {
        lemma_interleave64(ex, ey, ez);
    }
    (ex << 0) | (ey << 1) | (ez << 2)
}

spec fn magic32(x: u128) -> u128 {
    let a = (x | x << 64) & 0x3ff0000000000000000ffffffffu128;
    let b = (a | a << 32) & 0x3ff00000000ffff00000000ffffu128;
    let c = (b | b << 16) & 0x30000ff0000ff0000ff0000ff0000ffu128;
    let d = (c | c << 8) & 0x300f00f00f00f00f00f00f00f00f00fu128;
    let e = (d | d << 4) & 0x30c30c30c30c30c30c30c30c30c30c3u128;
    (e | e << 2) & 0x9249249249249249249249249249249u128
}

proof fn lemma_magic32_step(x: u128)
    by (bit_vector)
    requires
        x < 0x1_0000_0000,
    ensures
        magic32(x) == (x & 1) + 8 * magic32(x >> 1),
        x >> 1 == x / 2,
        x & 1 == x % 2,
        magic32(x) & 0x9249249249249249249249249249249u128 == magic32(x),
        magic32(0) == 0,
{
}

proof fn lemma_magic32(x: u128)
    requires
        x < 0x1_0000_0000,
    ensures
        magic32(x) == spread3(x as nat),
        magic32(x) & 0x9249249249249249249249249249249u128 == magic32(x),
    decreases x,
{
    lemma_magic32_step(x);
    if x != 0 {
        lemma_magic32((x >> 1) as u128);
    }
}

/// Moves bit `k` of `x` to bit `3k`, in one pass over 128 bits.
fn expand3_24(x: u32) -> (r: u128)
    ensures
        r == spread3(x as nat),
        r & 0x9249249249249249249249249249249u128 == r,
{
    let x0: u128 = x as u128;
    let a: u128 = (x0 | x0 << 64) & 0x3ff0000000000000000ffffffffu128;
    let b: u128 = (a | a << 32) & 0x3ff00000000ffff00000000ffffu128;
    let c: u128 = (b | b << 16) & 0x30000ff0000ff0000ff0000ff0000ffu128;
    let d: u128 = (c | c << 8) & 0x300f00f00f00f00f00f00f00f00f00fu128;
    let e: u128 = (d | d << 4) & 0x30c30c30c30c30c30c30c30c30c30c3u128;
    let r: u128 = (e | e << 2) & 0x9249249249249249249249249249249u128;
    proof {
        lemma_magic32(x0);
    }
    r
}

proof fn lemma_interleave128(a: u128, b: u128, c: u128)
    by (bit_vector)
    requires
        a & 0x9249249249249249249249249249249u128 == a,
        b & 0x9249249249249249249249249249249u128 == b,
        c & 0x9249249249249249249249249249249u128 == c,
    ensures
        (a << 0) | (b << 1) | (c << 2) == a + 2 * b + 4 * c,
{
}

/// The Morton key of a cell whose coordinates hold up to 24 bits; wider
/// coordinates are interleaved whole.
pub fn morton_coord24_to_index(coord: [u32; 3]) -> (key: u128)
    ensures
        key == morton3(coord[0] as nat, coord[1] as nat, coord[2] as nat),
{
    let ex = expand3_24(coord[0]);
    let ey = expand3_24(coord[1]);
    let ez = expand3_24(coord[2]);
    proof {
        lemma_interleave128(ex, ey, ez);
    }
    (ex << 0) | (ey << 1) | (ez << 2)
}

proof fn lemma_chunks32(x: u32)
    by (bit_vector)
    ensures
        (x & 0x1f_ffff) % 0x20_0000 == x % 0x20_0000,
        ((x >> 21) & 0x7ff) % 0x20_0000 == x / 0x20_0000,
{
}

proof fn lemma_join32(lo: u64, hi: u64, r: u128)
    by (bit_vector)
    requires
        lo & 0x1249249249249249 == lo,
        hi & 0x1249249249249249 == hi,
        hi < 0x2_0000_0000,
        r == (lo as u128) | ((hi as u128) << 63),
    ensures
        r == lo + 0x8000_0000_0000_0000 * hi,
        r & 0x9249249249249249249249249249249u128 == r,
{
}

/// Moves bit `k` of `x` to bit `3k`, as two chunks of 21 and 11 bits.
fn expand3_32(x: u32) -> (r: u128)
    ensures
        r == spread3(x as nat),
        r & 0x9249249249249249249249249249249u128 == r,
{
    let lo = expand3_21(x & 0x1f_ffff);
    let hi = expand3_21((x >> 21) & 0x7ff);
    let r = (lo as u128) | ((hi as u128) << 63);
    proof {
        lemma_chunks32(x);
        reveal_with_fuel(is_spread_power, 22);
        lemma_spread3_split(x as nat, 0x20_0000, 0x8000_0000_0000_0000, 21);
        lemma_spread3_below(x as nat / 0x20_0000, 0x800, 0x2_0000_0000, 11);
        lemma_join32(lo, hi, r);
    }
    r
}

/// The spread of a number of `n` bits has `3n` bits.
proof fn lemma_spread3_below(x: nat, p: nat, q: nat, n: nat)
    requires
        is_spread_power(p, q, n),
        x < p,
    ensures
        spread3(x) < q,
    decreases n,
{
    if n > 0 && x > 0 {
        lemma_spread3_below(x / 2, p / 2, q / 8, (n - 1) as nat);
    }
    if n > 0 {
        lemma_spread_power_positive(p, q, n);
    }
}

/// The Morton key of a cell with 32-bit coordinates.
pub fn morton_coord32_to_index(coord: [u32; 3]) -> (key: u128)
    ensures
        key == morton3(coord[0] as nat, coord[1] as nat, coord[2] as nat),
{
    let ex = expand3_32(coord[0]);
    let ey = expand3_32(coord[1]);
    let ez = expand3_32(coord[2]);
    proof {
        lemma_interleave128(ex, ey, ez);
    }
    (ex << 0) | (ey << 1) | (ez << 2)
}

/// The entry of the table for a byte: the 24 bits whose bit `3j` is bit `j`
/// of the byte.
pub open spec fn table_entry(b: u8) -> u128 {
    spread3(b as nat) as u128
}

/// A number of 32 bits spread by the table: the entries of its four bytes,
/// each 24 bits higher than the one before.
pub open spec fn spread_by_table(v: u32) -> u128 {
    table_entry((v & 0xff) as u8) | table_entry(((v >> 8) & 0xff) as u8) << 24 | table_entry(
        ((v >> 16) & 0xff) as u8,
    ) << 48 | table_entry((v >> 24) as u8) << 72
}

/// The Morton key of 32-bit coordinates as the table gives it: the three
/// coordinates spread by the table, each one bit higher than the one
/// before.
pub open spec fn morton_by_table(coord: [u32; 3]) -> u128 {
    spread_by_table(coord[0]) | spread_by_table(coord[1]) << 1 | spread_by_table(coord[2]) << 2
}

proof fn lemma_bytes_of(v: u32)
    by (bit_vector)
    ensures
        v & 0xff == v % 0x100,
        (v >> 8) & 0xff == (v / 0x100) % 0x100,
        (v >> 16) & 0xff == (v / 0x1_0000) % 0x100,
        v >> 24 == v / 0x100_0000,
        v >> 24 < 0x100,
{
}

proof fn lemma_join_entries(a: u128, b: u128, c: u128, d: u128)
    by (bit_vector)
    requires
        a < 0x100_0000,
        b < 0x100_0000,
        c < 0x100_0000,
        d < 0x100_0000,
    ensures
        a | b << 24 | c << 48 | d << 72 == a + 0x100_0000 * b + 0x1_0000_0000_0000 * c
            + 0x100_0000_0000_0000_0000 * d,
{
}

/// The table gives the spread of a number.
pub proof fn lemma_spread_by_table(v: u32)
    ensures
        spread_by_table(v) == spread3(v as nat),
        spread_by_table(v) & 0x9249249249249249249249249249249u128 == spread_by_table(v),
{
    lemma_bytes_of(v);
    let b0 = (v & 0xff) as u8;
    let b1 = ((v >> 8) & 0xff) as u8;
    let b2 = ((v >> 16) & 0xff) as u8;
    let b3 = (v >> 24) as u8;
    reveal_with_fuel(is_spread_power, 9);
    lemma_spread3_below(b0 as nat, 256, 0x100_0000, 8);
    lemma_spread3_below(b1 as nat, 256, 0x100_0000, 8);
    lemma_spread3_below(b2 as nat, 256, 0x100_0000, 8);
    lemma_spread3_below(b3 as nat, 256, 0x100_0000, 8);
    lemma_join_entries(table_entry(b0), table_entry(b1), table_entry(b2), table_entry(b3));
    lemma_spread3_by_bytes(v as nat);
    assert(b0 as nat == (v as nat) % 256);
    assert(b1 as nat == ((v as nat) / 0x100) % 256);
    assert(b2 as nat == ((v as nat) / 0x1_0000) % 256);
    assert(b3 as nat == (v as nat) / 0x100_0000);
    lemma_magic32(v as u128);
}

/// The table form and the shift-and-mask form of the Morton key of 32-bit
/// coordinates agree: both are `morton3`.
pub proof fn lemma_morton_by_table(coord: [u32; 3])
    ensures
        morton_by_table(coord) == morton3(coord[0] as nat, coord[1] as nat, coord[2] as nat),
{
    lemma_spread_by_table(coord[0]);
    lemma_spread_by_table(coord[1]);
    lemma_spread_by_table(coord[2]);
    let a = spread_by_table(coord[0]);
    let b = spread_by_table(coord[1]);
    let c = spread_by_table(coord[2]);
    lemma_interleave128(a, b, c);
    reveal_with_fuel(is_spread_power, 33);
    lemma_spread3_below(coord[0] as nat, 0x1_0000_0000, 0x1_0000_0000_0000_0000_0000_0000, 32);
    lemma_spread3_below(coord[1] as nat, 0x1_0000_0000, 0x1_0000_0000_0000_0000_0000_0000, 32);
    lemma_spread3_below(coord[2] as nat, 0x1_0000_0000, 0x1_0000_0000_0000_0000_0000_0000, 32);
    assert((a << 0) == a) by (bit_vector);
}

proof fn lemma_shift_step(x: u64, k: u64)
    by (bit_vector)
    requires
        1 <= k < 64,
    ensures
        (x >> k) & 1 == ((x >> 1) >> ((k - 1) as u64)) & 1,
        x >> 1 == x / 2,
        (x >> 0) & 1 == x % 2,
{
}

/// Bit `k` of a 64-bit number is what shifting and masking give.
pub proof fn lemma_bit_of_u64(x: u64, k: u64)
    requires
        k < 64,
    ensures
        bit_at(x as nat, k as nat) == ((x >> k) & 1 == 1),
    decreases k,
{
    if k == 0 {
        lemma_shift_step(x, 1);
    } else {
        lemma_shift_step(x, k);
        lemma_bit_of_u64(x >> 1, (k - 1) as u64);
    }
}

/// `p == 2^n`.
pub open spec fn is_power_of_two(p: nat, n: nat) -> bool
    decreases n,
{
    if n == 0 {
        p == 1
    } else {
        p % 2 == 0 && is_power_of_two(p / 2, (n - 1) as nat)
    }
}

/// The bits of a number above a power of two are the bits of what stands
/// above, and the bits below are its own.
proof fn lemma_bit_split(a: nat, b: nat, pw: nat, n: nat, p: nat)
    requires
        is_power_of_two(pw, n),
        a < pw,
    ensures
        bit_at(a + pw * b, p) == (if p < n {
            bit_at(a, p)
        } else {
            bit_at(b, (p - n) as nat)
        }),
    decreases p,
{
    if n == 0 {
        assert(a + pw * b == b) by (nonlinear_arith)
            requires
                pw == 1,
                a == 0,
        ;
    } else {
        let half = pw / 2;
        assert(pw == 2 * half);
        assert((a + pw * b) / 2 == a / 2 + half * b && (a + pw * b) % 2 == a % 2) by (nonlinear_arith)
            requires
                pw == 2 * half,
        ;
        if p > 0 {
            lemma_bit_split(a / 2, b, half, (n - 1) as nat, (p - 1) as nat);
        }
    }
}

/// Two, doubled `n` times over.
spec fn two_to(n: nat) -> nat
    decreases n,
{
    if n == 0 {
        1
    } else {
        2 * two_to((n - 1) as nat)
    }
}

proof fn lemma_two_to(n: nat)
    ensures
        is_power_of_two(two_to(n), n),
    decreases n,
{
    if n > 0 {
        lemma_two_to((n - 1) as nat);
        assert(two_to(n) / 2 == two_to((n - 1) as nat));
    }
}

proof fn lemma_two_to_64()
    ensures
        is_power_of_two(0x1_0000_0000_0000_0000, 64),
{
    lemma_two_to(64);
    assert(two_to(16) == 0x1_0000) by {
        reveal_with_fuel(two_to, 17);
    }
    assert(two_to(32) == 0x1_0000 * two_to(16)) by {
        lemma_two_to_add(16, 16);
    }
    assert(two_to(64) == two_to(32) * two_to(32)) by {
        lemma_two_to_add(32, 32);
    }
}

proof fn lemma_two_to_add(a: nat, b: nat)
    ensures
        two_to(a + b) == two_to(a) * two_to(b),
    decreases a,
{
    if a > 0 {
        lemma_two_to_add((a - 1) as nat, b);
        assert(two_to(a + b) == 2 * two_to((a - 1 + b) as nat));
        assert(2 * (two_to((a - 1) as nat) * two_to(b)) == (2 * two_to((a - 1) as nat)) * two_to(b))
            by (nonlinear_arith);
    } else {
        assert(two_to(0) * two_to(b) == two_to(b)) by (nonlinear_arith)
            requires
                two_to(0) == 1,
        ;
    }
}

/// Bit `p` of a number of three limbs is bit `p % 64` of limb `p / 64`.
proof fn lemma_limb_bit(key: [u64; 3], p: nat)
    requires
        p < 192,
    ensures
        bit_at(limbs_value(key), p) == bit_at(key[(p / 64) as int] as nat, p % 64),
{
    lemma_two_to_64();
    let k0 = key[0] as nat;
    let k1 = key[1] as nat;
    let k2 = key[2] as nat;
    let high = k1 + 0x1_0000_0000_0000_0000 * k2;
    assert(limbs_value(key) == k0 + 0x1_0000_0000_0000_0000 * high) by (nonlinear_arith)
        requires
            limbs_value(key) == k0 + 0x1_0000_0000_0000_0000 * k1
                + 0x1_0000_0000_0000_0000_0000_0000_0000_0000 * k2,
            high == k1 + 0x1_0000_0000_0000_0000 * k2,
    ;
    lemma_bit_split(k0, high, 0x1_0000_0000_0000_0000, 64, p);
    if p >= 64 {
        lemma_bit_split(k1, k2, 0x1_0000_0000_0000_0000, 64, (p - 64) as nat);
        if p >= 128 {
            assert((p - 64 - 64) as nat == p % 64 && p / 64 == 2);
        } else {
            assert((p - 64) as nat == p % 64 && p / 64 == 1);
        }
    } else {
        assert(p % 64 == p && p / 64 == 0);
    }
}

/// Bit `3k + i` of the Morton key of 64-bit coordinates, read from its
/// limbs by shifting and masking, is bit `k` of coordinate `i`.
pub proof fn lemma_limb_bits(key: [u64; 3], coord: [u64; 3], k: u64, i: u64)
    requires
        limbs_value(key) == morton3(coord[0] as nat, coord[1] as nat, coord[2] as nat),
        k < 64,
        i < 3,
    ensures
        ((key[(3 * k + i) / 64] >> (((3 * k + i) % 64) as u64)) & 1) == ((coord[i as int] >> k)
            & 1),
{
    let p: u64 = (3 * k + i) as u64;
    let limb = key[(p / 64) as int];
    let at: u64 = (p % 64) as u64;
    lemma_morton3_bits(coord[0] as nat, coord[1] as nat, coord[2] as nat, k as nat);
    lemma_limb_bit(key, p as nat);
    lemma_bit_of_u64(coord[i as int], k);
    lemma_bit_of_u64(limb, at);
    lemma_bit_values(limb >> at, coord[i as int] >> k);
}

proof fn lemma_bit_values(a: u64, b: u64)
    by (bit_vector)
    ensures
        a & 1 == 0 || a & 1 == 1,
        b & 1 == 0 || b & 1 == 1,
{
}

/// A Morton key is the low bits of its cell, followed by the key of the
/// halved cell.
proof fn lemma_morton3_step(x: nat, y: nat, z: nat)
    ensures
        morton3(x, y, z) == (x % 2) + 2 * (y % 2) + 4 * (z % 2) + 8 * morton3(x / 2, y / 2, z / 2),
{
}

/// Three bits and a rest are told apart by their sum.
proof fn lemma_low_bits_unique(a1: nat, b1: nat, c1: nat, m1: nat, a2: nat, b2: nat, c2: nat, m2: nat)
    requires
        a1 < 2 && b1 < 2 && c1 < 2,
        a2 < 2 && b2 < 2 && c2 < 2,
        a1 + 2 * b1 + 4 * c1 + 8 * m1 == a2 + 2 * b2 + 4 * c2 + 8 * m2,
    ensures
        a1 == a2,
        b1 == b2,
        c1 == c2,
        m1 == m2,
{
}

/// Cells with the same Morton key are the same cell.
pub proof fn lemma_morton3_injective(x1: nat, y1: nat, z1: nat, x2: nat, y2: nat, z2: nat)
    requires
        morton3(x1, y1, z1) == morton3(x2, y2, z2),
    ensures
        x1 == x2,
        y1 == y2,
        z1 == z2,
    decreases x1 + y1 + z1 + x2 + y2 + z2,
{
    if x1 + y1 + z1 + x2 + y2 + z2 > 0 {
        lemma_morton3_step(x1, y1, z1);
        lemma_morton3_step(x2, y2, z2);
        lemma_low_bits_unique(
            x1 % 2,
            y1 % 2,
            z1 % 2,
            morton3(x1 / 2, y1 / 2, z1 / 2),
            x2 % 2,
            y2 % 2,
            z2 % 2,
            morton3(x2 / 2, y2 / 2, z2 / 2),
        );
        lemma_morton3_injective(x1 / 2, y1 / 2, z1 / 2, x2 / 2, y2 / 2, z2 / 2);
    }
}

/// The number that three 64-bit limbs hold, the lowest limb first.
pub open spec fn limbs_value(limbs: [u64; 3]) -> nat {
    (limbs[0] + 0x1_0000_0000_0000_0000 * limbs[1]
        + 0x1_0000_0000_0000_0000_0000_0000_0000_0000 * limbs[2]) as nat
}

/// Limb `i` of a 192-bit number after `v`, moved up by `shift` bits, is or-ed
/// into it. Bits that would pass bit 191 are dropped.
spec fn or_shift_limb(cur: u64, v: u64, shift: u32, i: int) -> u64 {
    if i == (shift / 64) as int {
        cur | (v << ((shift % 64) as u64))
    } else if i == (shift / 64) as int + 1 && shift % 64 != 0 {
        cur | (v >> ((64 - shift % 64) as u64))
    } else {
        cur
    }
}

fn or_shift_u64_into_u192_le(out: &mut [u64; 3], v: u64, shift: u32)
    requires
        shift < 192,
    ensures
        forall|i: int| 0 <= i < 3 ==> final(out)[i] == or_shift_limb(old(out)[i], v, shift, i),
{
    let limb: usize = (shift / 64) as usize;
    let off: u64 = (shift % 64) as u64;
    let cur = out[limb];
    out[limb] = cur | (v << off);
    if off != 0 && limb + 1 < 3 {
        let next = out[limb + 1];
        out[limb + 1] = next | (v >> (64 - off));
    }
}

proof fn lemma_chunks64(x: u64)
    by (bit_vector)
    ensures
        x & 0x1f_ffff == x % 0x20_0000,
        (x >> 21) & 0x1f_ffff == (x / 0x20_0000) % 0x20_0000,
        (x >> 42) & 0x1f_ffff == (x / 0x20_0000 / 0x20_0000) % 0x20_0000,
        (x >> 63) & 0x1 == x / 0x20_0000 / 0x20_0000 / 0x20_0000,
        x / 0x20_0000 / 0x20_0000 / 0x20_0000 <= 1,
{
}

proof fn lemma_join64(c0: u64, c1: u64, c2: u64, c3: u64)
    by (bit_vector)
    requires
        c0 & 0x1249249249249249 == c0,
        c1 & 0x1249249249249249 == c1,
        c2 & 0x1249249249249249 == c2,
        c3 <= 1,
    ensures
        (0u64 | (c0 << 0u64)) | (c1 << 63u64) == c0 + 0x8000_0000_0000_0000 * (c1 & 1),
        (0u64 | (c1 >> 1u64)) | (c2 << 62u64) == (c1 >> 1) + 0x4000_0000_0000_0000 * (c2 & 3),
        (0u64 | (c2 >> 2u64)) | (c3 << 61u64) == (c2 >> 2) + 0x2000_0000_0000_0000 * c3,
        c1 == 2 * (c1 >> 1) + (c1 & 1),
        c2 == 4 * (c2 >> 2) + (c2 & 3),
        ((0u64 | (c0 << 0u64)) | (c1 << 63u64)) & 0x9249249249249249 == (0u64 | (c0 << 0u64)) | (c1
            << 63u64),
        ((0u64 | (c1 >> 1u64)) | (c2 << 62u64)) & 0x4924924924924924 == (0u64 | (c1 >> 1u64)) | (c2
            << 62u64),
        ((0u64 | (c2 >> 2u64)) | (c3 << 61u64)) & 0x2492492492492492 == (0u64 | (c2 >> 2u64)) | (c3
            << 61u64),
{
}

/// Moves bit `k` of `x` to bit `3k` of a 192-bit number, as four chunks of
/// 21, 21, 21 and 1 bits.
fn expand3_64_le(x: u64) -> (out: [u64; 3])
    ensures
        limbs_value(out) == spread3(x as nat),
        out[0] & 0x9249249249249249 == out[0],
        out[1] & 0x4924924924924924 == out[1],
        out[2] & 0x2492492492492492 == out[2],
{
    let mut out = [0u64;3];
    let c0 = expand3_21((x & 0x1f_ffff) as u32);
    let c1 = expand3_21(((x >> 21) & 0x1f_ffff) as u32);
    let c2 = expand3_21(((x >> 42) & 0x1f_ffff) as u32);
    let c3 = expand3_21(((x >> 63) & 0x1) as u32);

    or_shift_u64_into_u192_le(&mut out, c0, 0);
    or_shift_u64_into_u192_le(&mut out, c1, 63);
    or_shift_u64_into_u192_le(&mut out, c2, 126);
    or_shift_u64_into_u192_le(&mut out, c3, 189);

    proof {
        let x1 = x as nat / 0x20_0000;
        let x2 = x1 / 0x20_0000;
        let x3 = x2 / 0x20_0000;
        lemma_chunks64(x);
        reveal_with_fuel(is_spread_power, 22);
        lemma_spread3_split(x as nat, 0x20_0000, 0x8000_0000_0000_0000, 21);
        lemma_spread3_split(x1, 0x20_0000, 0x8000_0000_0000_0000, 21);
        lemma_spread3_split(x2, 0x20_0000, 0x8000_0000_0000_0000, 21);
        assert(spread3(x3) == x3) by {
            reveal_with_fuel(spread3, 3);
        }
        assert(c3 == x3);
        lemma_join64(c0, c1, c2, c3);
        assert(out[0] == (0u64 | (c0 << 0u64)) | (c1 << 63u64));
        assert(out[1] == (0u64 | (c1 >> 1u64)) | (c2 << 62u64));
        assert(out[2] == (0u64 | (c2 >> 2u64)) | (c3 << 61u64));
    }
    out
}

/// A 192-bit number moved up by at most two bits. Bits that pass bit 191
/// are dropped.
fn shl_u192_le(a: [u64; 3], shift: u32) -> (out: [u64; 3])
    requires
        shift <= 2,
    ensures
        shift == 0 ==> out == a,
        shift == 1 ==> out[0] == a[0] << 1u64 && out[1] == (a[1] << 1u64) | (a[0] >> 63u64)
            && out[2] == (a[2] << 1u64) | (a[1] >> 63u64),
        shift == 2 ==> out[0] == a[0] << 2u64 && out[1] == (a[1] << 2u64) | (a[0] >> 62u64)
            && out[2] == (a[2] << 2u64) | (a[1] >> 62u64),
{
    if shift == 0 {
        a
    } else if shift == 1 {
        [a[0] << 1u64, (a[1] << 1u64) | (a[0] >> 63u64), (a[2] << 1u64) | (a[1] >> 63u64)]
    } else {
        [a[0] << 2u64, (a[1] << 2u64) | (a[0] >> 62u64), (a[2] << 2u64) | (a[1] >> 62u64)]
    }
}

proof fn lemma_interleave_limb0(x0: u64, y0: u64, z0: u64)
    by (bit_vector)
    requires
        x0 & 0x9249249249249249 == x0,
        y0 & 0x9249249249249249 == y0,
        z0 & 0x9249249249249249 == z0,
    ensures
        (x0 | (y0 << 1u64) | (z0 << 2u64)) + 0x1_0000_0000_0000_0000 * (y0 >> 63u64)
            + 0x1_0000_0000_0000_0000 * (z0 >> 62u64) == x0 + 2 * y0 + 4 * z0,
{
}

proof fn lemma_interleave_limb1(x1: u64, y0: u64, y1: u64, z0: u64, z1: u64)
    by (bit_vector)
    requires
        x1 & 0x4924924924924924 == x1,
        y1 & 0x4924924924924924 == y1,
        z1 & 0x4924924924924924 == z1,
        y0 & 0x9249249249249249 == y0,
        z0 & 0x9249249249249249 == z0,
    ensures
        (x1 | ((y1 << 1u64) | (y0 >> 63u64)) | ((z1 << 2u64) | (z0 >> 62u64)))
            + 0x1_0000_0000_0000_0000 * (y1 >> 63u64) + 0x1_0000_0000_0000_0000 * (z1 >> 62u64)
            == x1 + 2 * y1 + (y0 >> 63u64) + 4 * z1 + (z0 >> 62u64),
{
}

proof fn lemma_interleave_limb2(x2: u64, y1: u64, y2: u64, z1: u64, z2: u64)
    by (bit_vector)
    requires
        x2 & 0x2492492492492492 == x2,
        y2 & 0x2492492492492492 == y2,
        z2 & 0x2492492492492492 == z2,
        y1 & 0x4924924924924924 == y1,
        z1 & 0x4924924924924924 == z1,
    ensures
        x2 | ((y2 << 1u64) | (y1 >> 63u64)) | ((z2 << 2u64) | (z1 >> 62u64)) == x2 + 2 * y2 + (y1
            >> 63u64) + 4 * z2 + (z1 >> 62u64),
{
}

/// The Morton key of a cell with 64-bit coordinates: 192 bits, in three
/// 64-bit limbs, the lowest first.
pub fn morton_coord64_to_index(coord: [u64; 3]) -> (key: [u64; 3])
    ensures
        limbs_value(key) == morton3(coord[0] as nat, coord[1] as nat, coord[2] as nat),
{
    let ex = expand3_64_le(coord[0]);
    let ey = expand3_64_le(coord[1]);
    let ez = expand3_64_le(coord[2]);

    let sx = shl_u192_le(ex, 0);
    let sy = shl_u192_le(ey, 1);
    let sz = shl_u192_le(ez, 2);

    proof {
        lemma_interleave_limb0(ex[0], ey[0], ez[0]);
        lemma_interleave_limb1(ex[1], ey[0], ey[1], ez[0], ez[1]);
        lemma_interleave_limb2(ex[2], ey[1], ey[2], ez[1], ez[2]);
    }
    [sx[0] | sy[0] | sz[0], sx[1] | sy[1] | sz[1], sx[2] | sy[2] | sz[2]]
}

/// A key put together from one table entry per byte, each entry the spread of
/// its byte, is the key that the shift-and-mask sequence gives.
pub proof fn lemma_spread3_by_bytes(x: nat)
    requires
        x < 0x1_0000_0000,
    ensures
        spread3(x) == spread3(x % 256) + 0x100_0000 * spread3((x / 0x100) % 256)
            + 0x1_0000_0000_0000 * spread3((x / 0x1_0000) % 256)
            + 0x100_0000_0000_0000_0000 * spread3(x / 0x100_0000),
{
    lemma_byte_power();
    let x1 = x / 256;
    let x2 = x1 / 256;
    let x3 = x2 / 256;
    lemma_spread3_split(x, 256, 0x100_0000, 8);
    lemma_spread3_split(x1, 256, 0x100_0000, 8);
    lemma_spread3_split(x2, 256, 0x100_0000, 8);
    assert(x1 == x / 0x100 && x2 == x / 0x1_0000 && x3 == x / 0x100_0000);
    let s0 = spread3(x % 256);
    let s1 = spread3(x1 % 256);
    let s2 = spread3(x2 % 256);
    let s3 = spread3(x3);
    assert(spread3(x2) == s2 + 0x100_0000 * s3);
    assert(spread3(x1) == s1 + 0x100_0000 * (s2 + 0x100_0000 * s3));
    assert(spread3(x) == s0 + 0x100_0000 * (s1 + 0x100_0000 * (s2 + 0x100_0000 * s3)));
}

proof fn lemma_byte_power()
    ensures
        is_spread_power(256, 0x100_0000, 8),
{
    reveal_with_fuel(is_spread_power, 9);
}

} // verus!
