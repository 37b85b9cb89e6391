use vstd::prelude::*;

use crate::color::Color;

verus! {

/// The 32-bit integer mix behind the surface noise: xor-shift, multiply,
/// xor-shift, multiply, xor-shift, all modulo 2^32.
pub open spec fn spec_hash(x: u32) -> u32 {
    let x1 = x ^ (x >> 16u32);
    let x2 = x1.wrapping_mul(0x7feb_352d);
    let x3 = x2 ^ (x2 >> 15u32);
    let x4 = x3.wrapping_mul(0x846c_a68b);
    x4 ^ (x4 >> 16u32)
}

/// Noise level of pixel `(x, y)` for a given seed, in thousandths: an integer in `0..1000`.
pub open spec fn spec_noise_permille(x: usize, y: usize, seed: u32) -> u32 {
    spec_hash((x as u32).wrapping_mul(374_761_393) ^ (y as u32).wrapping_mul(668_265_263) ^ seed)
        % 1000
}

/// One channel of `base` scaled by `shade / 10000`, rounded down and capped at 255.
pub open spec fn scaled_channel(base: u32, shade: u32) -> u8 {
    if base as int * shade as int / 10000 > 255 {
        255
    } else {
        (base as int * shade as int / 10000) as u8
    }
}

/// The color `(r, g, b)` scaled by `shade / 10000`, channel by channel.
pub open spec fn spec_shade_color(r: u32, g: u32, b: u32, shade: u32) -> Color {
    Color { r: scaled_channel(r, shade), g: scaled_channel(g, shade), b: scaled_channel(b, shade) }
}

/// Deterministic, stateless 32-bit hash.
pub fn hash(x: u32) -> (h: u32)
    ensures
        h == spec_hash(x),
{
    let mut x = x;
    x ^= x >> 16;
    x = x.wrapping_mul(0x7feb_352d);
    x ^= x >> 15;
    x = x.wrapping_mul(0x846c_a68b);
    x ^= x >> 16;
    x
}

/// Pseudo-random level of pixel `(x, y)`, in thousandths, used as surface noise
/// by the procedural textures.
pub fn noise_permille(x: usize, y: usize, seed: u32) -> (n: u32)
    ensures
        n == spec_noise_permille(x, y, seed),
        n == spec_hash((x as u32).wrapping_mul(374_761_393) ^ (y as u32).wrapping_mul(668_265_263)
            ^ seed) % 1000,
        n < 1000,
{
    let h = hash((x as u32).wrapping_mul(374_761_393) ^ (y as u32).wrapping_mul(668_265_263) ^ seed);
    h % 1000
}

/// At the origin the noise level is the hash of the seed, modulo 1000.
pub proof fn lemma_noise_at_origin(seed: u32)
    ensures
        spec_noise_permille(0, 0, seed) == spec_hash(seed) % 1000,
{
    assert((0u32 ^ 0u32 ^ seed) == seed) by (bit_vector);
}

/// Moving to pixel `(x, y)` is the same as changing the seed: column `x` mixes
/// in `x * 374761393` and row `y` mixes in `y * 668265263` (modulo 2^32), so the
/// noise is the noise at the origin under the seed
/// `seed ^ x * 374761393 ^ y * 668265263`.
pub proof fn lemma_noise_is_seed_shift(x: usize, y: usize, seed: u32)
    ensures
        spec_noise_permille(x, y, seed) == spec_noise_permille(
            0,
            0,
            seed ^ (x as u32).wrapping_mul(374_761_393) ^ (y as u32).wrapping_mul(668_265_263),
        ),
        spec_noise_permille(x, y, seed) == spec_hash(
            seed ^ (x as u32).wrapping_mul(374_761_393) ^ (y as u32).wrapping_mul(668_265_263),
        ) % 1000,
{
    let a = (x as u32).wrapping_mul(374_761_393);
    let b = (y as u32).wrapping_mul(668_265_263);
    assert((a ^ b ^ seed) == (0u32 ^ 0u32 ^ (seed ^ a ^ b))) by (bit_vector);
    assert((a ^ b ^ seed) == (seed ^ a ^ b)) by (bit_vector);
    assert((0usize as u32).wrapping_mul(374_761_393) == 0u32);
    assert((0usize as u32).wrapping_mul(668_265_263) == 0u32);
}

fn scale_channel(base: u32, shade: u32) -> (c: u8)
    ensures
        c == scaled_channel(base, shade),
{
    assert(base as u64 * shade as u64 <= u64::MAX) by (nonlinear_arith)
        requires
            base <= u32::MAX,
            shade <= u32::MAX,
    ;
    let v = base as u64 * shade as u64 / 10000;
    if v > 255 {
        255
    } else {
        v as u8
    }
}

/// Scales the base color `(r, g, b)` by the factor `shade / 10000` and caps
/// each channel at 255.
pub fn shade_color(r: u32, g: u32, b: u32, shade: u32) -> (c: Color)
    ensures
        c == spec_shade_color(r, g, b, shade),
{
    Color { r: scale_channel(r, shade), g: scale_channel(g, shade), b: scale_channel(b, shade) }
}

/// A larger shading factor never darkens a channel.
pub proof fn lemma_shade_monotonic(base: u32, s1: u32, s2: u32)
    requires
        s1 <= s2,
    ensures
        scaled_channel(base, s1) <= scaled_channel(base, s2),
{
    assert(base as int * s1 as int <= base as int * s2 as int) by (nonlinear_arith)
        requires
            s1 <= s2,
            0 <= base,
    ;
    vstd::arithmetic::div_mod::lemma_div_is_ordered(
        base as int * s1 as int,
        base as int * s2 as int,
        10000,
    );
}

/// Undoes `x ^= x >> 16` on 32 bits.
pub open spec fn unshift16(y: u32) -> u32 {
    y ^ (y >> 16u32)
}

/// Undoes `x ^= x >> 15` on 32 bits.
pub open spec fn unshift15(y: u32) -> u32 {
    y ^ (y >> 15u32) ^ (y >> 30u32)
}

/// The inverse of [`spec_hash`]: every step of the hash is undone in reverse
/// order, each multiplication by the inverse of its odd factor modulo 2^32.
pub open spec fn spec_unhash(h: u32) -> u32 {
    let x4 = unshift16(h);
    let x3 = x4.wrapping_mul(0x4302_1123);
    let x2 = unshift15(x3);
    let x1 = x2.wrapping_mul(0x1d69_e2a5);
    unshift16(x1)
}

/// Undoing the hash gives back its input, so the hash is a bijection of `u32`:
/// different inputs never collide.
pub proof fn lemma_hash_invertible(x: u32)
    ensures
        spec_unhash(spec_hash(x)) == x,
        forall|y: u32| spec_hash(y) == spec_hash(x) ==> y == x,
{
    assert forall|v: u32| #[trigger] unshift16(v ^ (v >> 16u32)) == v by {
        assert((v ^ (v >> 16u32)) ^ ((v ^ (v >> 16u32)) >> 16u32) == v) by (bit_vector);
    }
    assert forall|v: u32| #[trigger] unshift15(v ^ (v >> 15u32)) == v by {
        assert((v ^ (v >> 15u32)) ^ ((v ^ (v >> 15u32)) >> 15u32) ^ ((v ^ (v >> 15u32)) >> 30u32)
            == v) by (bit_vector);
    }
    assert forall|v: u32| #[trigger] v.wrapping_mul(0x7feb_352d).wrapping_mul(0x1d69_e2a5) == v by {
        assert((((v * 0x7feb_352du32) % 0x1_0000_0000) * 0x1d69_e2a5u32) % 0x1_0000_0000 == v)
            by (bit_vector);
    }
    assert forall|v: u32| #[trigger] v.wrapping_mul(0x846c_a68b).wrapping_mul(0x4302_1123) == v by {
        assert((((v * 0x846c_a68bu32) % 0x1_0000_0000) * 0x4302_1123u32) % 0x1_0000_0000 == v)
            by (bit_vector);
    }
    let x1 = x ^ (x >> 16u32);
    let x2 = x1.wrapping_mul(0x7feb_352d);
    let x3 = x2 ^ (x2 >> 15u32);
    let x4 = x3.wrapping_mul(0x846c_a68b);
    assert(unshift16(x1) == x);
    assert(x2.wrapping_mul(0x1d69_e2a5) == x1);
    assert(unshift15(x3) == x2);
    assert(x4.wrapping_mul(0x4302_1123) == x3);
    assert(unshift16(x4 ^ (x4 >> 16u32)) == x4);
    assert forall|y: u32| spec_hash(y) == spec_hash(x) implies y == x by {
        assert(spec_unhash(spec_hash(y)) == y) by {
            let y1 = y ^ (y >> 16u32);
            let y2 = y1.wrapping_mul(0x7feb_352d);
            let y3 = y2 ^ (y2 >> 15u32);
            let y4 = y3.wrapping_mul(0x846c_a68b);
            assert(unshift16(y1) == y);
            assert(y2.wrapping_mul(0x1d69_e2a5) == y1);
            assert(unshift15(y3) == y2);
            assert(y4.wrapping_mul(0x4302_1123) == y3);
            assert(unshift16(y4 ^ (y4 >> 16u32)) == y4);
        }
    }
}

} // verus!
