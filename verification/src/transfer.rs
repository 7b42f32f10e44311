//! The sRGB transfer curve, between encoded and linear-light intensities.
//!
//! Both directions follow the two-piece curve of the sRGB standard: a
//! straight line near black and a power law with exponent 2.4 above it.
//! Intensities are fixed-point, so the powers are taken through integer
//! roots, each rounded down.

use vstd::prelude::*;
use crate::dither::LinearRgb;
use crate::fixed::{
    div_trunc, iroot, isqrt, lemma_power_base_monotonic, lemma_sqrt_floor_bounds, power,
    root_floor, sqrt_floor,
};
use crate::image::{Image, Rgb8};

verus! {

/// Encoded intensities up to this one (`0.04045`) lie on the straight piece.
pub const ENCODED_KNEE: i32 = 40_450;

/// Linear intensities up to this one (`0.00313`) lie on the straight piece.
pub const LINEAR_KNEE: i32 = 3_130;

/// The intensity `t` raised to the power `2.4`: its square times the fifth
/// root of its square, with the root rounded down before the product is
/// taken and the product after.
pub open spec fn spec_expand(t: int) -> int
    recommends
        t >= 0,
{
    let square = t * t;
    let fifth_root = root_floor((square * 1_000_000_000_000_000_000) as nat, 5);
    square * fifth_root / 1_000_000_000_000
}

/// The linear-light intensity of the encoded intensity `c`.
pub open spec fn spec_srgb_to_linear(c: int) -> int {
    if c <= ENCODED_KNEE {
        div_trunc(c * 100, 1292)
    } else {
        spec_expand((c + 55_000) * 1000 / 1055)
    }
}

/// The twelfth root of the intensity `c`: a square root, a square root and
/// a cube root in turn, each rounded down.
pub open spec fn spec_twelfth_root(c: int) -> int
    recommends
        c >= 0,
{
    let a = sqrt_floor((c * 1_000_000) as nat);
    let b = sqrt_floor((a * 1_000_000) as nat);
    root_floor((b * 1_000_000_000_000) as nat, 3) as int
}

/// The intensity `c` raised to the power `1 / 2.4`: the fifth power of its
/// twelfth root, rounded down.
pub open spec fn spec_compress(c: int) -> int
    recommends
        c >= 0,
{
    power(spec_twelfth_root(c), 5) / 1_000_000_000_000_000_000_000_000
}

/// The encoded intensity of the linear-light intensity `c`.
pub open spec fn spec_linear_to_srgb(c: int) -> int {
    if c <= LINEAR_KNEE {
        div_trunc(c * 1292, 100)
    } else {
        1055 * spec_compress(c) / 1000 - 55_000
    }
}

/// The powers below which the roots of this module are searched for.
proof fn lemma_power_constants()
    ensures
        power(0x200_0000, 5) == 0x2000_0000_0000_0000_0000_0000_0000_0000,
        power(0x20_0000, 3) == 0x8000_0000_0000_0000,
        power(1_000_000, 5) == 1_000_000_000_000_000_000_000_000_000_000,
{
    reveal_with_fuel(power, 6);
    assert(0x200_0000int * (0x200_0000int * (0x200_0000int * (0x200_0000int * (0x200_0000int
        * 1)))) == 0x2000_0000_0000_0000_0000_0000_0000_0000) by (nonlinear_arith);
    assert(0x20_0000int * (0x20_0000int * (0x20_0000int * 1)) == 0x8000_0000_0000_0000)
        by (nonlinear_arith);
    assert(1_000_000int * (1_000_000int * (1_000_000int * (1_000_000int * (1_000_000int * 1))))
        == 1_000_000_000_000_000_000_000_000_000_000) by (nonlinear_arith);
}

/// `t` raised to the power 2.4, for an intensity `t`.
fn expand(t: u64) -> (r: u64)
    requires
        t <= 0x8000_0000,
    ensures
        r == spec_expand(t as int),
        r <= 0xffff_ffff_ffff,
{
    assert(t * t <= 0x4000_0000_0000_0000) by (nonlinear_arith)
        requires
            t <= 0x8000_0000,
    ;
    let square: u128 = (t as u128) * (t as u128);
    proof {
        lemma_power_constants();
    }
    let fifth_root = iroot(square * 1_000_000_000_000_000_000, 5, 0x200_0000) as u128;
    proof {
        assert(square * fifth_root <= 0x4000_0000_0000_0000 * 0x200_0000) by (nonlinear_arith)
            requires
                0 <= square <= 0x4000_0000_0000_0000,
                0 <= fifth_root <= 0x200_0000,
        ;
    }
    (square * fifth_root / 1_000_000_000_000) as u64
}

/// Decodes an sRGB-encoded intensity to linear light.
///
/// Up to the knee at `0.04045` the intensity is divided by `12.92`; above
/// it, `(c + 0.055) / 1.055` is raised to the power `2.4`.
pub fn srgb_to_linear(c: i32) -> (r: i64)
    ensures
        r == spec_srgb_to_linear(c as int),
{
    if c <= ENCODED_KNEE {
        (c as i64 * 100) / 1292
    } else {
        let t = ((c as u64 + 55_000) * 1000) / 1055;
        expand(t) as i64
    }
}

/// The fifth power of a twelfth root.
fn fifth_power(r: u128) -> (p: u128)
    requires
        r < 0x20_0000,
    ensures
        p == power(r as int, 5),
{
    proof {
        reveal_with_fuel(power, 6);
    }
    assert(r * r < 0x400_0000_0000 && (r * r) * (r * r) < 0x10_0000_0000_0000_0000_0000 && (r
        * r) * (r * r) * r < 0x200_0000_0000_0000_0000_0000_0000) by (nonlinear_arith)
        requires
            0 <= r < 0x20_0000,
    {
        assert(r * r < 0x20_0000 * 0x20_0000);
        assert((r * r) * (r * r) < 0x400_0000_0000 * 0x400_0000_0000);
        assert((r * r) * (r * r) * r < 0x10_0000_0000_0000_0000_0000 * 0x20_0000);
    }
    let r2 = r * r;
    let p = r2 * r2 * r;
    assert(p == r * (r * (r * (r * (r * 1))))) by (nonlinear_arith)
        requires
            p == (r * r) * (r * r) * r,
    ;
    p
}

/// `c` raised to the power `1 / 2.4`, for a positive intensity `c`.
fn compress(c: u64) -> (r: u64)
    requires
        c <= 0x8000_0000,
    ensures
        r == spec_compress(c as int),
{
    let a = isqrt(c as u128 * 1_000_000) as u128;
    proof {
        lemma_sqrt_floor_bounds((c * 1_000_000) as nat);
        assert(a < 0x400_0000) by (nonlinear_arith)
            requires
                a * a <= c * 1_000_000,
                c <= 0x8000_0000,
        {
            if a >= 0x400_0000 {
                assert(a * a >= 0x400_0000 * 0x400_0000);
            }
        }
    }
    let b = isqrt(a * 1_000_000) as u128;
    proof {
        lemma_sqrt_floor_bounds((a * 1_000_000) as nat);
        assert(b < 0x80_0000) by (nonlinear_arith)
            requires
                b * b <= a * 1_000_000,
                a < 0x400_0000,
        {
            if b >= 0x80_0000 {
                assert(b * b >= 0x80_0000 * 0x80_0000);
            }
        }
    }
    proof {
        lemma_power_constants();
    }
    let root = iroot(b * 1_000_000_000_000, 3, 0x20_0000) as u128;
    (fifth_power(root) / 1_000_000_000_000_000_000_000_000) as u64
}

/// Encodes a linear-light intensity for sRGB.
///
/// Up to the knee at `0.00313` the intensity is multiplied by `12.92`;
/// above it, it is raised to the power `1 / 2.4`, scaled by `1.055` and
/// lowered by `0.055`.
pub fn linear_to_srgb(c: i32) -> (r: i64)
    ensures
        r == spec_linear_to_srgb(c as int),
{
    if c <= LINEAR_KNEE {
        (c as i64 * 1292) / 100
    } else {
        let p = compress(c as u64);
        proof {
            lemma_compress_bound(c as int);
        }
        ((1055 * p) / 1000) as i64 - 55_000
    }
}

/// The compressed value of a 32-bit intensity fits in 32 bits.
pub proof fn lemma_compress_bound(c: int)
    requires
        0 <= c <= 0x8000_0000,
    ensures
        0 <= spec_compress(c) < 0x1_0000_0000,
{
    let a = sqrt_floor((c * 1_000_000) as nat);
    lemma_sqrt_floor_bounds((c * 1_000_000) as nat);
    assert(a < 0x400_0000) by (nonlinear_arith)
        requires
            a * a <= c * 1_000_000,
            0 <= c <= 0x8000_0000,
    {
        if a >= 0x400_0000 {
            assert(a * a >= 0x400_0000 * 0x400_0000);
        }
    }
    let b = sqrt_floor((a * 1_000_000) as nat);
    lemma_sqrt_floor_bounds((a * 1_000_000) as nat);
    assert(b < 0x80_0000) by (nonlinear_arith)
        requires
            b * b <= a * 1_000_000,
            a < 0x400_0000,
    {
        if b >= 0x80_0000 {
            assert(b * b >= 0x80_0000 * 0x80_0000);
        }
    }
    let n = (b * 1_000_000_000_000) as nat;
    let root = root_floor(n, 3);
    crate::fixed::lemma_root_floor_exists(n, 3);
    lemma_power_constants();
    if root >= 0x20_0000 {
        lemma_power_base_monotonic(0x20_0000, root as int, 3);
    }
    lemma_power_base_monotonic(root as int, 0x20_0000, 5);
    crate::fixed::lemma_power_sign(root as int, 5);
    reveal_with_fuel(power, 6);
    assert(0x20_0000int * (0x20_0000int * (0x20_0000int * (0x20_0000int * (0x20_0000int * 1))))
        == 0x200_0000_0000_0000_0000_0000_0000) by (nonlinear_arith);
}

/// The fixed-point intensity of an 8-bit channel value: `v / 255`, rounded down.
pub open spec fn spec_channel_to_fixed(v: u8) -> int {
    v * 1_000_000 / 255
}

/// The 8-bit channel value nearest to a fixed-point intensity: `e * 255`,
/// rounded to the nearest integer and kept within `0..=255`.
pub open spec fn spec_fixed_to_channel(e: int) -> int {
    if e <= 0 {
        0
    } else if (e * 255 + 500_000) / 1_000_000 >= 255 {
        255
    } else {
        (e * 255 + 500_000) / 1_000_000
    }
}

/// The fixed-point intensity of an 8-bit channel value.
pub fn channel_to_fixed(v: u8) -> (c: i32)
    ensures
        c == spec_channel_to_fixed(v),
        0 <= c <= 1_000_000,
{
    ((v as i32) * 1_000_000) / 255
}

/// The 8-bit channel value nearest to a fixed-point intensity.
pub fn fixed_to_channel(e: i64) -> (v: u8)
    ensures
        v == spec_fixed_to_channel(e as int),
{
    if e <= 0 {
        0
    } else {
        let q = (e as i128 * 255 + 500_000) / 1_000_000;
        if q >= 255 {
            255
        } else {
            q as u8
        }
    }
}

/// An encoded intensity between zero and one decodes to a linear intensity
/// between zero and one.
pub proof fn lemma_srgb_to_linear_range(c: int)
    requires
        0 <= c <= 1_000_000,
    ensures
        0 <= spec_srgb_to_linear(c) <= 1_000_000,
{
    if c > ENCODED_KNEE {
        let t = (c + 55_000) * 1000 / 1055;
        let square = t * t;
        assert(0 <= square <= 1_000_000_000_000) by (nonlinear_arith)
            requires
                square == t * t,
                0 <= t <= 1_000_000,
        ;
        let n = (square * 1_000_000_000_000_000_000) as nat;
        let v = root_floor(n, 5);
        crate::fixed::lemma_root_floor_exists(n, 5);
        lemma_power_constants();
        if v > 1_000_000 {
            lemma_power_base_monotonic(1_000_001, v as int, 5);
            lemma_power_base_monotonic(1_000_000, 1_000_001, 5);
        }
        assert(0 <= square * v <= 1_000_000_000_000 * 1_000_000) by (nonlinear_arith)
            requires
                0 <= square <= 1_000_000_000_000,
                0 <= v <= 1_000_000,
        ;
    }
}

/// The linear-light colour of an 8-bit sRGB pixel.
pub open spec fn spec_pixel_to_linear(p: Rgb8) -> LinearRgb {
    LinearRgb {
        r: spec_srgb_to_linear(spec_channel_to_fixed(p.r)) as i32,
        g: spec_srgb_to_linear(spec_channel_to_fixed(p.g)) as i32,
        b: spec_srgb_to_linear(spec_channel_to_fixed(p.b)) as i32,
    }
}

/// The 8-bit sRGB pixel of a linear-light colour.
pub open spec fn spec_pixel_to_srgb(p: LinearRgb) -> Rgb8 {
    Rgb8 {
        r: spec_fixed_to_channel(spec_linear_to_srgb(p.r as int)) as u8,
        g: spec_fixed_to_channel(spec_linear_to_srgb(p.g as int)) as u8,
        b: spec_fixed_to_channel(spec_linear_to_srgb(p.b as int)) as u8,
    }
}

fn channel_to_linear(v: u8) -> (c: i32)
    ensures
        c == spec_srgb_to_linear(spec_channel_to_fixed(v)),
{
    let encoded = channel_to_fixed(v);
    proof {
        lemma_srgb_to_linear_range(encoded as int);
    }
    srgb_to_linear(encoded) as i32
}

/// Decodes an 8-bit sRGB image to linear light, channel by channel.
pub fn to_linear(img: &Image<Rgb8>) -> (out: Image<LinearRgb>)
    requires
        img.wf(),
    ensures
        out.wf(),
        out.width == img.width,
        out.height == img.height,
        forall|i: int|
            0 <= i < img.pixels@.len() ==> #[trigger] out.pixels@[i] == spec_pixel_to_linear(
                img.pixels@[i],
            ),
{
    let mut pixels: Vec<LinearRgb> = Vec::new();
    let mut i: usize = 0;
    while i < img.pixels.len()
        invariant
            i <= img.pixels@.len(),
            pixels@.len() == i,
            forall|j: int|
                0 <= j < i ==> #[trigger] pixels@[j] == spec_pixel_to_linear(img.pixels@[j]),
        decreases img.pixels.len() - i,
    {
        let p = img.pixels[i];
        pixels.push(
            LinearRgb {
                r: channel_to_linear(p.r),
                g: channel_to_linear(p.g),
                b: channel_to_linear(p.b),
            },
        );
        i += 1;
    }
    Image { width: img.width, height: img.height, pixels }
}

/// Encodes a linear-light image as 8-bit sRGB, channel by channel.
pub fn to_srgb(img: &Image<LinearRgb>) -> (out: Image<Rgb8>)
    requires
        img.wf(),
    ensures
        out.wf(),
        out.width == img.width,
        out.height == img.height,
        forall|i: int|
            0 <= i < img.pixels@.len() ==> #[trigger] out.pixels@[i] == spec_pixel_to_srgb(
                img.pixels@[i],
            ),
{
    let mut pixels: Vec<Rgb8> = Vec::new();
    let mut i: usize = 0;
    while i < img.pixels.len()
        invariant
            i <= img.pixels@.len(),
            pixels@.len() == i,
            forall|j: int|
                0 <= j < i ==> #[trigger] pixels@[j] == spec_pixel_to_srgb(img.pixels@[j]),
        decreases img.pixels.len() - i,
    {
        let p = img.pixels[i];
        pixels.push(
            Rgb8 {
                r: fixed_to_channel(linear_to_srgb(p.r)),
                g: fixed_to_channel(linear_to_srgb(p.g)),
                b: fixed_to_channel(linear_to_srgb(p.b)),
            },
        );
        i += 1;
    }
    Image { width: img.width, height: img.height, pixels }
}

} // verus!
