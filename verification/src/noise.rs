//! Coherent value noise over the fixed-point plane: a lattice hash,
//! bilinear interpolation between lattice corners, a ridged variant, and a
//! domain warp. Deterministic for a fixed seed, with every sample in
//! `[0, NOISE_AMP]`.

use vstd::prelude::*;

verus! {

/// Amplitude of one noise sample.
pub const NOISE_AMP: u64 = 100_000;

/// Modulus of the lattice hash.
pub const LATTICE_M: u64 = 1_000_003;

/// Offset making warped coordinates nonnegative before lattice division.
pub const NOISE_BIAS: i64 = 101_000_000;

/// The lattice hash: a fixed mixing of the seed and the lattice corner,
/// scaled into `[0, NOISE_AMP]`.
pub open spec fn lattice_hash_spec(seed: u64, xi: u64, zi: u64) -> int {
    let m = (((xi as int) % (LATTICE_M as int)) * 31 + ((zi as int) % (LATTICE_M as int)) * 57 + (
    (seed as int) % (LATTICE_M as int)) * 97) % (LATTICE_M as int);
    m * NOISE_AMP / (LATTICE_M as int)
}

fn lattice_hash(seed: u64, xi: u64, zi: u64) -> (r: u64)
    ensures
        r == lattice_hash_spec(seed, xi, zi),
        r <= NOISE_AMP,
{
    let m = ((xi % LATTICE_M) * 31 + (zi % LATTICE_M) * 57 + (seed % LATTICE_M) * 97) % LATTICE_M;
    let r = m * NOISE_AMP / LATTICE_M;
    proof {
        assert(m * NOISE_AMP <= (LATTICE_M - 1) * NOISE_AMP) by (nonlinear_arith)
            requires
                m <= LATTICE_M - 1,
        ;
        assert((LATTICE_M - 1) * NOISE_AMP / (LATTICE_M as int) <= NOISE_AMP)
            by (nonlinear_arith);
        assert(m * NOISE_AMP / (LATTICE_M as int) <= (LATTICE_M - 1) * NOISE_AMP / (
        LATTICE_M as int)) by (nonlinear_arith)
            requires
                m * NOISE_AMP <= (LATTICE_M - 1) * NOISE_AMP,
        ;
    }
    r
}

/// Bilinear interpolation of four corner samples with fractions
/// `fx / freq` and `fz / freq`.
pub open spec fn bilerp_spec(h00: int, h10: int, h01: int, h11: int, fx: int, fz: int, freq: int) -> int {
    (h00 * ((freq - fx) * (freq - fz)) + h10 * (fx * (freq - fz)) + h01 * ((freq - fx) * fz)
        + h11 * (fx * fz)) / (freq * freq)
}

/// Interpolate four corner samples bilinearly.
#[verifier::rlimit(60)]
fn bilerp(h00: u64, h10: u64, h01: u64, h11: u64, fx: u64, fz: u64, freq: u64) -> (r: u64)
    requires
        1 <= freq <= 1_000_000,
        fx < freq,
        fz < freq,
        h00 <= NOISE_AMP,
        h10 <= NOISE_AMP,
        h01 <= NOISE_AMP,
        h11 <= NOISE_AMP,
    ensures
        r == bilerp_spec(h00 as int, h10 as int, h01 as int, h11 as int, fx as int, fz as int, freq as int),
        r <= NOISE_AMP,
{
    proof {
        assert(h00 * ((freq - fx) * (freq - fz)) + h10 * (fx * (freq - fz)) + h01 * ((freq - fx)
            * fz) + h11 * (fx * fz) <= NOISE_AMP * ((freq * freq) as int) && h00 * ((freq - fx)
            * (freq - fz)) <= 100_000_000_000_000_000 && h10 * (fx * (freq - fz))
            <= 100_000_000_000_000_000 && h01 * ((freq - fx) * fz) <= 100_000_000_000_000_000
            && h11 * (fx * fz) <= 100_000_000_000_000_000 && (freq - fx) * (freq - fz)
            <= 1_000_000_000_000 && fx * (freq - fz) <= 1_000_000_000_000 && (freq - fx) * fz
            <= 1_000_000_000_000 && fx * fz <= 1_000_000_000_000 && 1 <= freq * freq
            <= 1_000_000_000_000 && 0 <= (freq - fx) * (freq - fz) && 0 <= fx * (freq - fz) && 0
            <= (freq - fx) * fz && 0 <= fx * fz) by (nonlinear_arith)
            requires
                0 <= fx < freq,
                0 <= fz < freq,
                1 <= freq <= 1_000_000,
                0 <= h00 <= NOISE_AMP,
                0 <= h10 <= NOISE_AMP,
                0 <= h01 <= NOISE_AMP,
                0 <= h11 <= NOISE_AMP,
        ;
        let num = h00 * ((freq - fx) * (freq - fz)) + h10 * (fx * (freq - fz)) + h01 * ((freq
            - fx) * fz) + h11 * (fx * fz);
        assert(num / ((freq * freq) as int) <= NOISE_AMP) by (nonlinear_arith)
            requires
                0 <= num <= NOISE_AMP * ((freq * freq) as int),
                1 <= freq <= 1_000_000,
        ;
    }
    let num = h00 * ((freq - fx) * (freq - fz)) + h10 * (fx * (freq - fz)) + h01 * ((freq - fx)
        * fz) + h11 * (fx * fz);
    num / (freq * freq)
}

/// One bilinear value-noise sample at frequency `freq`.
#[verifier::opaque]
pub open spec fn value_noise_spec(seed: u64, x: i64, z: i64, freq: u64) -> int {
    let xb = (x + NOISE_BIAS) as int;
    let zb = (z + NOISE_BIAS) as int;
    let xi = xb / (freq as int);
    let zi = zb / (freq as int);
    let fx = xb % (freq as int);
    let fz = zb % (freq as int);
    bilerp_spec(
        lattice_hash_spec(seed, xi as u64, zi as u64),
        lattice_hash_spec(seed, (xi + 1) as u64, zi as u64),
        lattice_hash_spec(seed, xi as u64, (zi + 1) as u64),
        lattice_hash_spec(seed, (xi + 1) as u64, (zi + 1) as u64),
        fx,
        fz,
        freq as int,
    )
}

/// Sample smooth value noise: bilinear interpolation of the four lattice
/// corners around the point.
pub fn value_noise(seed: u64, x: i64, z: i64, freq: u64) -> (r: u64)
    requires
        1 <= freq <= 1_000_000,
        -NOISE_BIAS <= x <= NOISE_BIAS,
        -NOISE_BIAS <= z <= NOISE_BIAS,
    ensures
        r == value_noise_spec(seed, x, z, freq),
        r <= NOISE_AMP,
{
    let xb = (x + NOISE_BIAS) as u64;
    let zb = (z + NOISE_BIAS) as u64;
    let xi = xb / freq;
    let zi = zb / freq;
    let fx = xb % freq;
    let fz = zb % freq;
    let h00 = lattice_hash(seed, xi, zi);
    let h10 = lattice_hash(seed, xi + 1, zi);
    let h01 = lattice_hash(seed, xi, zi + 1);
    let h11 = lattice_hash(seed, xi + 1, zi + 1);
    proof {
        reveal(value_noise_spec);
        assert(fx < freq && fz < freq);
    }
    bilerp(h00, h10, h01, h11, fx, fz, freq)
}

/// The ridged transform: peaks where the raw sample crosses the midpoint.
pub open spec fn ridged_spec(v: int) -> int {
    if 2 * v >= NOISE_AMP {
        NOISE_AMP - (2 * v - NOISE_AMP)
    } else {
        NOISE_AMP - (NOISE_AMP - 2 * v)
    }
}

/// Fold a raw sample into a ridge shape.
pub fn ridged(v: u64) -> (r: u64)
    requires
        v <= NOISE_AMP,
    ensures
        r == ridged_spec(v as int),
        r <= NOISE_AMP,
{
    if 2 * v >= NOISE_AMP {
        NOISE_AMP - (2 * v - NOISE_AMP)
    } else {
        NOISE_AMP - (NOISE_AMP - 2 * v)
    }
}

/// The warp offset a raw sample commands, in fixed-point world units.
pub open spec fn warp_offset_spec(v: int) -> int {
    (v - (NOISE_AMP as int) / 2) * 8
}

/// Turn a raw sample into a signed domain-warp offset.
pub fn warp_offset(v: u64) -> (r: i64)
    requires
        v <= NOISE_AMP,
    ensures
        r == warp_offset_spec(v as int),
        -400_000 <= r <= 400_000,
{
    (v as i64 - (NOISE_AMP as i64) / 2) * 8
}

/// Frequency of the warp field.
pub const WARP_FREQ: u64 = 250_000;

/// Frequency of the low-frequency component.
pub const LOW_FREQ: u64 = 400_000;

/// Frequency of the ridged component.
pub const RIDGE_FREQ: u64 = 120_000;

/// The domain-warped noise delta at a site: the sample position is offset
/// by another noise sample to avoid axis-aligned artifacts; a centered
/// low-frequency component (scaled down over sea cells) is blended with a
/// ridged component scaled by the proximity to mountain-forming
/// convergent boundaries.
pub open spec fn noise_delta_spec(seed: u64, x: i64, z: i64, conv_d: int, ocean: bool) -> int {
    let xw = x + warp_offset_spec(value_noise_spec(seed ^ 1, x, z, WARP_FREQ));
    let zw = z + warp_offset_spec(value_noise_spec(seed ^ 2, z, x, WARP_FREQ));
    let low = value_noise_spec(seed, xw as i64, zw as i64, LOW_FREQ);
    let rid = ridged_spec(value_noise_spec(seed ^ 3, xw as i64, zw as i64, RIDGE_FREQ));
    (if ocean {
        low / 4 - 12_500
    } else {
        low / 2 - 25_000
    }) + rid * crate::height::hyper_bump_spec(conv_d, SS_BLEND as int, 3_000_000) / (2 * (
    SS_BLEND as int))
}

/// Fixed-point unit of the ridged blend factor.
pub const SS_BLEND: u64 = 1_000;

/// Compute the domain-warped noise delta of one site.
#[verifier::rlimit(100)]
pub fn noise_delta(seed: u64, x: i64, z: i64, conv_d: u64, ocean: bool) -> (r: i64)
    requires
        -100_000_000 <= x <= 100_000_000,
        -100_000_000 <= z <= 100_000_000,
        conv_d <= 1_000_000_000,
    ensures
        r == noise_delta_spec(seed, x, z, conv_d as int, ocean),
        -100_000 <= r <= 100_000,
{
    let wx = warp_offset(value_noise(seed ^ 1, x, z, WARP_FREQ));
    let wz = warp_offset(value_noise(seed ^ 2, z, x, WARP_FREQ));
    let xw = x + wx;
    let zw = z + wz;
    let low = value_noise(seed, xw, zw, LOW_FREQ);
    let rid = ridged(value_noise(seed ^ 3, xw, zw, RIDGE_FREQ));
    let factor = crate::height::hyper_bump(conv_d, SS_BLEND, 3_000_000);
    proof {
        assert(rid * factor <= NOISE_AMP * SS_BLEND) by (nonlinear_arith)
            requires
                0 <= rid <= NOISE_AMP,
                0 <= factor <= SS_BLEND,
        ;
        assert(rid * factor / ((2 * SS_BLEND) as int) <= NOISE_AMP / 2) by (nonlinear_arith)
            requires
                0 <= rid * factor <= NOISE_AMP * SS_BLEND,
                SS_BLEND >= 1,
        ;
    }
    let ridc = (rid * factor / (2 * SS_BLEND)) as i64;
    let lowc: i64 = if ocean {
        (low / 4) as i64 - 12_500
    } else {
        (low / 2) as i64 - 25_000
    };
    lowc + ridc
}

} // verus!
