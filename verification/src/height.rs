//! The height assembler: composes a per-cell scalar height from a crust
//! baseline, Laplacian smoothing, boundary-proximity features, coastal
//! shaping, domain-warped noise, and river carving, then normalizes into
//! the canonical range.
//!
//! Working heights are fixed-point values biased by `H_BIAS`, which stands
//! for the pre-normalization height zero, so every intermediate value stays
//! a nonnegative integer.

use vstd::prelude::*;

use crate::plates::Crust;
use crate::plates::Plate;
use crate::spatial::SpatialMap;
use crate::worldmap::HEIGHT_ONE;
use crate::worldmap::SEA_LEVEL;

verus! {

/// The stored value standing for pre-normalization height zero.
pub const H_BIAS: u64 = 1_000_000_000;

/// Lower bound every working height respects.
pub const H_LO: u64 = 900_000_000;

/// Upper bound every working height respects.
pub const H_HI: u64 = 1_100_000_000;

/// Lower edge of the band intermediate heights stay in while smoothing.
pub const H_SM_LO: u64 = 990_000_000;

/// Upper edge of the band intermediate heights stay in while smoothing.
pub const H_SM_HI: u64 = 1_010_000_000;

/// Baseline elevation of continental crust, above the bias.
pub const BASE_LAND: u64 = 150_000;

/// Baseline depression of young oceanic crust, below the bias.
pub const BASE_OCEAN: u64 = 250_000;

/// Additional oceanic deepening per million years of age.
pub const DEEPEN_PER_MYR: u64 = 500;

/// Cap on the age-dependent oceanic deepening.
pub const DEEPEN_MAX: u64 = 100_000;

/// The baseline height of a cell: continental crust sits at a constant
/// above the bias; oceanic crust sits at a constant below it, deepened by
/// plate age (clamped), the cooling of oceanic lithosphere.
pub open spec fn baseline_spec(crust: Crust, age: u64) -> int {
    match crust {
        Crust::Continental => H_BIAS + BASE_LAND,
        Crust::Oceanic => {
            let deepen = if age * DEEPEN_PER_MYR > DEEPEN_MAX {
                DEEPEN_MAX as int
            } else {
                age * DEEPEN_PER_MYR
            };
            H_BIAS - BASE_OCEAN - deepen
        },
    }
}

/// Assign the crust baseline to every cell.
pub fn baseline(n: usize, assign: &Vec<usize>, plates: &Vec<Plate>) -> (r: Vec<u64>)
    requires
        assign@.len() == n,
        forall|c: int| 0 <= c < n ==> #[trigger] assign@[c] < plates@.len(),
        forall|g: int| 0 <= g < plates@.len() ==> (#[trigger] plates@[g]).age <= 1_000_000,
    ensures
        r@.len() == n,
        forall|c: int| 0 <= c < n ==> #[trigger] r@[c] == baseline_spec(
            plates@[assign@[c] as int].crust,
            plates@[assign@[c] as int].age,
        ),
        forall|c: int| 0 <= c < n ==> H_SM_LO <= #[trigger] r@[c] <= H_SM_HI,
{
    let mut out: Vec<u64> = Vec::new();
    let mut c: usize = 0;
    while c < n
        invariant
            c <= n,
            assign@.len() == n,
            forall|c2: int| 0 <= c2 < n ==> #[trigger] assign@[c2] < plates@.len(),
            forall|g: int| 0 <= g < plates@.len() ==> (#[trigger] plates@[g]).age <= 1_000_000,
            out@.len() == c,
            forall|c2: int| 0 <= c2 < c ==> #[trigger] out@[c2] == baseline_spec(
                plates@[assign@[c2] as int].crust,
                plates@[assign@[c2] as int].age,
            ),
            forall|c2: int| 0 <= c2 < c ==> H_SM_LO <= #[trigger] out@[c2] <= H_SM_HI,
        decreases n - c,
    {
        let p = &plates[assign[c]];
        let h: u64 = match p.crust {
            Crust::Continental => H_BIAS + BASE_LAND,
            Crust::Oceanic => {
                let raw = p.age * DEEPEN_PER_MYR;
                let deepen = if raw > DEEPEN_MAX {
                    DEEPEN_MAX
                } else {
                    raw
                };
                H_BIAS - BASE_OCEAN - deepen
            },
        };
        out.push(h);
        c = c + 1;
    }
    out
}

/// Sum of the heights of the first `j` neighbors of cell `a`.
pub open spec fn nb_sum(map: &SpatialMap, h: Seq<u64>, a: int, j: int) -> int
    decreases j,
{
    if j <= 0 {
        0
    } else {
        nb_sum(map, h, a, j - 1) + h[map.spatial_neighbor(a, j - 1)]
    }
}

/// The smoothed height of cell `a`: halfway between its own height and the
/// mean of its neighbors; a cell without neighbors keeps its height.
pub open spec fn smooth_spec(map: &SpatialMap, h: Seq<u64>, a: int) -> int {
    let cnt = map.spatial_neighbor_count(a);
    if cnt == 0 {
        h[a] as int
    } else {
        (h[a] + nb_sum(map, h, a, cnt) / cnt) / 2
    }
}

proof fn lemma_nb_sum_bounds(map: &SpatialMap, h: Seq<u64>, a: int, j: int, lo: int, hi: int)
    requires
        map.wf(),
        h.len() == map.n(),
        0 <= a < map.n(),
        0 <= j <= map.spatial_neighbor_count(a),
        forall|c: int| 0 <= c < map.n() ==> lo <= #[trigger] h[c] <= hi,
        0 <= lo,
    ensures
        j * lo <= nb_sum(map, h, a, j) <= j * hi,
    decreases j,
{
    if j > 0 {
        lemma_nb_sum_bounds(map, h, a, j - 1, lo, hi);
        let b = map.spatial_neighbor(a, j - 1);
        assert(map.neighbors@[a]@[j - 1] == b && 0 <= b < map.n());
        assert((j - 1) * lo + lo == j * lo && (j - 1) * hi + hi == j * hi) by (nonlinear_arith);
    }
}

/// One Laplacian smoothing pass: every cell moves halfway toward the mean
/// of its neighbors, reading only the previous heights, so the pass is
/// order-independent. Bounds are preserved.
pub fn smooth_pass(map: &SpatialMap, h: &Vec<u64>) -> (r: Vec<u64>)
    requires
        map.wf(),
        h@.len() == map.n(),
        forall|c: int| 0 <= c < map.n() ==> H_SM_LO <= #[trigger] h@[c] <= H_SM_HI,
    ensures
        r@.len() == map.n(),
        forall|c: int| 0 <= c < map.n() ==> #[trigger] r@[c] == smooth_spec(map, h@, c),
        forall|c: int| 0 <= c < map.n() ==> H_SM_LO <= #[trigger] r@[c] <= H_SM_HI,
{
    let n = map.len();
    let mut out: Vec<u64> = Vec::new();
    let mut a: usize = 0;
    while a < n
        invariant
            map.wf(),
            n == map.n(),
            a <= n,
            h@.len() == n,
            forall|c: int| 0 <= c < n ==> H_SM_LO <= #[trigger] h@[c] <= H_SM_HI,
            out@.len() == a,
            forall|c: int| 0 <= c < a ==> #[trigger] out@[c] == smooth_spec(map, h@, c),
            forall|c: int| 0 <= c < a ==> H_SM_LO <= #[trigger] out@[c] <= H_SM_HI,
        decreases n - a,
    {
        let cnt = map.neighbors[a].len();
        if cnt == 0 {
            out.push(h[a]);
        } else {
            let mut sum: u64 = 0;
            let mut j: usize = 0;
            while j < cnt
                invariant
                    map.wf(),
                    n == map.n(),
                    a < n,
                    j <= cnt,
                    cnt == map.spatial_neighbor_count(a as int),
                    h@.len() == n,
                    forall|c: int| 0 <= c < n ==> H_SM_LO <= #[trigger] h@[c] <= H_SM_HI,
                    sum == nb_sum(map, h@, a as int, j as int),
                    sum <= j * (H_SM_HI as int),
                decreases cnt - j,
            {
                let b = map.neighbors[a][j];
                proof {
                    assert(map.spatial_neighbor(a as int, j as int) == b as int);
                    assert(j * (H_SM_HI as int) + H_SM_HI <= 64 * (H_SM_HI as int))
                        by (nonlinear_arith)
                        requires
                            0 <= j <= 63,
                    ;
                }
                sum = sum + h[b];
                j = j + 1;
            }
            proof {
                lemma_nb_sum_bounds(map, h@, a as int, cnt as int, H_SM_LO as int, H_SM_HI as int);
                let s = nb_sum(map, h@, a as int, cnt as int);
                assert(H_SM_LO <= s / (cnt as int) <= H_SM_HI) by (nonlinear_arith)
                    requires
                        (cnt as int) * (H_SM_LO as int) <= s <= (cnt as int) * (H_SM_HI as int),
                        1 <= cnt as int,
                        0 < H_SM_LO < H_SM_HI,
                ;
            }
            let avg = sum / (cnt as u64);
            let v = (h[a] + avg) / 2;
            out.push(v);
        }
        a = a + 1;
    }
    out
}

/// Add a bounded signed delta to every height, exactly.
pub fn apply_deltas(h: &Vec<u64>, deltas: &Vec<i64>) -> (r: Vec<u64>)
    requires
        deltas@.len() == h@.len(),
        forall|c: int|
            0 <= c < deltas@.len() ==> -10_000_000 <= #[trigger] deltas@[c] <= 10_000_000,
        forall|c: int|
            0 <= c < h@.len() ==> H_LO + 10_000_000 <= #[trigger] h@[c] <= H_HI
                - 10_000_000,
    ensures
        r@.len() == h@.len(),
        forall|c: int| 0 <= c < h@.len() ==> #[trigger] r@[c] == h@[c] + deltas@[c],
{
    let n = h.len();
    let mut out: Vec<u64> = Vec::new();
    let mut c: usize = 0;
    while c < n
        invariant
            c <= n,
            h@.len() == n,
            deltas@.len() == n,
            forall|c2: int|
                0 <= c2 < n ==> -10_000_000 <= #[trigger] deltas@[c2] <= 10_000_000,
            forall|c2: int|
                0 <= c2 < n ==> H_LO + 10_000_000 <= #[trigger] h@[c2] <= H_HI - 10_000_000,
            out@.len() == c,
            forall|c2: int| 0 <= c2 < c ==> #[trigger] out@[c2] == h@[c2] + deltas@[c2],
        decreases n - c,
    {
        let d = deltas[c];
        let v: u64 = if d >= 0 {
            h[c] + (d as u64)
        } else {
            h[c] - ((-d) as u64)
        };
        out.push(v);
        c = c + 1;
    }
    out
}

/// The fixed-point unit of the smoothstep result.
pub const SS_ONE: u64 = 1_000;

/// A hyperbolic falloff bump: full height at the feature, halving at
/// distance `w`.
pub open spec fn hyper_bump_spec(d: int, h: int, w: int) -> int {
    h * w / (w + d)
}

/// Evaluate the hyperbolic falloff bump.
pub fn hyper_bump(d: u64, h: u64, w: u64) -> (r: u64)
    requires
        1 <= w <= 1_000_000_000,
        h <= 1_000_000,
        d <= 1_000_000_000_000,
    ensures
        r == hyper_bump_spec(d as int, h as int, w as int),
        r <= h,
{
    proof {
        assert(h * w <= 1_000_000_000_000_000 && h * w >= 0) by (nonlinear_arith)
            requires
                0 <= h <= 1_000_000,
                0 <= w <= 1_000_000_000,
        ;
        assert(h * w / ((w + d) as int) <= h) by (nonlinear_arith)
            requires
                0 <= h,
                1 <= w,
                0 <= d,
        ;
    }
    h * w / (w + d)
}

/// A rational bell bump centered at `center`: full height at the center,
/// falling off with the square of the distance on the scale `w`.
pub open spec fn bell_bump_spec(d: int, center: int, h: int, w: int) -> int {
    let dd = if d >= center {
        d - center
    } else {
        center - d
    };
    h * (w * w) / (w * w + dd * dd)
}

/// Evaluate the bell bump.
pub fn bell_bump(d: u64, center: u64, h: u64, w: u64) -> (r: u64)
    requires
        1 <= w <= 1_000_000,
        h <= 1_000_000,
        d <= 1_000_000_000,
        center <= 1_000_000_000,
    ensures
        r == bell_bump_spec(d as int, center as int, h as int, w as int),
        r <= h,
{
    let dd: u64 = if d >= center {
        d - center
    } else {
        center - d
    };
    proof {
        assert(1 <= w * w <= 1_000_000_000_000 && 0 <= dd * dd <= 1_000_000_000_000_000_000 && h
            * (w * w) <= 1_000_000_000_000_000_000) by (nonlinear_arith)
            requires
                1 <= w <= 1_000_000,
                0 <= dd <= 1_000_000_000,
                0 <= h <= 1_000_000,
        ;
        assert(h * (w * w) / ((w * w + dd * dd) as int) <= h) by (nonlinear_arith)
            requires
                0 <= h,
                1 <= w * w,
                0 <= dd * dd,
        ;
    }
    h * (w * w) / (w * w + dd * dd)
}

/// The smoothstep profile in fixed point: 0 at or below `x0`, `SS_ONE` at
/// or above `x1`, and the cubic ease between them.
pub open spec fn smoothstep_spec(x: int, x0: int, x1: int) -> int {
    if x <= x0 {
        0
    } else if x >= x1 {
        SS_ONE as int
    } else {
        let u = (x - x0) * (SS_ONE as int) / (x1 - x0);
        u * u * (3 * SS_ONE - 2 * u) / ((SS_ONE * SS_ONE) as int)
    }
}

/// Evaluate the fixed-point smoothstep.
pub fn smoothstep_fp(x: u64, x0: u64, x1: u64) -> (r: u64)
    requires
        x0 < x1,
        x1 <= 1_000_000_000_000,
        x <= 1_000_000_000_000,
    ensures
        r == smoothstep_spec(x as int, x0 as int, x1 as int),
        r <= SS_ONE,
{
    if x <= x0 {
        0
    } else if x >= x1 {
        SS_ONE
    } else {
        proof {
            assert((x - x0) * (SS_ONE as int) <= (x1 - x0) * (SS_ONE as int) && 0 <= (x - x0) * (
            SS_ONE as int) <= 1_000_000_000_000_000) by (nonlinear_arith)
                requires
                    0 < x - x0 <= x1 - x0,
                    x1 - x0 <= 1_000_000_000_000,
            ;
            assert((x - x0) * (SS_ONE as int) / ((x1 - x0) as int) <= SS_ONE)
                by (nonlinear_arith)
                requires
                    (x - x0) * (SS_ONE as int) <= (x1 - x0) * (SS_ONE as int),
                    1 <= x1 - x0,
            ;
        }
        let u = (x - x0) * SS_ONE / (x1 - x0);
        proof {
            assert(u * u * (3 * SS_ONE - 2 * u) <= ((SS_ONE * SS_ONE) as int) * (
            SS_ONE as int) && 0 <= u * u * (3 * SS_ONE - 2 * u) && u * u
                <= 1_000_000 && 2 * u <= 3 * SS_ONE) by (nonlinear_arith)
                requires
                    0 <= u <= SS_ONE,
                    SS_ONE == 1_000,
            ;
            assert(u * u * (3 * SS_ONE - 2 * u) / ((SS_ONE * SS_ONE) as int) <= SS_ONE)
                by (nonlinear_arith)
                requires
                    u * u * (3 * SS_ONE - 2 * u) <= ((SS_ONE * SS_ONE) as int) * (SS_ONE as int),
                    SS_ONE == 1_000,
            ;
        }
        u * u * (3 * SS_ONE - 2 * u) / (SS_ONE * SS_ONE)
    }
}

/// Mountain-bump height near convergent boundaries.
pub const MOUNTAIN_H: u64 = 400_000;

/// Falloff width of the mountain bump, in world units.
pub const MOUNTAIN_W: u64 = 3_000_000;

/// Trench depth on the ocean side of a convergent boundary.
pub const TRENCH_H: u64 = 250_000;

/// Width of the trench bell.
pub const TRENCH_W: u64 = 800_000;

/// Volcanic-arc bump height inland of a convergent boundary.
pub const ARC_H: u64 = 150_000;

/// Inland offset of the volcanic arc, in world units.
pub const ARC_CENTER: u64 = 2_000_000;

/// Width of the arc bell.
pub const ARC_W: u64 = 900_000;

/// Ridge-bump height near divergent boundaries.
pub const RIDGE_H: u64 = 120_000;

/// Falloff width of the ridge bump.
pub const RIDGE_W: u64 = 1_000_000;

/// Small bump height near transform boundaries.
pub const TRANSFORM_H: u64 = 40_000;

/// Falloff width of the transform bump.
pub const TRANSFORM_W: u64 = 600_000;

/// World-unit distance a hop count stands for, capped; an unreachable
/// cell keeps an effectively infinite distance that every falloff treats
/// as zero contribution.
pub open spec fn hop_dist_spec(hops: u32, unit: u64) -> int {
    if hops == crate::distance::HOPS_INF {
        1_000_000_000
    } else if hops * unit > 1_000_000_000 {
        1_000_000_000
    } else {
        (hops * unit) as int
    }
}

pub fn hop_dist(hops: u32, unit: u64) -> (r: u64)
    requires
        unit <= 1_000_000_000,
    ensures
        r == hop_dist_spec(hops, unit),
        r <= 1_000_000_000,
{
    if hops == crate::distance::HOPS_INF {
        1_000_000_000
    } else {
        proof {
            assert((hops as int) * unit <= 0xffff_fffe * 1_000_000_000) by (nonlinear_arith)
                requires
                    0 <= hops <= 0xffff_fffe,
                    0 <= unit <= 1_000_000_000,
            ;
        }
        let d = (hops as u64) * unit;
        if d > 1_000_000_000 {
            1_000_000_000
        } else {
            d
        }
    }
}

/// The boundary-feature delta of one cell: a mountain bump keyed to the
/// convergent distance, an asymmetric subduction signature (a trench on
/// the ocean side, an arc offset inland on the land side), a ridge bump
/// near divergent boundaries, and a small transform bump.
pub open spec fn boundary_delta_spec(
    conv: u32,
    conv_ocean: u32,
    conv_land: u32,
    div: u32,
    trans: u32,
    unit: u64,
) -> int {
    hyper_bump_spec(hop_dist_spec(conv, unit), MOUNTAIN_H as int, MOUNTAIN_W as int)
        + bell_bump_spec(hop_dist_spec(conv_land, unit), ARC_CENTER as int, ARC_H as int, ARC_W as int)
        + hyper_bump_spec(hop_dist_spec(div, unit), RIDGE_H as int, RIDGE_W as int)
        + hyper_bump_spec(hop_dist_spec(trans, unit), TRANSFORM_H as int, TRANSFORM_W as int)
        - bell_bump_spec(hop_dist_spec(conv_ocean, unit), 0, TRENCH_H as int, TRENCH_W as int)
}

/// Compose the boundary-feature deltas from the per-kind distance fields.
pub fn boundary_deltas(
    n: usize,
    conv: &Vec<u32>,
    conv_ocean: &Vec<u32>,
    conv_land: &Vec<u32>,
    div: &Vec<u32>,
    trans: &Vec<u32>,
    unit: u64,
) -> (r: Vec<i64>)
    requires
        conv@.len() == n,
        conv_ocean@.len() == n,
        conv_land@.len() == n,
        div@.len() == n,
        trans@.len() == n,
        unit <= 1_000_000_000,
    ensures
        r@.len() == n,
        forall|c: int| 0 <= c < n ==> #[trigger] r@[c] == boundary_delta_spec(
            conv@[c],
            conv_ocean@[c],
            conv_land@[c],
            div@[c],
            trans@[c],
            unit,
        ),
        forall|c: int| 0 <= c < n ==> -1_000_000 <= #[trigger] r@[c] <= 1_000_000,
{
    let mut out: Vec<i64> = Vec::new();
    let mut c: usize = 0;
    while c < n
        invariant
            c <= n,
            conv@.len() == n,
            conv_ocean@.len() == n,
            conv_land@.len() == n,
            div@.len() == n,
            trans@.len() == n,
            unit <= 1_000_000_000,
            out@.len() == c,
            forall|c2: int| 0 <= c2 < c ==> #[trigger] out@[c2] == boundary_delta_spec(
                conv@[c2],
                conv_ocean@[c2],
                conv_land@[c2],
                div@[c2],
                trans@[c2],
                unit,
            ),
            forall|c2: int| 0 <= c2 < c ==> -1_000_000 <= #[trigger] out@[c2] <= 1_000_000,
        decreases n - c,
    {
        let mountain = hyper_bump(hop_dist(conv[c], unit), MOUNTAIN_H, MOUNTAIN_W);
        let arc = bell_bump(hop_dist(conv_land[c], unit), ARC_CENTER, ARC_H, ARC_W);
        let ridge = hyper_bump(hop_dist(div[c], unit), RIDGE_H, RIDGE_W);
        let tb = hyper_bump(hop_dist(trans[c], unit), TRANSFORM_H, TRANSFORM_W);
        let trench = bell_bump(hop_dist(conv_ocean[c], unit), 0, TRENCH_H, TRENCH_W);
        let d: i64 = mountain as i64 + arc as i64 + ridge as i64 + tb as i64 - trench as i64;
        out.push(d);
        c = c + 1;
    }
    out
}

/// Plains bump height on land, saturating away from the shoreline.
pub const PLAINS_H: u64 = 60_000;

/// Shoreline distance at which the plains bump saturates.
pub const PLAINS_W: u64 = 1_500_000;

/// Shelf depression reached past the first break distance at sea.
pub const SHELF_H: u64 = 80_000;

/// First coastal break distance.
pub const SHELF_BREAK: u64 = 600_000;

/// Slope depression reached past the second break distance.
pub const SLOPE_H: u64 = 200_000;

/// Second coastal break distance.
pub const SLOPE_BREAK: u64 = 1_800_000;

/// Abyssal depression reached past the third break distance.
pub const ABYSS_H: u64 = 300_000;

/// Third coastal break distance.
pub const ABYSS_BREAK: u64 = 4_000_000;

/// The coastal-shaping delta of one cell: land gains a plains bump that
/// saturates with distance from the shoreline; sea loses successive
/// shelf, slope, and abyssal depressions, each easing in by a smoothstep
/// between fixed break distances.
pub open spec fn coastal_delta_spec(coast: u32, ocean: bool, unit: u64) -> int {
    let d = hop_dist_spec(coast, unit);
    if ocean {
        -(SHELF_H * smoothstep_spec(d, 0, SHELF_BREAK as int) / (SS_ONE as int) + SLOPE_H
            * smoothstep_spec(d, SHELF_BREAK as int, SLOPE_BREAK as int) / (SS_ONE as int)
            + ABYSS_H * smoothstep_spec(d, SLOPE_BREAK as int, ABYSS_BREAK as int) / (
        SS_ONE as int))
    } else {
        PLAINS_H * smoothstep_spec(d, 0, PLAINS_W as int) / (SS_ONE as int)
    }
}

/// Compose the coastal-shaping deltas from the signed coastal distance.
pub fn coastal_deltas(coast: &Vec<u32>, is_ocean: &Vec<bool>, unit: u64) -> (r: Vec<i64>)
    requires
        is_ocean@.len() == coast@.len(),
        unit <= 1_000_000_000,
    ensures
        r@.len() == coast@.len(),
        forall|c: int| 0 <= c < coast@.len() ==> #[trigger] r@[c] == coastal_delta_spec(
            coast@[c],
            is_ocean@[c],
            unit,
        ),
        forall|c: int| 0 <= c < coast@.len() ==> -1_000_000 <= #[trigger] r@[c] <= 1_000_000,
{
    let n = coast.len();
    let mut out: Vec<i64> = Vec::new();
    let mut c: usize = 0;
    while c < n
        invariant
            c <= n,
            coast@.len() == n,
            is_ocean@.len() == n,
            unit <= 1_000_000_000,
            out@.len() == c,
            forall|c2: int| 0 <= c2 < c ==> #[trigger] out@[c2] == coastal_delta_spec(
                coast@[c2],
                is_ocean@[c2],
                unit,
            ),
            forall|c2: int| 0 <= c2 < c ==> -1_000_000 <= #[trigger] out@[c2] <= 1_000_000,
        decreases n - c,
    {
        let d = hop_dist(coast[c], unit);
        let v: i64 = if is_ocean[c] {
            let shelf = SHELF_H * smoothstep_fp(d, 0, SHELF_BREAK) / SS_ONE;
            let slope = SLOPE_H * smoothstep_fp(d, SHELF_BREAK, SLOPE_BREAK) / SS_ONE;
            let abyss = ABYSS_H * smoothstep_fp(d, SLOPE_BREAK, ABYSS_BREAK) / SS_ONE;
            -((shelf + slope + abyss) as i64)
        } else {
            (PLAINS_H * smoothstep_fp(d, 0, PLAINS_W) / SS_ONE) as i64
        };
        out.push(v);
        c = c + 1;
    }
    out
}

/// Accumulated flow at which a cell counts as a river and is carved.
pub const FLOW_THRESHOLD: u64 = 8;

/// Carving depth per unit square root of flow.
pub const CARVE_UNIT: u64 = 2_000;

/// Cap on the direct carving depth of one cell.
pub const CARVE_MAX: u64 = 100_000;

/// Saturation bound of the flow accumulator; far above any real cell count.
pub const FLOW_CAP: u64 = 1_000_000_000;

/// Cap on the total depth carved out of one cell, direct and fractional.
pub const CARVE_TOTAL_CAP: u64 = 2_000_000;

/// Pick the steepest strictly-lower neighbor of every cell as its unique
/// drainage successor; a cell with no lower neighbor is a local sink.
/// Every successor edge strictly decreases height, so the drainage graph
/// is a forest.
pub fn steepest_descent(map: &SpatialMap, h: &Vec<u64>) -> (r: Vec<Option<usize>>)
    requires
        map.wf(),
        h@.len() == map.n(),
    ensures
        r@.len() == map.n(),
        forall|c: int| 0 <= c < map.n() ==> match #[trigger] r@[c] {
            Option::None => forall|k: int|
                0 <= k < map.spatial_neighbor_count(c) ==> h@[#[trigger] map.spatial_neighbor(
                    c,
                    k,
                )] >= h@[c],
            Option::Some(b) => {
                &&& b < map.n()
                &&& map.adj(c, b as int)
                &&& h@[b as int] < h@[c]
                &&& forall|k: int|
                    0 <= k < map.spatial_neighbor_count(c) ==> h@[
                        #[trigger] map.spatial_neighbor(c, k)] >= h@[b as int]
            },
        },
{
    let n = map.len();
    let mut out: Vec<Option<usize>> = Vec::new();
    let mut c: usize = 0;
    while c < n
        invariant
            map.wf(),
            n == map.n(),
            c <= n,
            h@.len() == n,
            out@.len() == c,
            forall|c2: int| 0 <= c2 < c ==> match #[trigger] out@[c2] {
                Option::None => forall|k: int|
                    0 <= k < map.spatial_neighbor_count(c2) ==> h@[
                        #[trigger] map.spatial_neighbor(c2, k)] >= h@[c2],
                Option::Some(b) => {
                    &&& b < map.n()
                    &&& map.adj(c2, b as int)
                    &&& h@[b as int] < h@[c2]
                    &&& forall|k: int|
                        0 <= k < map.spatial_neighbor_count(c2) ==> h@[
                            #[trigger] map.spatial_neighbor(c2, k)] >= h@[b as int]
                },
            },
        decreases n - c,
    {
        let cnt = map.neighbors[c].len();
        let mut best: Option<usize> = None;
        let mut k: usize = 0;
        while k < cnt
            invariant
                map.wf(),
                n == map.n(),
                c < n,
                k <= cnt,
                cnt == map.spatial_neighbor_count(c as int),
                h@.len() == n,
                match best {
                    Option::None => forall|k2: int|
                        0 <= k2 < k ==> h@[#[trigger] map.spatial_neighbor(c as int, k2)]
                            >= h@[c as int],
                    Option::Some(b) => {
                        &&& b < map.n()
                        &&& map.adj(c as int, b as int)
                        &&& h@[b as int] < h@[c as int]
                        &&& forall|k2: int|
                            0 <= k2 < k ==> h@[#[trigger] map.spatial_neighbor(c as int, k2)]
                                >= h@[b as int]
                    },
                },
            decreases cnt - k,
        {
            let b = map.neighbors[c][k];
            proof {
                assert(map.spatial_neighbor(c as int, k as int) == b as int);
                assert(map.adj(c as int, b as int)) by {
                    assert(map.neighbors@[c as int]@[k as int] == b);
                }
            }
            match best {
                None => {
                    if h[b] < h[c] {
                        best = Some(b);
                    }
                },
                Some(cur) => {
                    if h[b] < h[cur] {
                        best = Some(b);
                    }
                },
            }
            k = k + 1;
        }
        out.push(best);
        c = c + 1;
    }
    out
}

/// A cell occurs somewhere in the order.
spec fn in_order(ord: Seq<usize>, c: int) -> bool {
    exists|p: int| 0 <= p < ord.len() && #[trigger] ord[p] == c
}

/// Order the cells by descending height, so that every drainage
/// predecessor is processed before its successor.
fn sort_by_height_desc(h: &Vec<u64>) -> (r: Vec<usize>)
    ensures
        r@.len() == h@.len(),
        forall|p: int| 0 <= p < r@.len() ==> #[trigger] r@[p] < h@.len(),
        forall|c: int| 0 <= c < h@.len() ==> in_order(r@, c),
        forall|p1: int, p2: int|
            0 <= p1 < p2 < r@.len() ==> #[trigger] r@[p1] != #[trigger] r@[p2],
        forall|p1: int, p2: int|
            0 <= p1 < p2 < r@.len() ==> h@[#[trigger] r@[p1] as int] >= h@[#[trigger] r@[p2] as int],
{
    let n = h.len();
    let mut ord: Vec<usize> = Vec::new();
    let mut i: usize = 0;
    while i < n
        invariant
            i <= n,
            ord@.len() == i,
            forall|p: int| 0 <= p < i ==> #[trigger] ord@[p] == p,
        decreases n - i,
    {
        ord.push(i);
        i = i + 1;
    }
    proof {
        assert forall|c: int| 0 <= c < n implies in_order(ord@, c) by {
            assert(ord@[c] == c);
        }
    }
    let mut p: usize = 0;
    while p < n
        invariant
            n == h@.len(),
            p <= n,
            ord@.len() == n,
            forall|q: int| 0 <= q < n ==> #[trigger] ord@[q] < n,
            forall|c: int| 0 <= c < n ==> in_order(ord@, c),
            forall|p1: int, p2: int|
                0 <= p1 < p2 < n ==> #[trigger] ord@[p1] != #[trigger] ord@[p2],
            forall|p1: int, p2: int|
                0 <= p1 < p2 < p ==> h@[#[trigger] ord@[p1] as int] >= h@[#[trigger] ord@[p2] as int],
            forall|p1: int, p2: int|
                0 <= p1 < p && p <= p2 < n ==> h@[#[trigger] ord@[p1] as int] >= h@[
                    #[trigger] ord@[p2] as int],
        decreases n - p,
    {
        let mut best: usize = p;
        let mut q: usize = p + 1;
        while q < n
            invariant
                n == h@.len(),
                p < n,
                p <= best < n,
                p < q <= n,
                ord@.len() == n,
                forall|q2: int| 0 <= q2 < n ==> #[trigger] ord@[q2] < n,
                forall|q2: int|
                    p <= q2 < q ==> h@[ord@[best as int] as int] >= h@[#[trigger] ord@[q2] as int],
            decreases n - q,
        {
            if h[ord[q]] > h[ord[best]] {
                best = q;
            }
            q = q + 1;
        }
        let ghost ord0 = ord@;
        let va = ord[p];
        let vb = ord[best];
        ord[p] = vb;
        ord[best] = va;
        proof {
            assert forall|c: int| 0 <= c < n implies in_order(ord@, c) by {
                assert(in_order(ord0, c));
                let p0 = choose|p0: int| 0 <= p0 < ord0.len() && #[trigger] ord0[p0] == c;
                if p0 == p {
                    assert(ord@[best as int] == c);
                } else if p0 == best {
                    assert(ord@[p as int] == c);
                } else {
                    assert(ord@[p0] == c);
                }
            }
            assert forall|p1: int, p2: int|
                0 <= p1 < p2 < n implies #[trigger] ord@[p1] != #[trigger] ord@[p2] by {
                let q1: int = if p1 == p as int {
                    best as int
                } else if p1 == best as int {
                    p as int
                } else {
                    p1
                };
                let q2: int = if p2 == p as int {
                    best as int
                } else if p2 == best as int {
                    p as int
                } else {
                    p2
                };
                assert(ord@[p1] == ord0[q1] && ord@[p2] == ord0[q2]);
                assert(q1 != q2);
            }
        }
        p = p + 1;
    }
    ord
}

/// The capped sum the flow accumulator performs.
pub open spec fn flow_add(a: int, b: int) -> int {
    if a + b > FLOW_CAP {
        FLOW_CAP as int
    } else {
        a + b
    }
}

/// Sum of the flows of `c`'s drainage predecessors among the first `k`.
pub open spec fn pred_flow_sum(succ: Seq<Option<usize>>, flow: Seq<u64>, c: int, k: int) -> int
    decreases k,
{
    if k <= 0 {
        0
    } else {
        pred_flow_sum(succ, flow, c, k - 1) + if succ[k - 1] == Option::Some(c as usize) {
            flow[k - 1] as int
        } else {
            0
        }
    }
}

/// Sum of the flows of `c`'s already-processed drainage predecessors.
spec fn done_pred_sum(
    succ: Seq<Option<usize>>,
    flow: Seq<u64>,
    done: Seq<bool>,
    c: int,
    k: int,
) -> int
    decreases k,
{
    if k <= 0 {
        0
    } else {
        done_pred_sum(succ, flow, done, c, k - 1) + if done[k - 1] && succ[k - 1]
            == Option::Some(c as usize) {
            flow[k - 1] as int
        } else {
            0
        }
    }
}

proof fn lemma_done_pred_sum_nonneg(
    succ: Seq<Option<usize>>,
    flow: Seq<u64>,
    done: Seq<bool>,
    c: int,
    k: int,
)
    requires
        0 <= k,
    ensures
        done_pred_sum(succ, flow, done, c, k) >= 0,
    decreases k,
{
    if k > 0 {
        lemma_done_pred_sum_nonneg(succ, flow, done, c, k - 1);
    }
}

/// With every predecessor processed, the processed sum is the full sum.
proof fn lemma_done_pred_sum_full(
    succ: Seq<Option<usize>>,
    flow: Seq<u64>,
    done: Seq<bool>,
    c: int,
    k: int,
)
    requires
        0 <= k,
        forall|j: int| 0 <= j < k ==> #[trigger] done[j],
    ensures
        done_pred_sum(succ, flow, done, c, k) == pred_flow_sum(succ, flow, c, k),
    decreases k,
{
    if k > 0 {
        lemma_done_pred_sum_full(succ, flow, done, c, k - 1);
    }
}

/// Changing flows only at unprocessed cells leaves the processed sum alone.
proof fn lemma_done_pred_sum_congruent(
    succ: Seq<Option<usize>>,
    f1: Seq<u64>,
    f2: Seq<u64>,
    done: Seq<bool>,
    c: int,
    k: int,
)
    requires
        0 <= k,
        forall|j: int| 0 <= j < k && #[trigger] done[j] ==> f2[j] == f1[j],
    ensures
        done_pred_sum(succ, f2, done, c, k) == done_pred_sum(succ, f1, done, c, k),
    decreases k,
{
    if k > 0 {
        lemma_done_pred_sum_congruent(succ, f1, f2, done, c, k - 1);
    }
}

/// With nothing processed, the processed sum is zero.
proof fn lemma_done_pred_sum_none(
    succ: Seq<Option<usize>>,
    flow: Seq<u64>,
    done: Seq<bool>,
    c: int,
    k: int,
)
    requires
        0 <= k,
        forall|j: int| 0 <= j < k ==> !#[trigger] done[j],
    ensures
        done_pred_sum(succ, flow, done, c, k) == 0,
    decreases k,
{
    if k > 0 {
        lemma_done_pred_sum_none(succ, flow, done, c, k - 1);
    }
}

/// Marking one more cell processed adds exactly its contribution.
proof fn lemma_done_pred_sum_mark(
    succ: Seq<Option<usize>>,
    flow: Seq<u64>,
    done: Seq<bool>,
    y: int,
    c: int,
    k: int,
)
    requires
        0 <= y < done.len(),
        !done[y],
        0 <= k <= done.len(),
    ensures
        done_pred_sum(succ, flow, done.update(y, true), c, k) == done_pred_sum(
            succ,
            flow,
            done,
            c,
            k,
        ) + if y < k && succ[y] == Option::Some(c as usize) {
            flow[y] as int
        } else {
            0
        },
    decreases k,
{
    if k > 0 {
        lemma_done_pred_sum_mark(succ, flow, done, y, c, k - 1);
    }
}

/// Accumulate drainage flow: every cell contributes one unit, propagated
/// downstream along the successor forest in topological (descending
/// height) order, saturating at `FLOW_CAP`. Every cell ends with exactly
/// one unit plus the capped sum of its drainage predecessors' flows; in
/// particular a drainage successor always carries strictly more flow than
/// its predecessor (up to the saturation bound) and a source keeps one
/// unit.
pub fn flow_accumulate(map: &SpatialMap, h: &Vec<u64>, succ: &Vec<Option<usize>>) -> (r: Vec<u64>)
    requires
        map.wf(),
        h@.len() == map.n(),
        succ@.len() == map.n(),
        forall|c: int| 0 <= c < map.n() ==> match #[trigger] succ@[c] {
            Option::None => true,
            Option::Some(b) => b < map.n() && h@[b as int] < h@[c],
        },
    ensures
        r@.len() == map.n(),
        forall|c: int| 0 <= c < map.n() ==> 1 <= #[trigger] r@[c] <= FLOW_CAP,
        forall|c: int|
            0 <= c < map.n() ==> match #[trigger] succ@[c] {
                Option::None => true,
                Option::Some(b) => r@[b as int] >= r@[c] + 1 || r@[b as int] == FLOW_CAP,
            },
        forall|c: int|
            0 <= c < map.n() && (forall|j: int|
                0 <= j < map.n() ==> #[trigger] succ@[j] != Option::Some(c as usize)) ==> #[trigger] r@[c]
                == 1,
        forall|c: int|
            0 <= c < map.n() ==> #[trigger] r@[c] == flow_add(
                1,
                pred_flow_sum(succ@, r@, c, map.n()),
            ),
{
    let n = map.len();
    let ord = sort_by_height_desc(h);
    let mut flow: Vec<u64> = Vec::new();
    let mut i: usize = 0;
    while i < n
        invariant
            i <= n,
            flow@.len() == i,
            forall|c: int| 0 <= c < i ==> #[trigger] flow@[c] == 1,
        decreases n - i,
    {
        flow.push(1);
        i = i + 1;
    }
    let ghost mut done: Seq<bool> = Seq::new(n as nat, |j: int| false);
    proof {
        assert forall|c: int| 0 <= c < n implies #[trigger] flow@[c] == flow_add(
            1,
            done_pred_sum(succ@, flow@, done, c, n as int),
        ) by {
            lemma_done_pred_sum_none(succ@, flow@, done, c, n as int);
        }
    }
    let mut p: usize = 0;
    while p < n
        invariant
            map.wf(),
            n == map.n(),
            p <= n,
            h@.len() == n,
            succ@.len() == n,
            flow@.len() == n,
            ord@.len() == n,
            done.len() == n,
            forall|q: int| 0 <= q < n ==> #[trigger] ord@[q] < n,
            forall|p1: int, p2: int|
                0 <= p1 < p2 < n ==> #[trigger] ord@[p1] != #[trigger] ord@[p2],
            forall|p1: int, p2: int|
                0 <= p1 < p2 < n ==> h@[#[trigger] ord@[p1] as int] >= h@[
                    #[trigger] ord@[p2] as int],
            forall|c: int| 0 <= c < n ==> match #[trigger] succ@[c] {
                Option::None => true,
                Option::Some(b) => b < map.n() && h@[b as int] < h@[c],
            },
            forall|c: int| 0 <= c < n ==> 1 <= #[trigger] flow@[c] <= FLOW_CAP,
            forall|c: int|
                0 <= c < n && (forall|j: int|
                    0 <= j < n ==> #[trigger] succ@[j] != Option::Some(c as usize))
                    ==> #[trigger] flow@[c] == 1,
            forall|c: int| 0 <= c < n ==> in_order(ord@, c),
            forall|j: int|
                0 <= j < n ==> (#[trigger] done[j] <==> exists|q: int|
                    0 <= q < p && #[trigger] ord@[q] == j),
            forall|c: int|
                0 <= c < n ==> #[trigger] flow@[c] == flow_add(
                    1,
                    done_pred_sum(succ@, flow@, done, c, n as int),
                ),
            forall|q: int|
                0 <= q < p ==> match succ@[#[trigger] ord@[q] as int] {
                    Option::None => true,
                    Option::Some(b) => flow@[b as int] >= flow@[ord@[q] as int] + 1 || flow@[
                        b as int] == FLOW_CAP,
                },
        decreases n - p,
    {
        let y = ord[p];
        proof {
            // The current cell is not yet processed: positions are distinct.
            if done[y as int] {
                let q = choose|q: int| 0 <= q < p && #[trigger] ord@[q] == y as int;
                assert(ord@[q] != ord@[p as int]);
                assert(false);
            }
        }
        match succ[y] {
            None => {
                proof {
                    let ghost done0 = done;
                    done = done.update(y as int, true);
                    assert forall|c: int| 0 <= c < n implies #[trigger] flow@[c] == flow_add(
                        1,
                        done_pred_sum(succ@, flow@, done, c, n as int),
                    ) by {
                        lemma_done_pred_sum_mark(succ@, flow@, done0, y as int, c, n as int);
                    }
                    assert forall|j: int|
                        0 <= j < n implies (#[trigger] done[j] <==> exists|q: int|
                        0 <= q < p + 1 && #[trigger] ord@[q] == j) by {
                        if j == y as int {
                            assert(ord@[p as int] == j);
                        } else if done[j] {
                            let q = choose|q: int| 0 <= q < p && #[trigger] ord@[q] == j;
                            assert(0 <= q < p + 1 && ord@[q] == j);
                        } else {
                            if exists|q: int| 0 <= q < p + 1 && #[trigger] ord@[q] == j {
                                let q = choose|q: int|
                                    0 <= q < p + 1 && #[trigger] ord@[q] == j;
                                assert(q < p);
                            }
                        }
                    }
                }
            },
            Some(s) => {
                let ghost flow0 = flow@;
                let fy = flow[y];
                let fs = flow[s];
                let nv: u64 = if fs > FLOW_CAP - fy {
                    FLOW_CAP
                } else {
                    fs + fy
                };
                flow[s] = nv;
                proof {
                    assert(h@[s as int] < h@[y as int]);
                    // The successor is unprocessed: everything processed so
                    // far sits at or above the current height.
                    if done[s as int] {
                        let q = choose|q: int| 0 <= q < p && #[trigger] ord@[q] == s as int;
                        assert(h@[ord@[q] as int] >= h@[ord@[p as int] as int]);
                        assert(false);
                    }
                    // Flows of processed cells are untouched, so every
                    // processed sum is unchanged by the update.
                    assert forall|c: int| 0 <= c < n implies done_pred_sum(
                        succ@,
                        flow@,
                        done,
                        c,
                        n as int,
                    ) == done_pred_sum(succ@, flow0, done, c, n as int) by {
                        lemma_done_pred_sum_congruent(succ@, flow0, flow@, done, c, n as int);
                    }
                    let ghost done0 = done;
                    done = done.update(y as int, true);
                    assert forall|c: int| 0 <= c < n implies #[trigger] flow@[c] == flow_add(
                        1,
                        done_pred_sum(succ@, flow@, done, c, n as int),
                    ) by {
                        lemma_done_pred_sum_mark(succ@, flow@, done0, y as int, c, n as int);
                        lemma_done_pred_sum_nonneg(succ@, flow0, done0, c, n as int);
                        if c == s as int {
                            assert(flow@[y as int] == fy);
                            assert(flow0[c] == flow_add(
                                1,
                                done_pred_sum(succ@, flow0, done0, c, n as int),
                            ));
                        } else {
                            assert(succ@[y as int] != Option::Some(c as usize));
                            assert(flow@[c] == flow0[c]);
                        }
                    }
                    assert forall|j: int|
                        0 <= j < n implies (#[trigger] done[j] <==> exists|q: int|
                        0 <= q < p + 1 && #[trigger] ord@[q] == j) by {
                        if j == y as int {
                            assert(ord@[p as int] == j);
                        } else if done[j] {
                            let q = choose|q: int| 0 <= q < p && #[trigger] ord@[q] == j;
                            assert(0 <= q < p + 1 && ord@[q] == j);
                        } else {
                            if exists|q: int| 0 <= q < p + 1 && #[trigger] ord@[q] == j {
                                let q = choose|q: int|
                                    0 <= q < p + 1 && #[trigger] ord@[q] == j;
                                assert(q < p);
                            }
                        }
                    }
                    assert forall|q: int|
                        0 <= q < p + 1 implies match succ@[#[trigger] ord@[q] as int] {
                        Option::None => true,
                        Option::Some(b) => flow@[b as int] >= flow@[ord@[q] as int] + 1 || flow@[
                            b as int] == FLOW_CAP,
                    } by {
                        if q < p {
                            // The processed cell keeps its flow: its height is
                            // at least the current cell's, while the updated
                            // successor lies strictly below it.
                            let x = ord@[q] as int;
                            assert(h@[x] >= h@[y as int]);
                            assert(x != s as int);
                            assert(flow@[x] == flow0[x]);
                            match succ@[x] {
                                Option::None => {},
                                Option::Some(b) => {
                                    if b == s {
                                        assert(flow@[b as int] >= flow0[b as int]);
                                    } else {
                                        assert(flow@[b as int] == flow0[b as int]);
                                    }
                                },
                            }
                        } else {
                            assert(ord@[q] == y);
                            assert(s as int != y as int);
                            assert(flow@[y as int] == flow0[y as int]);
                            assert(flow@[s as int] == nv);
                        }
                    }
                }
            },
        }
        p = p + 1;
    }
    proof {
        assert forall|c: int| 0 <= c < map.n() implies match #[trigger] succ@[c] {
            Option::None => true,
            Option::Some(b) => flow@[b as int] >= flow@[c] + 1 || flow@[b as int] == FLOW_CAP,
        } by {
            assert(in_order(ord@, c));
            let q = choose|q: int| 0 <= q < ord@.len() && #[trigger] ord@[q] == c;
            assert(match succ@[ord@[q] as int] {
                Option::None => true,
                Option::Some(b) => flow@[b as int] >= flow@[ord@[q] as int] + 1 || flow@[
                    b as int] == FLOW_CAP,
            });
        }
        assert forall|j: int| 0 <= j < n implies #[trigger] done[j] by {
            assert(in_order(ord@, j));
            let q = choose|q: int| 0 <= q < ord@.len() && #[trigger] ord@[q] == j;
        }
        assert forall|c: int| 0 <= c < map.n() implies #[trigger] flow@[c] == flow_add(
            1,
            pred_flow_sum(succ@, flow@, c, map.n()),
        ) by {
            lemma_done_pred_sum_full(succ@, flow@, done, c, n as int);
        }
    }
    flow
}

/// The carving depth a cell's flow commands: zero below the threshold,
/// otherwise proportional to the square root of the flow, capped.
pub open spec fn carve_depth_spec(flow: u64) -> int {
    if flow >= FLOW_THRESHOLD {
        let raw = CARVE_UNIT * crate::geom::sqrt_floor(flow as int);
        if raw > CARVE_MAX {
            CARVE_MAX as int
        } else {
            raw
        }
    } else {
        0
    }
}

/// Carving a downstream neighbor takes a quarter of the direct depth.
pub open spec fn pred_carve_sum(succ: Seq<Option<usize>>, flow: Seq<u64>, c: int, k: int) -> int
    decreases k,
{
    if k <= 0 {
        0
    } else {
        pred_carve_sum(succ, flow, c, k - 1) + if succ[k - 1] == Option::Some(c as usize) {
            carve_depth_spec(flow[k - 1]) / 4
        } else {
            0
        }
    }
}

/// The direct carving depth always lies within `[0, CARVE_MAX]`.
proof fn lemma_carve_depth_bounds(flow: u64)
    ensures
        0 <= carve_depth_spec(flow) <= CARVE_MAX,
{
    if flow >= FLOW_THRESHOLD {
        crate::geom::lemma_sqrt_floor_bounds(flow as int);
    }
}

proof fn lemma_pred_carve_sum_bound(succ: Seq<Option<usize>>, flow: Seq<u64>, c: int, k: int)
    requires
        0 <= k,
    ensures
        0 <= pred_carve_sum(succ, flow, c, k) <= k * ((CARVE_MAX / 4) as int),
    decreases k,
{
    if k > 0 {
        lemma_pred_carve_sum_bound(succ, flow, c, k - 1);
        lemma_carve_depth_bounds(flow[k - 1]);
        assert(0 <= carve_depth_spec(flow[k - 1]) / 4 <= (CARVE_MAX / 4) as int);
        assert((k - 1) * ((CARVE_MAX / 4) as int) + ((CARVE_MAX / 4) as int) == k * ((CARVE_MAX
            / 4) as int)) by (nonlinear_arith);
    }
}

/// A positive predecessor carve sum names a carved predecessor.
proof fn lemma_pred_carve_sum_positive(succ: Seq<Option<usize>>, flow: Seq<u64>, c: int, k: int)
    requires
        0 <= k,
        pred_carve_sum(succ, flow, c, k) > 0,
    ensures
        exists|j: int|
            0 <= j < k && succ[j] == Option::Some(c as usize) && carve_depth_spec(
                #[trigger] flow[j],
            ) / 4 > 0,
    decreases k,
{
    if pred_carve_sum(succ, flow, c, k - 1) > 0 {
        lemma_pred_carve_sum_positive(succ, flow, c, k - 1);
        let j = choose|j: int|
            0 <= j < k - 1 && succ[j] == Option::Some(c as usize) && carve_depth_spec(
                #[trigger] flow[j],
            ) / 4 > 0;
        assert(0 <= j < k && succ[j] == Option::Some(c as usize) && carve_depth_spec(flow[j]) / 4
            > 0);
    } else {
        assert(succ[k - 1] == Option::Some(c as usize) && carve_depth_spec(flow[k - 1]) / 4 > 0);
    }
}

/// Carve river incisions: every cell whose accumulated flow meets the
/// threshold is lowered by a depth proportional to the square root of its
/// flow, and its drainage successor by a quarter of that depth. Heights
/// never increase, and a cell is only ever lowered when its own flow
/// meets the threshold.
pub fn carve_rivers(
    map: &SpatialMap,
    h: &Vec<u64>,
    succ: &Vec<Option<usize>>,
    flow: &Vec<u64>,
) -> (r: Vec<u64>)
    requires
        map.wf(),
        h@.len() == map.n(),
        succ@.len() == map.n(),
        flow@.len() == map.n(),
        forall|c: int| 0 <= c < map.n() ==> #[trigger] h@[c] >= CARVE_TOTAL_CAP,
        forall|c: int| 0 <= c < map.n() ==> match #[trigger] succ@[c] {
            Option::None => true,
            Option::Some(b) => b < map.n(),
        },
    ensures
        r@.len() == map.n(),
        forall|c: int| 0 <= c < map.n() ==> {
            let total = carve_depth_spec(flow@[c]) + pred_carve_sum(succ@, flow@, c, map.n());
            #[trigger] r@[c] == h@[c] - (if total <= CARVE_TOTAL_CAP {
                total
            } else {
                CARVE_TOTAL_CAP as int
            })
        },
        forall|c: int| 0 <= c < map.n() ==> h@[c] - CARVE_TOTAL_CAP <= #[trigger] r@[c] <= h@[c],
{
    let n = map.len();
    let mut totals: Vec<u64> = Vec::new();
    let mut i: usize = 0;
    while i < n
        invariant
            i <= n,
            totals@.len() == i,
            forall|c: int| 0 <= c < i ==> #[trigger] totals@[c] == 0,
        decreases n - i,
    {
        totals.push(0);
        i = i + 1;
    }
    let mut j: usize = 0;
    while j < n
        invariant
            map.wf(),
            n == map.n(),
            n <= 1_000_000,
            j <= n,
            h@.len() == n,
            succ@.len() == n,
            flow@.len() == n,
            totals@.len() == n,
            forall|c: int| 0 <= c < n ==> match #[trigger] succ@[c] {
                Option::None => true,
                Option::Some(b) => b < map.n(),
            },
            forall|c: int| 0 <= c < n ==> #[trigger] totals@[c] == (if c < j {
                carve_depth_spec(flow@[c])
            } else {
                0
            }) + pred_carve_sum(succ@, flow@, c, j as int),
            forall|c: int|
                0 <= c < n ==> #[trigger] totals@[c] <= CARVE_MAX + j * ((CARVE_MAX / 4) as int),
        decreases n - j,
    {
        let ghost totals0 = totals@;
        let f = flow[j];
        let dep: u64 = if f >= FLOW_THRESHOLD {
            let sq = crate::geom::isqrt(f);
            proof {
                assert(sq <= 4_294_967_296) by (nonlinear_arith)
                    requires
                        sq * sq <= f,
                        f <= 0xffff_ffff_ffff_ffffu64,
                ;
            }
            let raw = CARVE_UNIT * sq;
            if raw > CARVE_MAX {
                CARVE_MAX
            } else {
                raw
            }
        } else {
            0
        };
        proof {
            assert(dep == carve_depth_spec(flow@[j as int]));
            lemma_carve_depth_bounds(flow@[j as int]);
        }
        proof {
            lemma_pred_carve_sum_bound(succ@, flow@, j as int, j as int);
            assert((j as int) * ((CARVE_MAX / 4) as int) <= 1_000_000 * ((CARVE_MAX / 4) as int))
                by (nonlinear_arith)
                requires
                    0 <= j <= 1_000_000,
            ;
        }
        totals[j] = totals[j] + dep;
        match succ[j] {
            None => {},
            Some(s) => {
                totals[s] = totals[s] + dep / 4;
            },
        }
        proof {
            assert forall|c: int| 0 <= c < n implies #[trigger] totals@[c] == (if c < j + 1 {
                carve_depth_spec(flow@[c])
            } else {
                0int
            }) + pred_carve_sum(succ@, flow@, c, j + 1) by {
                let base = pred_carve_sum(succ@, flow@, c, j as int);
                if succ@[j as int] == Option::Some(c as usize) {
                    assert(pred_carve_sum(succ@, flow@, c, j + 1) == base + carve_depth_spec(
                        flow@[j as int],
                    ) / 4);
                } else {
                    assert(pred_carve_sum(succ@, flow@, c, j + 1) == base);
                }
            }
            assert forall|c: int| 0 <= c < n implies #[trigger] totals@[c] <= CARVE_MAX + (j + 1)
                * ((CARVE_MAX / 4) as int) by {
                lemma_pred_carve_sum_bound(succ@, flow@, c, j + 1);
                lemma_carve_depth_bounds(flow@[c]);
                assert((j + 1) * ((CARVE_MAX / 4) as int) <= 1_000_001 * ((CARVE_MAX / 4) as int))
                    by (nonlinear_arith)
                    requires
                        0 <= j + 1 <= 1_000_001,
                ;
            }
        }
        j = j + 1;
    }
    let mut out: Vec<u64> = Vec::new();
    let mut c: usize = 0;
    while c < n
        invariant
            n == map.n(),
            c <= n,
            h@.len() == n,
            succ@.len() == n,
            flow@.len() == n,
            totals@.len() == n,
            forall|c2: int| 0 <= c2 < n ==> #[trigger] totals@[c2] == carve_depth_spec(
                flow@[c2],
            ) + pred_carve_sum(succ@, flow@, c2, n as int),
            out@.len() == c,
            forall|c2: int| 0 <= c2 < n ==> #[trigger] h@[c2] >= CARVE_TOTAL_CAP,
            forall|c2: int| 0 <= c2 < c ==> {
                let total = carve_depth_spec(flow@[c2]) + pred_carve_sum(
                    succ@,
                    flow@,
                    c2,
                    map.n(),
                );
                #[trigger] out@[c2] == h@[c2] - (if total <= CARVE_TOTAL_CAP {
                    total
                } else {
                    CARVE_TOTAL_CAP as int
                })
            },
            forall|c2: int|
                0 <= c2 < c ==> h@[c2] - CARVE_TOTAL_CAP <= #[trigger] out@[c2] <= h@[c2],
        decreases n - c,
    {
        let t = totals[c];
        let t2 = if t <= CARVE_TOTAL_CAP {
            t
        } else {
            CARVE_TOTAL_CAP
        };
        let v = h[c] - t2;
        out.push(v);
        c = c + 1;
    }
    out
}

/// River carving never deepens a cell whose flow lies below the
/// threshold: a cell is lowered only when its own accumulated flow
/// reaches `FLOW_THRESHOLD`.
pub proof fn lemma_carve_only_rivers(
    map: &SpatialMap,
    h: Seq<u64>,
    succ: Seq<Option<usize>>,
    flow: Seq<u64>,
    r: Seq<u64>,
    c: int,
)
    requires
        map.wf(),
        h.len() == map.n(),
        succ.len() == map.n(),
        flow.len() == map.n(),
        r.len() == map.n(),
        0 <= c < map.n(),
        forall|c2: int| 0 <= c2 < map.n() ==> match #[trigger] succ[c2] {
            Option::None => true,
            Option::Some(b) => b < map.n() && flow[b as int] >= flow[c2] + 1 || flow[b as int]
                == FLOW_CAP,
        },
        forall|c2: int| 0 <= c2 < map.n() ==> {
            let total = carve_depth_spec(flow[c2]) + pred_carve_sum(succ, flow, c2, map.n());
            #[trigger] r[c2] == h[c2] - (if total <= CARVE_TOTAL_CAP {
                total
            } else {
                CARVE_TOTAL_CAP as int
            })
        },
        r[c] < h[c],
    ensures
        flow[c] >= FLOW_THRESHOLD,
{
    let total = carve_depth_spec(flow[c]) + pred_carve_sum(succ, flow, c, map.n());
    lemma_pred_carve_sum_bound(succ, flow, c, map.n());
    assert(total > 0);
    if carve_depth_spec(flow[c]) > 0 {
    } else {
        lemma_pred_carve_sum_positive(succ, flow, c, map.n());
        let j = choose|j: int|
            0 <= j < map.n() && succ[j] == Option::Some(c as usize) && carve_depth_spec(
                #[trigger] flow[j],
            ) / 4 > 0;
        assert(flow[j] >= FLOW_THRESHOLD);
        assert(flow[c] >= flow[j] + 1 || flow[c] == FLOW_CAP);
    }
}

/// Ceiling division by a positive divisor.
pub open spec fn div_ceil(a: int, b: int) -> int {
    (a + b - 1) / b
}

/// The least working height among the first `k`, floored at the bias: the
/// lower end of the range the non-positive side is scaled from.
pub open spec fn min_below_bias(h: Seq<u64>, k: int) -> int
    decreases k,
{
    if k <= 0 {
        H_BIAS as int
    } else {
        let m = min_below_bias(h, k - 1);
        if h[k - 1] < m {
            h[k - 1] as int
        } else {
            m
        }
    }
}

/// The greatest working height among the first `k`, ceiled at the bias.
pub open spec fn max_above_bias(h: Seq<u64>, k: int) -> int
    decreases k,
{
    if k <= 0 {
        H_BIAS as int
    } else {
        let m = max_above_bias(h, k - 1);
        if h[k - 1] > m {
            h[k - 1] as int
        } else {
            m
        }
    }
}

/// The canonical value of one working height under the piecewise-linear
/// map: depths below the bias scale linearly (rounding away from sea
/// level) over `[mn, H_BIAS]` onto `[0, SEA_LEVEL]`, lifts above it over
/// `[H_BIAS, mx]` onto `[SEA_LEVEL, HEIGHT_ONE]`, and the bias itself is
/// sea level.
pub open spec fn normalize_spec(v: int, mn: int, mx: int) -> int {
    if v < H_BIAS {
        SEA_LEVEL - div_ceil(SEA_LEVEL * (H_BIAS - v), (H_BIAS as int) - mn)
    } else if v > H_BIAS {
        SEA_LEVEL + div_ceil(SEA_LEVEL * (v - H_BIAS), mx - (H_BIAS as int))
    } else {
        SEA_LEVEL as int
    }
}

/// Normalize working heights into the canonical range: values at or below
/// the bias map linearly into `[0, SEA_LEVEL]`, values above it map
/// linearly into `[SEA_LEVEL, HEIGHT_ONE]`, and the bias itself lands
/// exactly on `SEA_LEVEL`. The mapping keeps the sea-level split exact:
/// a cell ends at `SEA_LEVEL` if and only if its pre-normalization height
/// was exactly zero.
pub fn normalize_heights(h: &Vec<u64>) -> (r: Vec<u64>)
    requires
        forall|c: int| 0 <= c < h@.len() ==> H_LO <= #[trigger] h@[c] <= H_HI,
    ensures
        r@.len() == h@.len(),
        forall|c: int| 0 <= c < h@.len() ==> #[trigger] r@[c] == normalize_spec(
            h@[c] as int,
            min_below_bias(h@, h@.len() as int),
            max_above_bias(h@, h@.len() as int),
        ),
        forall|c: int| 0 <= c < h@.len() ==> #[trigger] r@[c] <= HEIGHT_ONE,
        forall|c: int|
            0 <= c < h@.len() ==> ((#[trigger] r@[c] == SEA_LEVEL) <==> h@[c] == H_BIAS),
        forall|c: int| 0 <= c < h@.len() ==> (#[trigger] h@[c] < H_BIAS <==> r@[c] < SEA_LEVEL),
        forall|c: int| 0 <= c < h@.len() ==> (#[trigger] h@[c] > H_BIAS <==> r@[c] > SEA_LEVEL),
{
    let n = h.len();
    let mut min_h: u64 = H_BIAS;
    let mut max_h: u64 = H_BIAS;
    let mut c: usize = 0;
    while c < n
        invariant
            c <= n,
            h@.len() == n,
            forall|c2: int| 0 <= c2 < n ==> H_LO <= #[trigger] h@[c2] <= H_HI,
            H_LO <= min_h <= H_BIAS,
            H_BIAS <= max_h <= H_HI,
            min_h == min_below_bias(h@, c as int),
            max_h == max_above_bias(h@, c as int),
            forall|c2: int| 0 <= c2 < c ==> min_h <= #[trigger] h@[c2] <= max_h,
        decreases n - c,
    {
        let v = h[c];
        if v < min_h {
            min_h = v;
        }
        if v > max_h {
            max_h = v;
        }
        c = c + 1;
    }
    let below: u64 = H_BIAS - min_h;
    let above: u64 = max_h - H_BIAS;
    let mut out: Vec<u64> = Vec::new();
    let mut i: usize = 0;
    while i < n
        invariant
            i <= n,
            h@.len() == n,
            forall|c2: int| 0 <= c2 < n ==> H_LO <= #[trigger] h@[c2] <= H_HI,
            below == H_BIAS - min_h,
            above == max_h - H_BIAS,
            H_LO <= min_h <= H_BIAS,
            H_BIAS <= max_h <= H_HI,
            min_h == min_below_bias(h@, n as int),
            max_h == max_above_bias(h@, n as int),
            forall|c2: int| 0 <= c2 < n ==> min_h <= #[trigger] h@[c2] <= max_h,
            out@.len() == i,
            forall|c2: int| 0 <= c2 < i ==> #[trigger] out@[c2] == normalize_spec(
                h@[c2] as int,
                min_below_bias(h@, n as int),
                max_above_bias(h@, n as int),
            ),
            forall|c2: int| 0 <= c2 < i ==> #[trigger] out@[c2] <= HEIGHT_ONE,
            forall|c2: int|
                0 <= c2 < i ==> ((#[trigger] out@[c2] == SEA_LEVEL) <==> h@[c2] == H_BIAS),
            forall|c2: int|
                0 <= c2 < i ==> (#[trigger] h@[c2] < H_BIAS <==> out@[c2] < SEA_LEVEL),
            forall|c2: int|
                0 <= c2 < i ==> (#[trigger] h@[c2] > H_BIAS <==> out@[c2] > SEA_LEVEL),
        decreases n - i,
    {
        let v = h[i];
        let nv: u64 = if v < H_BIAS {
            let depth = H_BIAS - v;
            let scaled = (SEA_LEVEL * depth + below - 1) / below;
            proof {
                assert(SEA_LEVEL * depth >= SEA_LEVEL) by (nonlinear_arith)
                    requires
                        depth >= 1,
                ;
                assert(SEA_LEVEL * depth <= SEA_LEVEL * below) by (nonlinear_arith)
                    requires
                        depth <= below,
                ;
                assert((SEA_LEVEL * depth + below - 1) / (below as int) >= 1) by (nonlinear_arith)
                    requires
                        SEA_LEVEL * depth >= SEA_LEVEL,
                        SEA_LEVEL >= 1,
                        below >= 1,
                ;
                assert((SEA_LEVEL * depth + below - 1) / (below as int) <= SEA_LEVEL) by (nonlinear_arith)
                    requires
                        SEA_LEVEL * depth <= SEA_LEVEL * below,
                        below >= 1,
                ;
            }
            SEA_LEVEL - scaled
        } else if v > H_BIAS {
            let lift = v - H_BIAS;
            let scaled = (SEA_LEVEL * lift + above - 1) / above;
            proof {
                assert(SEA_LEVEL * lift >= SEA_LEVEL) by (nonlinear_arith)
                    requires
                        lift >= 1,
                ;
                assert(SEA_LEVEL * lift <= SEA_LEVEL * above) by (nonlinear_arith)
                    requires
                        lift <= above,
                ;
                assert((SEA_LEVEL * lift + above - 1) / (above as int) >= 1) by (nonlinear_arith)
                    requires
                        SEA_LEVEL * lift >= SEA_LEVEL,
                        SEA_LEVEL >= 1,
                        above >= 1,
                ;
                assert((SEA_LEVEL * lift + above - 1) / (above as int) <= SEA_LEVEL) by (nonlinear_arith)
                    requires
                        SEA_LEVEL * lift <= SEA_LEVEL * above,
                        above >= 1,
                ;
            }
            SEA_LEVEL + scaled
        } else {
            SEA_LEVEL
        };
        out.push(nv);
        i = i + 1;
    }
    out
}

} // verus!
