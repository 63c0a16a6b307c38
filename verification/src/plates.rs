//! Plate kinematics: drift velocities, crust types by majority vote, and
//! the classification of plate-boundary edges.
//!
//! An edge is Convergent or Divergent when the approach speed, the
//! projection of the relative velocity onto the boundary normal, is at
//! least sixty percent of the relative speed; squaring both sides keeps
//! the comparison exact in integers. The threshold is a tuning constant.

use vstd::prelude::*;

use crate::rng::rng_below;
use crate::spatial::SpatialMap;

verus! {

/// Crust type of one plate.
#[derive(Clone, Copy, PartialEq, Eq, Structural, Debug)]
pub enum Crust {
    Continental,
    Oceanic,
}

/// Kinematic kind of one plate-boundary edge.
#[derive(Clone, Copy, PartialEq, Eq, Structural, Debug)]
pub enum BoundaryKind {
    Convergent,
    Divergent,
    Transform,
}

/// Largest magnitude of one drift-velocity component.
pub const VEL_MAX: i64 = 1_000;

/// Youngest sampled plate age, in million years.
pub const AGE_MIN: u64 = 10;

/// Oldest sampled plate age, in million years.
pub const AGE_MAX: u64 = 200;

/// One tectonic plate: drift velocity, crust type, age.
pub struct Plate {
    /// Drift velocity, fixed-point per axis, within `[-VEL_MAX, VEL_MAX]`.
    pub vx: i64,
    pub vz: i64,
    /// Crust type, the majority vote of member cells' continent membership.
    pub crust: Crust,
    /// Age in million years, within `[AGE_MIN, AGE_MAX]`.
    pub age: u64,
}

/// The boundary kind of relative velocity `(rvx, rvz)` against the
/// unnormalized boundary normal `(dx, dz)`: Convergent or Divergent when
/// the squared projection reaches sixty percent (squared: 9/25) of the
/// squared product of magnitudes, by the sign of the approach speed;
/// Transform otherwise.
pub open spec fn classify_spec(rvx: int, rvz: int, dx: int, dz: int) -> BoundaryKind {
    let s = rvx * dx + rvz * dz;
    if 25 * (s * s) >= 9 * ((rvx * rvx + rvz * rvz) * (dx * dx + dz * dz)) {
        if s > 0 {
            BoundaryKind::Convergent
        } else {
            BoundaryKind::Divergent
        }
    } else {
        BoundaryKind::Transform
    }
}

/// Classify one boundary edge from the relative plate velocity and the
/// normal between the two cell sites.
pub fn classify_pair(rvx: i64, rvz: i64, dx: i64, dz: i64) -> (r: BoundaryKind)
    requires
        -2_000 <= rvx <= 2_000,
        -2_000 <= rvz <= 2_000,
        -200_000_000 <= dx <= 200_000_000,
        -200_000_000 <= dz <= 200_000_000,
    ensures
        r == classify_spec(rvx as int, rvz as int, dx as int, dz as int),
{
    let rvx_w: i128 = rvx as i128;
    let rvz_w: i128 = rvz as i128;
    let dx_w: i128 = dx as i128;
    let dz_w: i128 = dz as i128;
    proof {
        assert(-400_000_000_000 <= rvx_w * dx_w <= 400_000_000_000 && -400_000_000_000 <= rvz_w
            * dz_w <= 400_000_000_000 && 0 <= rvx_w * rvx_w <= 4_000_000 && 0 <= rvz_w * rvz_w
            <= 4_000_000 && 0 <= dx_w * dx_w <= 40_000_000_000_000_000 && 0 <= dz_w * dz_w
            <= 40_000_000_000_000_000) by (nonlinear_arith)
            requires
                -2_000 <= rvx_w <= 2_000,
                -2_000 <= rvz_w <= 2_000,
                -200_000_000 <= dx_w <= 200_000_000,
                -200_000_000 <= dz_w <= 200_000_000,
        ;
    }
    let s: i128 = rvx_w * dx_w + rvz_w * dz_w;
    proof {
        assert(0 <= s * s <= 640_000_000_000_000_000_000_000) by (nonlinear_arith)
            requires
                -800_000_000_000 <= s <= 800_000_000_000,
        ;
    }
    let lhs: i128 = 25 * (s * s);
    let m1: i128 = rvx_w * rvx_w + rvz_w * rvz_w;
    let m2: i128 = dx_w * dx_w + dz_w * dz_w;
    proof {
        assert(0 <= m1 * m2 <= 640_000_000_000_000_000_000_000) by (nonlinear_arith)
            requires
                0 <= m1 <= 8_000_000,
                0 <= m2 <= 80_000_000_000_000_000,
        ;
    }
    let rhs: i128 = 9 * (m1 * m2);
    if lhs >= rhs {
        if s > 0 {
            BoundaryKind::Convergent
        } else {
            BoundaryKind::Divergent
        }
    } else {
        BoundaryKind::Transform
    }
}

/// Classification is symmetric: seen from the other cell, the relative
/// velocity and the normal both flip, and the kind is unchanged.
pub proof fn lemma_classify_symmetric(rvx: int, rvz: int, dx: int, dz: int)
    ensures
        classify_spec(-rvx, -rvz, -dx, -dz) == classify_spec(rvx, rvz, dx, dz),
{
    assert((-rvx) * (-dx) + (-rvz) * (-dz) == rvx * dx + rvz * dz) by (nonlinear_arith);
    assert((-rvx) * (-rvx) + (-rvz) * (-rvz) == rvx * rvx + rvz * rvz) by (nonlinear_arith);
    assert((-dx) * (-dx) + (-dz) * (-dz) == dx * dx + dz * dz) by (nonlinear_arith);
}

/// Number of cells among the first `k` assigned to region `g`.
pub open spec fn count_members(assign: Seq<usize>, g: int, k: int) -> int
    decreases k,
{
    if k <= 0 {
        0
    } else {
        count_members(assign, g, k - 1) + if assign[k - 1] == g {
            1int
        } else {
            0int
        }
    }
}

/// Number of cells among the first `k` assigned to region `g` whose
/// continent flag is set.
pub open spec fn count_continental(assign: Seq<usize>, cont: Seq<bool>, g: int, k: int) -> int
    decreases k,
{
    if k <= 0 {
        0
    } else {
        count_continental(assign, cont, g, k - 1) + if assign[k - 1] == g && cont[k - 1] {
            1int
        } else {
            0int
        }
    }
}

proof fn lemma_counts_le(assign: Seq<usize>, cont: Seq<bool>, g: int, k: int)
    requires
        0 <= k,
    ensures
        0 <= count_continental(assign, cont, g, k) <= count_members(assign, g, k) <= k,
    decreases k,
{
    if k > 0 {
        lemma_counts_le(assign, cont, g, k - 1);
    }
}

/// The crust type the majority vote yields: Continental when at least half
/// the member cells belong to a continent (ties resolve to Continental).
pub open spec fn majority_crust(members: int, continental: int) -> Crust {
    if 2 * continental >= members {
        Crust::Continental
    } else {
        Crust::Oceanic
    }
}

/// Sample one plate per region: a velocity from the configured box, an age
/// from the configured range, and the crust type as the majority vote of
/// the member cells' continent membership.
pub fn sample_plates(
    rng: &mut rand_chacha::ChaCha20Rng,
    plate_count: usize,
    assign: &Vec<usize>,
    cont: &Vec<bool>,
) -> (r: Vec<Plate>)
    requires
        assign@.len() == cont@.len(),
        assign@.len() <= 1_000_000,
        plate_count >= 1,
    ensures
        r@.len() == plate_count,
        forall|g: int| 0 <= g < plate_count ==> {
            let p = #[trigger] r@[g];
            &&& -VEL_MAX <= p.vx <= VEL_MAX
            &&& -VEL_MAX <= p.vz <= VEL_MAX
            &&& AGE_MIN <= p.age <= AGE_MAX
            &&& p.crust == majority_crust(
                count_members(assign@, g, assign@.len() as int),
                count_continental(assign@, cont@, g, assign@.len() as int),
            )
        },
{
    let n = assign.len();
    let mut plates: Vec<Plate> = Vec::new();
    let mut g: usize = 0;
    while g < plate_count
        invariant
            n == assign@.len(),
            assign@.len() == cont@.len(),
            n <= 1_000_000,
            g <= plate_count,
            plates@.len() == g,
            forall|g2: int| 0 <= g2 < g ==> {
                let p = #[trigger] plates@[g2];
                &&& -VEL_MAX <= p.vx <= VEL_MAX
                &&& -VEL_MAX <= p.vz <= VEL_MAX
                &&& AGE_MIN <= p.age <= AGE_MAX
                &&& p.crust == majority_crust(
                    count_members(assign@, g2, n as int),
                    count_continental(assign@, cont@, g2, n as int),
                )
            },
        decreases plate_count - g,
    {
        let mut members: u64 = 0;
        let mut continental: u64 = 0;
        let mut c: usize = 0;
        while c < n
            invariant
                n == assign@.len(),
                assign@.len() == cont@.len(),
                n <= 1_000_000,
                c <= n,
                members == count_members(assign@, g as int, c as int),
                continental == count_continental(assign@, cont@, g as int, c as int),
                members <= c,
                continental <= members,
            decreases n - c,
        {
            if assign[c] == g {
                members = members + 1;
                if cont[c] {
                    continental = continental + 1;
                }
            } else {
                proof {
                    assert(count_members(assign@, g as int, c + 1) == members);
                }
            }
            c = c + 1;
        }
        let vx = rng_below(rng, (2 * VEL_MAX + 1) as u64) as i64 - VEL_MAX;
        let vz = rng_below(rng, (2 * VEL_MAX + 1) as u64) as i64 - VEL_MAX;
        let age = AGE_MIN + rng_below(rng, AGE_MAX - AGE_MIN + 1);
        let crust = if 2 * continental >= members {
            Crust::Continental
        } else {
            Crust::Oceanic
        };
        plates.push(Plate { vx, vz, crust, age });
        g = g + 1;
    }
    plates
}

/// One plate-boundary edge, derived during distance-field computation:
/// the two cells, the kind, the unnormalized normal from `a` to `b`, and
/// whether the `a` side is oceanic crust.
pub struct BoundaryEdge {
    pub a: usize,
    pub b: usize,
    pub kind: BoundaryKind,
    pub nx: i64,
    pub nz: i64,
    pub ocean_on_a: bool,
}

/// The boundary edge the adjacent pair `(a, b)` yields under `plates` and
/// the plate assignment.
pub open spec fn boundary_edge_spec(
    map: &SpatialMap,
    assign: Seq<usize>,
    plates: Seq<Plate>,
    a: int,
    b: int,
) -> BoundaryEdge {
    let pa = plates[assign[a] as int];
    let pb = plates[assign[b] as int];
    BoundaryEdge {
        a: a as usize,
        b: b as usize,
        kind: classify_spec(
            pa.vx - pb.vx,
            pa.vz - pb.vz,
            map.xs@[b] - map.xs@[a],
            map.zs@[b] - map.zs@[a],
        ),
        nx: (map.xs@[b] - map.xs@[a]) as i64,
        nz: (map.zs@[b] - map.zs@[a]) as i64,
        ocean_on_a: pa.crust is Oceanic,
    }
}

/// Collect every plate-boundary edge: each adjacent pair of cells on
/// different plates, deduplicated by canonical ordering of the two cell
/// identities, classified by the plates' relative motion.
pub fn boundary_edges(map: &SpatialMap, assign: &Vec<usize>, plates: &Vec<Plate>) -> (r: Vec<
    BoundaryEdge,
>)
    requires
        map.wf(),
        assign@.len() == map.n(),
        forall|c: int| 0 <= c < map.n() ==> #[trigger] assign@[c] < plates@.len(),
        forall|g: int| 0 <= g < plates@.len() ==> {
            let p = #[trigger] plates@[g];
            &&& -VEL_MAX <= p.vx <= VEL_MAX
            &&& -VEL_MAX <= p.vz <= VEL_MAX
        },
    ensures
        forall|i: int| 0 <= i < r@.len() ==> {
            let e = #[trigger] r@[i];
            &&& e.a < e.b < map.n()
            &&& map.adj(e.a as int, e.b as int)
            &&& assign@[e.a as int] != assign@[e.b as int]
            &&& e == boundary_edge_spec(map, assign@, plates@, e.a as int, e.b as int)
        },
        forall|a: int, b: int|
            0 <= a < b < map.n() && #[trigger] map.adj(a, b) && assign@[a] != assign@[b]
                ==> exists|i: int|
                0 <= i < r@.len() && (#[trigger] r@[i]).a == a && r@[i].b == b,
{
    let n = map.len();
    let mut out: Vec<BoundaryEdge> = Vec::new();
    let mut a: usize = 0;
    while a < n
        invariant
            map.wf(),
            n == map.n(),
            a <= n,
            assign@.len() == n,
            forall|c: int| 0 <= c < n ==> #[trigger] assign@[c] < plates@.len(),
            forall|g: int| 0 <= g < plates@.len() ==> {
                let p = #[trigger] plates@[g];
                &&& -VEL_MAX <= p.vx <= VEL_MAX
                &&& -VEL_MAX <= p.vz <= VEL_MAX
            },
            forall|i: int| 0 <= i < out@.len() ==> {
                let e = #[trigger] out@[i];
                &&& e.a < e.b < map.n()
                &&& map.adj(e.a as int, e.b as int)
                &&& assign@[e.a as int] != assign@[e.b as int]
                &&& e == boundary_edge_spec(map, assign@, plates@, e.a as int, e.b as int)
            },
            forall|a2: int, b2: int|
                0 <= a2 < a && a2 < b2 < map.n() && #[trigger] map.adj(a2, b2) && assign@[a2]
                    != assign@[b2] ==> exists|i: int|
                    0 <= i < out@.len() && (#[trigger] out@[i]).a == a2 && out@[i].b == b2,
        decreases n - a,
    {
        let nbs_len = map.neighbors[a].len();
        let mut k: usize = 0;
        while k < nbs_len
            invariant
                map.wf(),
                n == map.n(),
                a < n,
                k <= nbs_len,
                nbs_len == map.spatial_neighbor_count(a as int),
                assign@.len() == n,
                forall|c: int| 0 <= c < n ==> #[trigger] assign@[c] < plates@.len(),
                forall|g: int| 0 <= g < plates@.len() ==> {
                    let p = #[trigger] plates@[g];
                    &&& -VEL_MAX <= p.vx <= VEL_MAX
                    &&& -VEL_MAX <= p.vz <= VEL_MAX
                },
                forall|i: int| 0 <= i < out@.len() ==> {
                    let e = #[trigger] out@[i];
                    &&& e.a < e.b < map.n()
                    &&& map.adj(e.a as int, e.b as int)
                    &&& assign@[e.a as int] != assign@[e.b as int]
                    &&& e == boundary_edge_spec(map, assign@, plates@, e.a as int, e.b as int)
                },
                forall|a2: int, b2: int|
                    0 <= a2 < a && a2 < b2 < map.n() && #[trigger] map.adj(a2, b2) && assign@[a2]
                        != assign@[b2] ==> exists|i: int|
                        0 <= i < out@.len() && (#[trigger] out@[i]).a == a2 && out@[i].b == b2,
                forall|k2: int|
                    0 <= k2 < k && a < #[trigger] map.spatial_neighbor(a as int, k2)
                        && assign@[a as int] != assign@[map.spatial_neighbor(a as int, k2)]
                        ==> exists|i: int|
                        0 <= i < out@.len() && (#[trigger] out@[i]).a == a && out@[i].b
                            == map.spatial_neighbor(a as int, k2),
            decreases nbs_len - k,
        {
            let b = map.neighbors[a][k];
            let ghost out_entry = out@;
            let cond = a < b && assign[a] != assign[b];
            if cond {
                let pa = &plates[assign[a]];
                let pb = &plates[assign[b]];
                let nx = map.xs[b] - map.xs[a];
                let nz = map.zs[b] - map.zs[a];
                let kind = classify_pair(pa.vx - pb.vx, pa.vz - pb.vz, nx, nz);
                let e = BoundaryEdge {
                    a,
                    b,
                    kind,
                    nx,
                    nz,
                    ocean_on_a: matches!(pa.crust, Crust::Oceanic),
                };
                proof {
                    assert(map.adj(a as int, b as int)) by {
                        assert(map.neighbors@[a as int]@[k as int] == b);
                    }
                }
                let ghost out_before = out@;
                out.push(e);
                proof {
                    assert(out@[out@.len() - 1] == e);
                    assert forall|a2: int, b2: int|
                        0 <= a2 < a && a2 < b2 < map.n() && #[trigger] map.adj(a2, b2)
                            && assign@[a2] != assign@[b2] implies exists|i: int|
                        0 <= i < out@.len() && (#[trigger] out@[i]).a == a2 && out@[i].b
                            == b2 by {
                        let i = choose|i: int|
                            0 <= i < out_before.len() && (#[trigger] out_before[i]).a == a2
                                && out_before[i].b == b2;
                        assert(out@[i].a == a2 && out@[i].b == b2);
                    }
                }
            }
            proof {
                assert(map.spatial_neighbor(a as int, k as int) == b as int);
                assert forall|k2: int|
                    0 <= k2 < k + 1 && a < #[trigger] map.spatial_neighbor(a as int, k2)
                        && assign@[a as int] != assign@[map.spatial_neighbor(a as int, k2)]
                        implies exists|i: int|
                    0 <= i < out@.len() && (#[trigger] out@[i]).a == a && out@[i].b
                        == map.spatial_neighbor(a as int, k2) by {
                    if k2 == k {
                        assert(cond);
                        assert(out@[out@.len() - 1].a == a && out@[out@.len() - 1].b == b);
                    } else {
                        let i = choose|i: int|
                            0 <= i < out_entry.len() && (#[trigger] out_entry[i]).a == a
                                && out_entry[i].b == map.spatial_neighbor(a as int, k2);
                        assert(out@[i].a == a && out@[i].b == map.spatial_neighbor(
                            a as int,
                            k2,
                        ));
                    }
                }
            }
            k = k + 1;
        }
        proof {
            assert forall|b2: int|
                a < b2 < map.n() && #[trigger] map.adj(a as int, b2) && assign@[a as int]
                    != assign@[b2] implies exists|i: int|
                0 <= i < out@.len() && (#[trigger] out@[i]).a == a && out@[i].b == b2 by {
                let k2 = choose|k2: int|
                    0 <= k2 < map.neighbors@[a as int]@.len() && map.neighbors@[a as int]@[k2]
                        == b2;
                assert(map.spatial_neighbor(a as int, k2) == b2);
            }
        }
        a = a + 1;
    }
    out
}

} // verus!
