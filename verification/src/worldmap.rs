//! The generated world: the spatial partition plus a height per cell.
//!
//! Heights are fixed-point values in the canonical range `[0, HEIGHT_ONE]`,
//! with `SEA_LEVEL` (one half) the split point between water and land.

use vstd::prelude::*;

use crate::continents;
use crate::distance;
use crate::height;
use crate::noise;
use crate::plates;
use crate::plates::BoundaryKind;
use crate::region;
use crate::region::GrowError;
use crate::region::seed_reachable;
use crate::region::seed_reaches;
use crate::rng::pick_seeds;
use crate::spatial::CellId;
use crate::spatial::SpatialMap;

verus! {

/// The fixed-point value standing for height 1.0.
pub const HEIGHT_ONE: u64 = 1_000_000;

/// The fixed-point value standing for sea level, height 0.5.
pub const SEA_LEVEL: u64 = 500_000;

/// The generated map: immutable after generation, shared read-only.
pub struct WorldMap {
    /// The spatial partition the map was generated over.
    pub spatial: SpatialMap,
    /// Final height of each cell, in `[0, HEIGHT_ONE]`.
    pub heights: Vec<u64>,
}

impl WorldMap {
    /// Number of cells.
    pub open spec fn n(&self) -> int {
        self.spatial.n()
    }

    /// Well-formedness: a well-formed partition and one canonical-range
    /// height per cell.
    pub open spec fn wf(&self) -> bool {
        &&& self.spatial.wf()
        &&& self.heights@.len() == self.n()
        &&& forall|i: int| 0 <= i < self.n() ==> #[trigger] self.heights@[i] <= HEIGHT_ONE
    }

    /// The height of cell `c` in the canonical range.
    pub fn height(&self, c: CellId) -> (r: u64)
        requires
            self.wf(),
            c.0 < self.n(),
        ensures
            r == self.heights@[c.0 as int],
            r <= HEIGHT_ONE,
    {
        self.heights[c.0]
    }

    /// The neighbor cells of `c`.
    pub fn neighbor_cells(&self, c: CellId) -> (r: Vec<CellId>)
        requires
            self.wf(),
            c.0 < self.n(),
        ensures
            r@.len() == self.spatial.neighbors@[c.0 as int]@.len(),
            forall|k: int|
                0 <= k < r@.len() ==> #[trigger] r@[k].0 == self.spatial.neighbors@[c.0 as int]@[k],
    {
        let list = self.spatial.neighbor_list(c);
        let mut out: Vec<CellId> = Vec::new();
        let mut k: usize = 0;
        while k < list.len()
            invariant
                k <= list@.len(),
                list@ == self.spatial.neighbors@[c.0 as int]@,
                out@.len() == k,
                forall|j: int| 0 <= j < k ==> #[trigger] out@[j].0 == list@[j],
            decreases list@.len() - k,
        {
            out.push(CellId(list[k]));
            k = k + 1;
        }
        out
    }

    /// The site position of cell `c`.
    pub fn position(&self, c: CellId) -> (r: (i64, i64))
        requires
            self.wf(),
            c.0 < self.n(),
        ensures
            r.0 == self.spatial.xs@[c.0 as int],
            r.1 == self.spatial.zs@[c.0 as int],
    {
        self.spatial.position(c)
    }

    /// The axis-aligned bounds of all cell sites: `((min_x, min_z), (max_x, max_z))`.
    /// An empty map reports a degenerate box at the origin.
    pub fn bounds(&self) -> (r: ((i64, i64), (i64, i64)))
        requires
            self.wf(),
        ensures
            forall|i: int| 0 <= i < self.n() ==> r.0.0 <= #[trigger] self.spatial.xs@[i] <= r.1.0,
            forall|i: int| 0 <= i < self.n() ==> r.0.1 <= #[trigger] self.spatial.zs@[i] <= r.1.1,
            self.n() > 0 ==> {
                &&& exists|i: int| 0 <= i < self.n() && #[trigger] self.spatial.xs@[i] == r.0.0
                &&& exists|i: int| 0 <= i < self.n() && #[trigger] self.spatial.xs@[i] == r.1.0
                &&& exists|i: int| 0 <= i < self.n() && #[trigger] self.spatial.zs@[i] == r.0.1
                &&& exists|i: int| 0 <= i < self.n() && #[trigger] self.spatial.zs@[i] == r.1.1
            },
            self.n() == 0 ==> r == ((0i64, 0i64), (0i64, 0i64)),
    {
        let n = self.spatial.len();
        if n == 0 {
            return ((0, 0), (0, 0));
        }
        let mut min_x: i64 = self.spatial.xs[0];
        let mut max_x: i64 = min_x;
        let mut min_z: i64 = self.spatial.zs[0];
        let mut max_z: i64 = min_z;
        let mut i: usize = 1;
        while i < n
            invariant
                self.wf(),
                1 <= i <= n,
                n == self.n(),
                forall|j: int| 0 <= j < i ==> min_x <= #[trigger] self.spatial.xs@[j] <= max_x,
                forall|j: int| 0 <= j < i ==> min_z <= #[trigger] self.spatial.zs@[j] <= max_z,
                exists|j: int| 0 <= j < i && #[trigger] self.spatial.xs@[j] == min_x,
                exists|j: int| 0 <= j < i && #[trigger] self.spatial.xs@[j] == max_x,
                exists|j: int| 0 <= j < i && #[trigger] self.spatial.zs@[j] == min_z,
                exists|j: int| 0 <= j < i && #[trigger] self.spatial.zs@[j] == max_z,
            decreases n - i,
        {
            let x = self.spatial.xs[i];
            let z = self.spatial.zs[i];
            if x < min_x {
                min_x = x;
            }
            if x > max_x {
                max_x = x;
            }
            if z < min_z {
                min_z = z;
            }
            if z > max_z {
                max_z = z;
            }
            i = i + 1;
        }
        ((min_x, min_z), (max_x, max_z))
    }
}


/// Configuration of one generation run.
pub struct WorldGenerationParams {
    /// Number of tectonic plates to seed.
    pub plate_count: usize,
    /// Number of continent seeds on the finer partition.
    pub continent_count: usize,
    /// Cap on the cell count of one continent.
    pub continent_size: usize,
    /// Number of ocean seeds on the finer partition.
    pub ocean_count: usize,
    /// Cap on the cell count of one ocean region.
    pub ocean_size: usize,
    /// Seed of the noise fields.
    pub noise_seed: u64,
}

impl WorldGenerationParams {
    /// The parameters admit a run over a partition of `n` cells.
    pub open spec fn ok_for(&self, n: int) -> bool {
        &&& 1 <= self.plate_count <= n
        &&& 1 <= self.continent_count
        &&& 1 <= self.ocean_count
        &&& self.continent_count + self.ocean_count <= n
        &&& 1 <= self.continent_size
        &&& 1 <= self.ocean_size
    }
}

/// Every cell can reach every other cell along the adjacency structure.
pub open spec fn cells_connected(map: &SpatialMap) -> bool {
    forall|a: int, c: int|
        0 <= a < map.n() && 0 <= c < map.n() ==> #[trigger] seed_reachable(
            map,
            seq![a as usize],
            c,
        )
}

/// Reaching a seed set from within is preserved by enlarging the set.
proof fn lemma_seed_reaches_superset(
    map: &SpatialMap,
    s1: Seq<usize>,
    s2: Seq<usize>,
    c: int,
    k: nat,
)
    requires
        seed_reaches(map, s1, c, k),
        forall|j: int| 0 <= j < s1.len() ==> exists|j2: int|
            0 <= j2 < s2.len() && #[trigger] s2[j2] == #[trigger] s1[j],
    ensures
        seed_reaches(map, s2, c, k),
    decreases k,
{
    if region::is_seed(s1, c) {
        let j = choose|j: int| 0 <= j < s1.len() && s1[j] == c;
        let j2 = choose|j2: int| 0 <= j2 < s2.len() && #[trigger] s2[j2] == s1[j];
        assert(region::is_seed(s2, c));
    } else if k > 0 {
        let b = choose|b: int| #[trigger] map.adj(c, b) && seed_reaches(map, s1, b, (k - 1) as nat);
        lemma_seed_reaches_superset(map, s1, s2, b, (k - 1) as nat);
    }
}

/// Over a connected partition, every nonempty seed set reaches every cell.
proof fn lemma_connected_seed_reachable(map: &SpatialMap, seeds: Seq<usize>, c: int)
    requires
        cells_connected(map),
        seeds.len() >= 1,
        forall|j: int| 0 <= j < seeds.len() ==> #[trigger] seeds[j] < map.n(),
        0 <= c < map.n(),
    ensures
        seed_reachable(map, seeds, c),
{
    let a = seeds[0] as int;
    assert(seed_reachable(map, seq![a as usize], c));
    let k = choose|k: nat| #[trigger] seed_reaches(map, seq![a as usize], c, k);
    assert forall|j: int| 0 <= j < seq![a as usize].len() implies exists|j2: int|
        0 <= j2 < seeds.len() && #[trigger] seeds[j2] == #[trigger] seq![a as usize][j] by {
        assert(seeds[0] == seq![a as usize][0]);
    }
    lemma_seed_reaches_superset(map, seq![a as usize], seeds, c, k);
}

/// A cell out of reach of some nonempty seed set disconnects the partition.
proof fn lemma_unreachable_not_connected(map: &SpatialMap, seeds: Seq<usize>, c: int)
    requires
        seeds.len() >= 1,
        forall|j: int| 0 <= j < seeds.len() ==> #[trigger] seeds[j] < map.n(),
        0 <= c < map.n(),
        !seed_reachable(map, seeds, c),
    ensures
        !cells_connected(map),
{
    if cells_connected(map) {
        lemma_connected_seed_reachable(map, seeds, c);
    }
}

/// The cell lies on the shoreline: its water-ness differs from that of
/// some neighbor.
pub open spec fn shoreline(map: &SpatialMap, ocean: Seq<bool>, c: int) -> bool {
    exists|k: int|
        0 <= k < map.spatial_neighbor_count(c) && ocean[#[trigger] map.spatial_neighbor(c, k)]
            != ocean[c]
}

/// Collect the shoreline cells.
fn coastal_seeds(map: &SpatialMap, ocean: &Vec<bool>) -> (r: Vec<usize>)
    requires
        map.wf(),
        ocean@.len() == map.n(),
    ensures
        forall|i: int| 0 <= i < r@.len() ==> #[trigger] r@[i] < map.n(),
        forall|i: int| 0 <= i < r@.len() ==> shoreline(map, ocean@, #[trigger] r@[i] as int),
        forall|c: int|
            0 <= c < map.n() && shoreline(map, ocean@, c) ==> region::is_seed(r@, c),
{
    let n = map.len();
    let mut out: Vec<usize> = Vec::new();
    let mut c: usize = 0;
    while c < n
        invariant
            map.wf(),
            n == map.n(),
            c <= n,
            ocean@.len() == n,
            forall|i: int| 0 <= i < out@.len() ==> #[trigger] out@[i] < map.n(),
            forall|i: int|
                0 <= i < out@.len() ==> shoreline(map, ocean@, #[trigger] out@[i] as int),
            forall|c2: int|
                0 <= c2 < c && shoreline(map, ocean@, c2) ==> region::is_seed(out@, c2),
        decreases n - c,
    {
        let cnt = map.neighbors[c].len();
        let mut found = false;
        let mut k: usize = 0;
        while k < cnt
            invariant_except_break
                map.wf(),
                n == map.n(),
                c < n,
                ocean@.len() == n,
                k <= cnt,
                cnt == map.spatial_neighbor_count(c as int),
                !found,
                forall|k2: int|
                    0 <= k2 < k ==> ocean@[#[trigger] map.spatial_neighbor(c as int, k2)]
                        == ocean@[c as int],
            ensures
                found ==> shoreline(map, ocean@, c as int),
                !found ==> !shoreline(map, ocean@, c as int),
            decreases cnt - k,
        {
            let nb = map.neighbors[c][k];
            proof {
                assert(map.spatial_neighbor(c as int, k as int) == nb as int);
            }
            if ocean[nb] != ocean[c] {
                found = true;
                break ;
            }
            k = k + 1;
        }
        let ghost out0 = out@;
        if found {
            out.push(c);
            proof {
                assert(out@[out@.len() - 1] == c);
            }
        }
        proof {
            assert forall|c2: int|
                0 <= c2 < c + 1 && shoreline(map, ocean@, c2) implies region::is_seed(
                out@,
                c2,
            ) by {
                if c2 < c {
                    assert(region::is_seed(out0, c2));
                    let j = choose|j: int| 0 <= j < out0.len() && #[trigger] out0[j] == c2;
                    assert(out@[j] == c2);
                } else {
                    assert(found);
                    assert(out@[out@.len() - 1] == c2);
                }
            }
        }
        c = c + 1;
    }
    out
}

/// The cells edge `i` contributes as seeds of one boundary kind: both
/// endpoints, or for convergent fields only the requested side.
pub open spec fn edge_seed_set(e: plates::BoundaryEdge, kind: BoundaryKind, side: Option<bool>) -> Set<int> {
    if e.kind == kind {
        match side {
            Option::None => set![e.a as int, e.b as int],
            Option::Some(want_ocean) => if e.ocean_on_a == want_ocean {
                set![e.a as int]
            } else {
                set![e.b as int]
            },
        }
    } else {
        Set::empty()
    }
}

/// Some matching edge contributes `c` as a seed.
pub open spec fn seed_from_edges(
    edges: Seq<plates::BoundaryEdge>,
    kind: BoundaryKind,
    side: Option<bool>,
    c: int,
) -> bool {
    exists|i: int|
        0 <= i < edges.len() && #[trigger] edge_seed_set(edges[i], kind, side).contains(c)
}

/// Collect the endpoints of every boundary edge of one kind; for
/// convergent edges optionally only the oceanic or only the continental
/// side. The result holds exactly the cells the matching edges touch on
/// the requested side.
fn kind_seeds(
    edges: &Vec<plates::BoundaryEdge>,
    kind: BoundaryKind,
    side: Option<bool>,
    n: usize,
) -> (r: Vec<usize>)
    requires
        forall|i: int|
            0 <= i < edges@.len() ==> (#[trigger] edges@[i]).a < n && edges@[i].b < n,
    ensures
        forall|i: int| 0 <= i < r@.len() ==> #[trigger] r@[i] < n,
        forall|i: int, c: int|
            0 <= i < edges@.len() && #[trigger] edge_seed_set(edges@[i], kind, side).contains(c)
                ==> region::is_seed(r@, c),
        forall|i: int|
            0 <= i < r@.len() ==> seed_from_edges(edges@, kind, side, (#[trigger] r@[i]) as int),
{
    let mut out: Vec<usize> = Vec::new();
    let mut i: usize = 0;
    while i < edges.len()
        invariant
            i <= edges@.len(),
            forall|i2: int|
                0 <= i2 < edges@.len() ==> (#[trigger] edges@[i2]).a < n && edges@[i2].b < n,
            forall|i2: int| 0 <= i2 < out@.len() ==> #[trigger] out@[i2] < n,
            forall|i2: int, c: int|
                0 <= i2 < i && #[trigger] edge_seed_set(edges@[i2], kind, side).contains(c)
                    ==> region::is_seed(out@, c),
            forall|i2: int|
                0 <= i2 < out@.len() ==> seed_from_edges(
                    edges@,
                    kind,
                    side,
                    (#[trigger] out@[i2]) as int,
                ),
        decreases edges@.len() - i,
    {
        let ghost out0 = out@;
        let e = &edges[i];
        if e.kind == kind {
            match side {
                None => {
                    out.push(e.a);
                    out.push(e.b);
                    proof {
                        assert(out@[out@.len() - 2] == edges@[i as int].a);
                        assert(out@[out@.len() - 1] == edges@[i as int].b);
                    }
                },
                Some(want_ocean) => {
                    if e.ocean_on_a == want_ocean {
                        out.push(e.a);
                    } else {
                        out.push(e.b);
                    }
                    proof {
                        assert(out@.len() >= 1);
                    }
                },
            }
        }
        proof {
            assert forall|i2: int, c: int|
                0 <= i2 < i + 1 && #[trigger] edge_seed_set(edges@[i2], kind, side).contains(c)
                implies region::is_seed(out@, c) by {
                if i2 < i {
                    assert(region::is_seed(out0, c));
                    let j = choose|j: int| 0 <= j < out0.len() && #[trigger] out0[j] == c;
                    assert(out@[j] == c);
                } else {
                    assert(edges@[i as int].kind == kind);
                    match side {
                        Option::None => {
                            assert(out@[out@.len() - 2] == edges@[i as int].a);
                            assert(out@[out@.len() - 1] == edges@[i as int].b);
                        },
                        Option::Some(want_ocean) => {
                            assert(out@[out@.len() - 1] == c);
                        },
                    }
                }
            }
            assert forall|i2: int| 0 <= i2 < out@.len() implies seed_from_edges(
                edges@,
                kind,
                side,
                (#[trigger] out@[i2]) as int,
            ) by {
                if i2 < out0.len() {
                    assert(out@[i2] == out0[i2]);
                    assert(seed_from_edges(edges@, kind, side, out0[i2] as int));
                } else {
                    assert(edges@[i as int].kind == kind);
                    assert(edge_seed_set(edges@[i as int], kind, side).contains(
                        out@[i2] as int,
                    ));
                }
            }
        }
        i = i + 1;
    }
    out
}

/// Compose the domain-warped noise deltas over the whole map.
fn noise_deltas(
    map: &SpatialMap,
    conv: &Vec<u32>,
    ocean: &Vec<bool>,
    unit: u64,
    seed: u64,
) -> (r: Vec<i64>)
    requires
        map.wf(),
        conv@.len() == map.n(),
        ocean@.len() == map.n(),
        unit <= 1_000_000_000,
    ensures
        r@.len() == map.n(),
        forall|c: int| 0 <= c < map.n() ==> #[trigger] r@[c] == noise::noise_delta_spec(
            seed,
            map.xs@[c],
            map.zs@[c],
            height::hop_dist_spec(conv@[c], unit),
            ocean@[c],
        ),
        forall|c: int| 0 <= c < map.n() ==> -1_000_000 <= #[trigger] r@[c] <= 1_000_000,
{
    let n = map.len();
    let mut out: Vec<i64> = Vec::new();
    let mut c: usize = 0;
    while c < n
        invariant
            map.wf(),
            n == map.n(),
            c <= n,
            conv@.len() == n,
            ocean@.len() == n,
            unit <= 1_000_000_000,
            out@.len() == c,
            forall|c2: int| 0 <= c2 < c ==> #[trigger] out@[c2] == noise::noise_delta_spec(
                seed,
                map.xs@[c2],
                map.zs@[c2],
                height::hop_dist_spec(conv@[c2], unit),
                ocean@[c2],
            ),
            forall|c2: int| 0 <= c2 < c ==> -1_000_000 <= #[trigger] out@[c2] <= 1_000_000,
        decreases n - c,
    {
        let d = height::hop_dist(conv[c], unit);
        let v = noise::noise_delta(seed, map.xs[c], map.zs[c], d, ocean[c]);
        out.push(v);
        c = c + 1;
    }
    out
}


/// Squared distance from the query point to the site of cell `j`.
pub open spec fn site_dist_sq(map: &SpatialMap, x: int, z: int, j: int) -> int {
    let dx = map.xs@[j] - x;
    let dz = map.zs@[j] - z;
    dx * dx + dz * dz
}

impl WorldMap {
    /// The cell whose site lies nearest to the query point, the cell the
    /// relaxed partition assigns the point to; `None` only on an empty map.
    pub fn cell_for_position(&self, x: i64, z: i64) -> (r: Option<CellId>)
        requires
            self.wf(),
            -100_000_000 <= x <= 100_000_000,
            -100_000_000 <= z <= 100_000_000,
        ensures
            match r {
                Option::None => self.n() == 0,
                Option::Some(c) => c.0 < self.n() && forall|j: int|
                    0 <= j < self.n() ==> site_dist_sq(&self.spatial, x as int, z as int, c.0 as int)
                        <= #[trigger] site_dist_sq(&self.spatial, x as int, z as int, j),
            },
    {
        let n = self.spatial.len();
        if n == 0 {
            return None;
        }
        let mut best: usize = 0;
        let mut best_d: u64 = self.dist_sq_to(x, z, 0);
        let mut j: usize = 1;
        while j < n
            invariant
                self.wf(),
                n == self.n(),
                -100_000_000 <= x <= 100_000_000,
                -100_000_000 <= z <= 100_000_000,
                1 <= j <= n,
                best < n,
                best_d == site_dist_sq(&self.spatial, x as int, z as int, best as int),
                forall|j2: int|
                    0 <= j2 < j ==> best_d <= #[trigger] site_dist_sq(
                        &self.spatial,
                        x as int,
                        z as int,
                        j2,
                    ),
            decreases n - j,
        {
            let d = self.dist_sq_to(x, z, j);
            if d < best_d {
                best = j;
                best_d = d;
            }
            j = j + 1;
        }
        Some(CellId(best))
    }

    /// Squared distance from the query point to the site of cell `j`.
    fn dist_sq_to(&self, x: i64, z: i64, j: usize) -> (r: u64)
        requires
            self.wf(),
            j < self.n(),
            -100_000_000 <= x <= 100_000_000,
            -100_000_000 <= z <= 100_000_000,
        ensures
            r == site_dist_sq(&self.spatial, x as int, z as int, j as int),
    {
        let dx = self.spatial.xs[j] - x;
        let dz = self.spatial.zs[j] - z;
        let dxu: u64 = (if dx >= 0 { dx } else { -dx }) as u64;
        let dzu: u64 = (if dz >= 0 { dz } else { -dz }) as u64;
        proof {
            assert(dxu * dxu == dx * dx && dzu * dzu == dz * dz && dxu * dxu
                <= 40_000_000_000_000_000 && dzu * dzu <= 40_000_000_000_000_000)
                by (nonlinear_arith)
                requires
                    dxu == (if dx >= 0 { dx as int } else { -(dx as int) }),
                    dzu == (if dz >= 0 { dz as int } else { -(dz as int) }),
                    -200_000_000 <= dx <= 200_000_000,
                    -200_000_000 <= dz <= 200_000_000,
            ;
        }
        dxu * dxu + dzu * dzu
    }
}


/// The height field of a generated world arises from the synthesis
/// pipeline, stage by stage: a crust baseline (`h0`, from plates whose
/// draws lie in the configured ranges and whose crust is the majority
/// vote of their members' land flags) smoothed twice (`h1`, `h2`), shifted
/// by the boundary, coastal and domain-warped noise layers over the
/// distance fields (`h5`), carved along the steepest-descent drainage
/// forest (`succ`, `flow`, `h6`), and normalized into the canonical range
/// (`heights`). The random draws, distance fields and drainage data are
/// the quantified intermediate values.
pub open spec fn height_pipeline(
    spatial: &SpatialMap,
    params: &WorldGenerationParams,
    assign: Seq<usize>,
    plates_v: Seq<plates::Plate>,
    ocean: Seq<bool>,
    land: Seq<bool>,
    conv: Seq<u32>,
    conv_ocean: Seq<u32>,
    conv_land: Seq<u32>,
    div: Seq<u32>,
    trans: Seq<u32>,
    coast: Seq<u32>,
    unit: u64,
    h0: Seq<u64>,
    h1: Seq<u64>,
    h2: Seq<u64>,
    h5: Seq<u64>,
    succ: Seq<Option<usize>>,
    flow: Seq<u64>,
    h6: Seq<u64>,
    heights: Seq<u64>,
) -> bool {
    let n = spatial.n();
    &&& assign.len() == n && ocean.len() == n && land.len() == n && conv.len() == n
        && conv_ocean.len() == n && conv_land.len() == n && div.len() == n && trans.len() == n
        && coast.len() == n && h0.len() == n && h1.len() == n && h2.len() == n && h5.len() == n
        && succ.len() == n && flow.len() == n && h6.len() == n && heights.len() == n
    &&& plates_v.len() == params.plate_count
    &&& unit <= 1_000_000_000
    &&& forall|c: int| 0 <= c < n ==> #[trigger] assign[c] < plates_v.len()
    &&& forall|c: int| 0 <= c < n ==> #[trigger] land[c] == !ocean[c]
    &&& forall|g: int| 0 <= g < plates_v.len() ==> {
        let p = #[trigger] plates_v[g];
        &&& -plates::VEL_MAX <= p.vx <= plates::VEL_MAX
        &&& -plates::VEL_MAX <= p.vz <= plates::VEL_MAX
        &&& plates::AGE_MIN <= p.age <= plates::AGE_MAX
        &&& p.crust == plates::majority_crust(
            plates::count_members(assign, g, n),
            plates::count_continental(assign, land, g, n),
        )
    }
    &&& forall|c: int| 0 <= c < n ==> #[trigger] h0[c] == height::baseline_spec(
        plates_v[assign[c] as int].crust,
        plates_v[assign[c] as int].age,
    )
    &&& forall|c: int| 0 <= c < n ==> #[trigger] h1[c] == height::smooth_spec(spatial, h0, c)
    &&& forall|c: int| 0 <= c < n ==> #[trigger] h2[c] == height::smooth_spec(spatial, h1, c)
    &&& forall|c: int| 0 <= c < n ==> #[trigger] h5[c] == h2[c] + height::boundary_delta_spec(
        conv[c],
        conv_ocean[c],
        conv_land[c],
        div[c],
        trans[c],
        unit,
    ) + height::coastal_delta_spec(coast[c], ocean[c], unit) + noise::noise_delta_spec(
        params.noise_seed,
        spatial.xs@[c],
        spatial.zs@[c],
        height::hop_dist_spec(conv[c], unit),
        ocean[c],
    )
    &&& forall|c: int| 0 <= c < n ==> match #[trigger] succ[c] {
        Option::None => forall|k: int|
            0 <= k < spatial.spatial_neighbor_count(c) ==> h5[#[trigger] spatial.spatial_neighbor(
                c,
                k,
            )] >= h5[c],
        Option::Some(b) => {
            &&& b < n
            &&& spatial.adj(c, b as int)
            &&& h5[b as int] < h5[c]
            &&& forall|k: int|
                0 <= k < spatial.spatial_neighbor_count(c) ==> h5[
                    #[trigger] spatial.spatial_neighbor(c, k)] >= h5[b as int]
        },
    }
    &&& forall|c: int| 0 <= c < n ==> 1 <= #[trigger] flow[c] <= height::FLOW_CAP
    &&& forall|c: int| 0 <= c < n ==> #[trigger] flow[c] == height::flow_add(
        1,
        height::pred_flow_sum(succ, flow, c, n),
    )
    &&& forall|c: int| 0 <= c < n ==> match #[trigger] succ[c] {
        Option::None => true,
        Option::Some(b) => flow[b as int] >= flow[c] + 1 || flow[b as int] == height::FLOW_CAP,
    }
    &&& forall|c: int|
        0 <= c < n && (forall|j: int|
            0 <= j < n ==> #[trigger] succ[j] != Option::Some(c as usize)) ==> #[trigger] flow[c]
            == 1
    &&& forall|c: int| 0 <= c < n ==> {
        let total = height::carve_depth_spec(flow[c]) + height::pred_carve_sum(succ, flow, c, n);
        #[trigger] h6[c] == h5[c] - (if total <= height::CARVE_TOTAL_CAP {
            total
        } else {
            height::CARVE_TOTAL_CAP as int
        })
    }
    &&& forall|c: int| 0 <= c < n ==> #[trigger] heights[c] == height::normalize_spec(
        h6[c] as int,
        height::min_below_bias(h6, n),
        height::max_above_bias(h6, n),
    )
}


/// The stage contracts of the synthesis pipeline compose into
/// `height_pipeline`: given every stage's exact per-cell relation, the
/// final heights arise from the layered, carved, normalized baseline.
proof fn lemma_pipeline_composes(
    spatial: &SpatialMap,
    params: &WorldGenerationParams,
    assign: Seq<usize>,
    plates_v: Seq<plates::Plate>,
    ocean: Seq<bool>,
    land: Seq<bool>,
    conv: Seq<u32>,
    conv_ocean: Seq<u32>,
    conv_land: Seq<u32>,
    div: Seq<u32>,
    trans: Seq<u32>,
    coast: Seq<u32>,
    unit: u64,
    h0: Seq<u64>,
    h1: Seq<u64>,
    h2: Seq<u64>,
    bd: Seq<i64>,
    cd: Seq<i64>,
    nd: Seq<i64>,
    h3: Seq<u64>,
    h4: Seq<u64>,
    h5: Seq<u64>,
    succ: Seq<Option<usize>>,
    flow: Seq<u64>,
    h6: Seq<u64>,
    heights: Seq<u64>,
)
    requires
        assign.len() == spatial.n() && ocean.len() == spatial.n() && land.len() == spatial.n()
            && conv.len() == spatial.n() && conv_ocean.len() == spatial.n() && conv_land.len()
            == spatial.n() && div.len() == spatial.n() && trans.len() == spatial.n()
            && coast.len() == spatial.n() && h0.len() == spatial.n() && h1.len() == spatial.n()
            && h2.len() == spatial.n() && bd.len() == spatial.n() && cd.len() == spatial.n()
            && nd.len() == spatial.n() && h3.len() == spatial.n() && h4.len() == spatial.n()
            && h5.len() == spatial.n() && succ.len() == spatial.n() && flow.len() == spatial.n()
            && h6.len() == spatial.n() && heights.len() == spatial.n(),
        plates_v.len() == params.plate_count,
        unit <= 1_000_000_000,
        forall|c: int| 0 <= c < spatial.n() ==> #[trigger] assign[c] < plates_v.len(),
        forall|c: int| 0 <= c < spatial.n() ==> #[trigger] land[c] == !ocean[c],
        forall|g: int| 0 <= g < plates_v.len() ==> {
            let p = #[trigger] plates_v[g];
            &&& -plates::VEL_MAX <= p.vx <= plates::VEL_MAX
            &&& -plates::VEL_MAX <= p.vz <= plates::VEL_MAX
            &&& plates::AGE_MIN <= p.age <= plates::AGE_MAX
            &&& p.crust == plates::majority_crust(
                plates::count_members(assign, g, spatial.n()),
                plates::count_continental(assign, land, g, spatial.n()),
            )
        },
        forall|c: int| 0 <= c < spatial.n() ==> #[trigger] h0[c] == height::baseline_spec(
            plates_v[assign[c] as int].crust,
            plates_v[assign[c] as int].age,
        ),
        forall|c: int| 0 <= c < spatial.n() ==> #[trigger] h1[c] == height::smooth_spec(
            spatial,
            h0,
            c,
        ),
        forall|c: int| 0 <= c < spatial.n() ==> #[trigger] h2[c] == height::smooth_spec(
            spatial,
            h1,
            c,
        ),
        forall|c: int| 0 <= c < spatial.n() ==> #[trigger] bd[c] == height::boundary_delta_spec(
            conv[c],
            conv_ocean[c],
            conv_land[c],
            div[c],
            trans[c],
            unit,
        ),
        forall|c: int| 0 <= c < spatial.n() ==> #[trigger] cd[c] == height::coastal_delta_spec(
            coast[c],
            ocean[c],
            unit,
        ),
        forall|c: int| 0 <= c < spatial.n() ==> #[trigger] nd[c] == noise::noise_delta_spec(
            params.noise_seed,
            spatial.xs@[c],
            spatial.zs@[c],
            height::hop_dist_spec(conv[c], unit),
            ocean[c],
        ),
        forall|c: int| 0 <= c < spatial.n() ==> #[trigger] h3[c] == h2[c] + bd[c],
        forall|c: int| 0 <= c < spatial.n() ==> #[trigger] h4[c] == h3[c] + cd[c],
        forall|c: int| 0 <= c < spatial.n() ==> #[trigger] h5[c] == h4[c] + nd[c],
        forall|c: int| 0 <= c < spatial.n() ==> match #[trigger] succ[c] {
            Option::None => forall|k: int|
                0 <= k < spatial.spatial_neighbor_count(c) ==> h5[
                    #[trigger] spatial.spatial_neighbor(c, k)] >= h5[c],
            Option::Some(b) => {
                &&& b < spatial.n()
                &&& spatial.adj(c, b as int)
                &&& h5[b as int] < h5[c]
                &&& forall|k: int|
                    0 <= k < spatial.spatial_neighbor_count(c) ==> h5[
                        #[trigger] spatial.spatial_neighbor(c, k)] >= h5[b as int]
            },
        },
        forall|c: int| 0 <= c < spatial.n() ==> 1 <= #[trigger] flow[c] <= height::FLOW_CAP,
        forall|c: int| 0 <= c < spatial.n() ==> #[trigger] flow[c] == height::flow_add(
            1,
            height::pred_flow_sum(succ, flow, c, spatial.n()),
        ),
        forall|c: int| 0 <= c < spatial.n() ==> match #[trigger] succ[c] {
            Option::None => true,
            Option::Some(b) => flow[b as int] >= flow[c] + 1 || flow[b as int]
                == height::FLOW_CAP,
        },
        forall|c: int|
            0 <= c < spatial.n() && (forall|j: int|
                0 <= j < spatial.n() ==> #[trigger] succ[j] != Option::Some(c as usize))
                ==> #[trigger] flow[c] == 1,
        forall|c: int| 0 <= c < spatial.n() ==> {
            let total = height::carve_depth_spec(flow[c]) + height::pred_carve_sum(
                succ,
                flow,
                c,
                spatial.n(),
            );
            #[trigger] h6[c] == h5[c] - (if total <= height::CARVE_TOTAL_CAP {
                total
            } else {
                height::CARVE_TOTAL_CAP as int
            })
        },
        forall|c: int| 0 <= c < spatial.n() ==> #[trigger] heights[c] == height::normalize_spec(
            h6[c] as int,
            height::min_below_bias(h6, spatial.n()),
            height::max_above_bias(h6, spatial.n()),
        ),
    ensures
        height_pipeline(
            spatial,
            params,
            assign,
            plates_v,
            ocean,
            land,
            conv,
            conv_ocean,
            conv_land,
            div,
            trans,
            coast,
            unit,
            h0,
            h1,
            h2,
            h5,
            succ,
            flow,
            h6,
            heights,
        ),
{
    assert forall|c: int| 0 <= c < spatial.n() implies #[trigger] h5[c] == h2[c]
        + height::boundary_delta_spec(
        conv[c],
        conv_ocean[c],
        conv_land[c],
        div[c],
        trans[c],
        unit,
    ) + height::coastal_delta_spec(coast[c], ocean[c], unit) + noise::noise_delta_spec(
        params.noise_seed,
        spatial.xs@[c],
        spatial.zs@[c],
        height::hop_dist_spec(conv[c], unit),
        ocean[c],
    ) by {
        assert(h3[c] == h2[c] + bd[c]);
        assert(h4[c] == h3[c] + cd[c]);
        assert(h5[c] == h4[c] + nd[c]);
    }
}

/// Assemble and normalize the height field over precomputed plate data,
/// land flags and distance fields: baseline, two smoothing passes, the
/// three layers, river carving, normalization. The result is tied to the
/// stages by `height_pipeline`.
#[verifier::rlimit(100)]
fn assemble_heights(
    spatial: &SpatialMap,
    params: &WorldGenerationParams,
    assign: &Vec<usize>,
    plates_data: &Vec<plates::Plate>,
    is_ocean: &Vec<bool>,
    is_cont: &Vec<bool>,
    conv_h: &Vec<u32>,
    conv_ocean_h: &Vec<u32>,
    conv_land_h: &Vec<u32>,
    div_h: &Vec<u32>,
    trans_h: &Vec<u32>,
    coast_h: &Vec<u32>,
    unit: u64,
) -> (r: Vec<u64>)
    requires
        spatial.wf(),
        assign@.len() == spatial.n(),
        is_ocean@.len() == spatial.n(),
        is_cont@.len() == spatial.n(),
        conv_h@.len() == spatial.n(),
        conv_ocean_h@.len() == spatial.n(),
        conv_land_h@.len() == spatial.n(),
        div_h@.len() == spatial.n(),
        trans_h@.len() == spatial.n(),
        coast_h@.len() == spatial.n(),
        unit <= 1_000_000_000,
        plates_data@.len() == params.plate_count,
        forall|c: int| 0 <= c < spatial.n() ==> #[trigger] assign@[c] < plates_data@.len(),
        forall|c: int| 0 <= c < spatial.n() ==> #[trigger] is_cont@[c] == !is_ocean@[c],
        forall|g: int| 0 <= g < plates_data@.len() ==> {
            let p = #[trigger] plates_data@[g];
            &&& -plates::VEL_MAX <= p.vx <= plates::VEL_MAX
            &&& -plates::VEL_MAX <= p.vz <= plates::VEL_MAX
            &&& plates::AGE_MIN <= p.age <= plates::AGE_MAX
            &&& p.crust == plates::majority_crust(
                plates::count_members(assign@, g, spatial.n()),
                plates::count_continental(assign@, is_cont@, g, spatial.n()),
            )
        },
    ensures
        r@.len() == spatial.n(),
        forall|c: int| 0 <= c < spatial.n() ==> #[trigger] r@[c] <= HEIGHT_ONE,
        exists|
            h0: Seq<u64>,
            h1: Seq<u64>,
            h2: Seq<u64>,
            h5: Seq<u64>,
            succ: Seq<Option<usize>>,
            flow: Seq<u64>,
            h6: Seq<u64>,
        |
            #[trigger] height_pipeline(
                spatial,
                params,
                assign@,
                plates_data@,
                is_ocean@,
                is_cont@,
                conv_h@,
                conv_ocean_h@,
                conv_land_h@,
                div_h@,
                trans_h@,
                coast_h@,
                unit,
                h0,
                h1,
                h2,
                h5,
                succ,
                flow,
                h6,
                r@,
            ),
{
    let n = spatial.len();
    let h0 = height::baseline(n, assign, plates_data);
    let h1 = height::smooth_pass(spatial, &h0);
    let h2 = height::smooth_pass(spatial, &h1);
    let bd = height::boundary_deltas(n, conv_h, conv_ocean_h, conv_land_h, div_h, trans_h, unit);
    let h3 = height::apply_deltas(&h2, &bd);
    let cd = height::coastal_deltas(coast_h, is_ocean, unit);
    proof {
        assert forall|c2: int| 0 <= c2 < n implies height::H_LO + 10_000_000 <= #[trigger] h3@[c2]
            <= height::H_HI - 10_000_000 by {
            assert(h3@[c2] == h2@[c2] + bd@[c2]);
        }
    }
    let h4 = height::apply_deltas(&h3, &cd);
    let nd = noise_deltas(spatial, conv_h, is_ocean, unit, params.noise_seed);
    proof {
        assert forall|c2: int| 0 <= c2 < n implies height::H_LO + 10_000_000 <= #[trigger] h4@[c2]
            <= height::H_HI - 10_000_000 by {
            assert(h4@[c2] == h3@[c2] + cd@[c2]);
            assert(h3@[c2] == h2@[c2] + bd@[c2]);
        }
    }
    let h5 = height::apply_deltas(&h4, &nd);
    proof {
        assert forall|c2: int| 0 <= c2 < n implies height::CARVE_TOTAL_CAP <= #[trigger] h5@[c2]
            && height::H_LO <= h5@[c2] <= height::H_HI - 10_000_000 by {
            assert(h5@[c2] == h4@[c2] + nd@[c2]);
            assert(h4@[c2] == h3@[c2] + cd@[c2]);
            assert(h3@[c2] == h2@[c2] + bd@[c2]);
        }
    }
    let succ = height::steepest_descent(spatial, &h5);
    let flow = height::flow_accumulate(spatial, &h5, &succ);
    let h6 = height::carve_rivers(spatial, &h5, &succ, &flow);
    proof {
        assert forall|c2: int| 0 <= c2 < n implies height::H_LO <= #[trigger] h6@[c2]
            <= height::H_HI by {
            assert(h5@[c2] - height::CARVE_TOTAL_CAP <= h6@[c2] <= h5@[c2]);
        }
    }
    let heights = height::normalize_heights(&h6);
    proof {
        lemma_pipeline_composes(
            spatial,
            params,
            assign@,
            plates_data@,
            is_ocean@,
            is_cont@,
            conv_h@,
            conv_ocean_h@,
            conv_land_h@,
            div_h@,
            trans_h@,
            coast_h@,
            unit,
            h0@,
            h1@,
            h2@,
            bd@,
            cd@,
            nd@,
            h3@,
            h4@,
            h5@,
            succ@,
            flow@,
            h6@,
            heights@,
        );
    }
    heights
}

/// Generate a world over the given spatial partition: grow plates and
/// continents, classify boundaries, compute distance fields, assemble and
/// carve the height field, and normalize it into the canonical range.
/// The result's heights are tied to the pipeline by `height_pipeline`.
///
/// Fails only on the unrecoverable structural condition that the
/// partition is disconnected, so the flood fill cannot cover it; no
/// partial map is ever returned. Zero seed counts and counts beyond the
/// cell count are configuration errors the caller excludes up front, as
/// the precondition states.
#[verifier::rlimit(100)]
#[verifier::spinoff_prover]
pub fn generate_world(
    params: &WorldGenerationParams,
    spatial: SpatialMap,
    rng: &mut rand_chacha::ChaCha20Rng,
) -> (r: Result<WorldMap, GrowError>)
    requires
        spatial.wf(),
        spatial.n() >= 1,
        params.ok_for(spatial.n()),
    ensures
        match r {
            Result::Ok(w) => w.wf() && w.spatial == spatial && exists|
                assign: Seq<usize>,
                plates_v: Seq<plates::Plate>,
                ocean: Seq<bool>,
                land: Seq<bool>,
                conv: Seq<u32>,
                conv_ocean: Seq<u32>,
                conv_land: Seq<u32>,
                div: Seq<u32>,
                trans: Seq<u32>,
                coast: Seq<u32>,
                unit: u64,
                h0: Seq<u64>,
                h1: Seq<u64>,
                h2: Seq<u64>,
                h5: Seq<u64>,
                succ: Seq<Option<usize>>,
                flow: Seq<u64>,
                h6: Seq<u64>,
            |
                #[trigger] height_pipeline(
                    &w.spatial,
                    params,
                    assign,
                    plates_v,
                    ocean,
                    land,
                    conv,
                    conv_ocean,
                    conv_land,
                    div,
                    trans,
                    coast,
                    unit,
                    h0,
                    h1,
                    h2,
                    h5,
                    succ,
                    flow,
                    h6,
                    w.heights@,
                ),
            Result::Err(e) => e == GrowError::Disconnected && !cells_connected(&spatial),
        },
        cells_connected(&spatial) ==> r is Ok,
{
    let n = spatial.len();
    let plate_seeds = pick_seeds(rng, n, params.plate_count);
    let assign = match region::grow_regions(&spatial, &plate_seeds) {
        Ok(a) => a,
        Err(e) => {
            proof {
                let c = choose|c: int|
                    0 <= c < spatial.n() && !seed_reachable(&spatial, plate_seeds@, c);
                lemma_unreachable_not_connected(&spatial, plate_seeds@, c);
            }
            return Err(e);
        },
    };
    let cont_seed_count = params.continent_count + params.ocean_count;
    let cont_seeds = pick_seeds(rng, n, cont_seed_count);
    let mut caps: Vec<usize> = Vec::new();
    let mut j: usize = 0;
    while j < cont_seed_count
        invariant
            j <= cont_seed_count,
            caps@.len() == j,
            params.continent_size >= 1,
            params.ocean_size >= 1,
            forall|j2: int| 0 <= j2 < j ==> #[trigger] caps@[j2] >= 1,
        decreases cont_seed_count - j,
    {
        if j < params.continent_count {
            caps.push(params.continent_size);
        } else {
            caps.push(params.ocean_size);
        }
        j = j + 1;
    }
    let cont_raw = continents::grow_capped(&spatial, &cont_seeds, &caps);
    let cont_trimmed = continents::delete_hull_continents(&spatial, &cont_raw, cont_seed_count);
    let (cont_islands, _next_id) = continents::promote_islands(&spatial, &cont_trimmed, cont_seed_count, rng);
    let cont = continents::unify_touching(&spatial, &cont_islands);
    let mut is_ocean: Vec<bool> = Vec::new();
    let mut is_cont: Vec<bool> = Vec::new();
    let mut c: usize = 0;
    while c < n
        invariant
            c <= n,
            n == spatial.n(),
            cont@.len() == n,
            is_ocean@.len() == c,
            is_cont@.len() == c,
            forall|c2: int| 0 <= c2 < c ==> #[trigger] is_ocean@[c2] == (cont@[c2] is None),
            forall|c2: int| 0 <= c2 < c ==> #[trigger] is_cont@[c2] == (cont@[c2] is Some),
        decreases n - c,
    {
        is_ocean.push(cont[c].is_none());
        is_cont.push(cont[c].is_some());
        c = c + 1;
    }
    let plates_data = plates::sample_plates(rng, params.plate_count, &assign, &is_cont);
    let bedges = plates::boundary_edges(&spatial, &assign, &plates_data);
    let shore = coastal_seeds(&spatial, &is_ocean);
    let conv_seeds = kind_seeds(&bedges, plates::BoundaryKind::Convergent, None, n);
    let div_seeds = kind_seeds(&bedges, plates::BoundaryKind::Divergent, None, n);
    let trans_seeds = kind_seeds(&bedges, plates::BoundaryKind::Transform, None, n);
    let conv_ocean_seeds = kind_seeds(&bedges, plates::BoundaryKind::Convergent, Some(true), n);
    let conv_land_seeds = kind_seeds(&bedges, plates::BoundaryKind::Convergent, Some(false), n);
    let coast_h = distance::bfs_hops(&spatial, &shore);
    let conv_h = distance::bfs_hops(&spatial, &conv_seeds);
    let div_h = distance::bfs_hops(&spatial, &div_seeds);
    let trans_h = distance::bfs_hops(&spatial, &trans_seeds);
    let conv_ocean_h = distance::bfs_hops(&spatial, &conv_ocean_seeds);
    let conv_land_h = distance::bfs_hops(&spatial, &conv_land_seeds);
    let unit0 = distance::mean_edge_length(&spatial);
    let unit = if unit0 > 1_000_000_000 {
        1_000_000_000
    } else {
        unit0
    };
    proof {
        assert forall|c: int| 0 <= c < spatial.n() implies #[trigger] is_cont@[c]
            == !is_ocean@[c] by {}
    }
    let heights = assemble_heights(
        &spatial,
        params,
        &assign,
        &plates_data,
        &is_ocean,
        &is_cont,
        &conv_h,
        &conv_ocean_h,
        &conv_land_h,
        &div_h,
        &trans_h,
        &coast_h,
        unit,
    );
    let w = WorldMap { spatial, heights };
    proof {
        let (h0, h1, h2, h5, succ, flow, h6) = choose|
            h0: Seq<u64>,
            h1: Seq<u64>,
            h2: Seq<u64>,
            h5: Seq<u64>,
            succ: Seq<Option<usize>>,
            flow: Seq<u64>,
            h6: Seq<u64>,
        |
            #[trigger] height_pipeline(
                &w.spatial,
                params,
                assign@,
                plates_data@,
                is_ocean@,
                is_cont@,
                conv_h@,
                conv_ocean_h@,
                conv_land_h@,
                div_h@,
                trans_h@,
                coast_h@,
                unit,
                h0,
                h1,
                h2,
                h5,
                succ,
                flow,
                h6,
                w.heights@,
            );
        assert(height_pipeline(
            &w.spatial,
            params,
            assign@,
            plates_data@,
            is_ocean@,
            is_cont@,
            conv_h@,
            conv_ocean_h@,
            conv_land_h@,
            div_h@,
            trans_h@,
            coast_h@,
            unit,
            h0,
            h1,
            h2,
            h5,
            succ,
            flow,
            h6,
            w.heights@,
        ));
    }
    Ok(w)
}

} // verus!
