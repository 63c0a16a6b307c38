//! The navigation graph: a directed weighted graph over cells, held in a
//! `petgraph` graph, pruned of edges steeper than the slope threshold.
//!
//! The slope test compares `|height delta| / horizontal distance` against
//! `SLOPE_NUM / SLOPE_DEN`; squaring both sides keeps it exact in integers.
//! The edge weight is the fixed-point 3D Euclidean distance.

use vstd::prelude::*;

use crate::geom::isqrt;
use crate::geom::lemma_sqrt_floor_bounds;
use crate::geom::sqrt_floor;
use crate::worldmap::WorldMap;

verus! {

/// Numerator of the maximum admissible slope.
pub const SLOPE_NUM: u64 = 3;

/// Denominator of the maximum admissible slope.
pub const SLOPE_DEN: u64 = 10;

#[verifier::external_type_specification]
#[verifier::external_body]
#[verifier::reject_recursive_types(N)]
#[verifier::reject_recursive_types(E)]
#[verifier::reject_recursive_types(Ty)]
#[verifier::reject_recursive_types(Ix)]
pub struct ExGraph<N, E, Ty, Ix>(petgraph::graph::Graph<N, E, Ty, Ix>);

#[verifier::external_type_specification]
#[verifier::external_body]
pub struct ExDirected(petgraph::Directed);

/// The node weights a petgraph graph holds, indexed by node index.
pub uninterp spec fn pg_nodes(g: petgraph::graph::Graph<u64, u64>) -> Seq<u64>;

/// The edges a petgraph graph holds, in insertion order:
/// `(source index, target index, weight)`.
pub uninterp spec fn pg_edges(g: petgraph::graph::Graph<u64, u64>) -> Seq<(usize, usize, u64)>;

/// Relies on petgraph's `Graph::new`: the new graph has no nodes and no edges.
#[verifier::external_body]
fn pg_new() -> (g: petgraph::graph::Graph<u64, u64>)
    ensures
        pg_nodes(g) == Seq::<u64>::empty(),
        pg_edges(g) == Seq::<(usize, usize, u64)>::empty(),
{
    petgraph::graph::Graph::new()
}

/// Relies on petgraph's `Graph::add_node`: it appends one node and returns
/// its index, the previous node count.
#[verifier::external_body]
fn pg_add_node(g: &mut petgraph::graph::Graph<u64, u64>, w: u64) -> (r: usize)
    requires
        pg_nodes(*old(g)).len() < 0xffff_ffff,
    ensures
        pg_nodes(*final(g)) == pg_nodes(*old(g)).push(w),
        pg_edges(*final(g)) == pg_edges(*old(g)),
        r == pg_nodes(*old(g)).len(),
{
    g.add_node(w).index()
}

/// Relies on petgraph's `Graph::add_edge`: it appends one directed edge from
/// `a` to `b`; both nodes must exist.
#[verifier::external_body]
fn pg_add_edge(g: &mut petgraph::graph::Graph<u64, u64>, a: usize, b: usize, w: u64)
    requires
        a < pg_nodes(*old(g)).len(),
        b < pg_nodes(*old(g)).len(),
        pg_edges(*old(g)).len() < 0xffff_ffff,
    ensures
        pg_nodes(*final(g)) == pg_nodes(*old(g)),
        pg_edges(*final(g)) == pg_edges(*old(g)).push((a, b, w)),
{
    let _ = g.add_edge(
        petgraph::graph::NodeIndex::new(a),
        petgraph::graph::NodeIndex::new(b),
        w,
    );
}

/// Relies on petgraph's `Graph::edges_connecting`: it yields exactly the
/// directed edges from `a` to `b`, so the first yielded weight belongs to
/// one of them, and `None` comes back only when there is none. The index
/// bounds keep the conversion to petgraph's 32-bit node indices exact.
#[verifier::external_body]
fn pg_edge_weight(g: &petgraph::graph::Graph<u64, u64>, a: usize, b: usize) -> (r: Option<u64>)
    requires
        a < 0xffff_ffff,
        b < 0xffff_ffff,
    ensures
        match r {
            Some(w) => exists|i: int|
                0 <= i < pg_edges(*g).len() && pg_edges(*g)[i] == (a, b, w),
            None => forall|i: int|
                0 <= i < pg_edges(*g).len() ==> !(#[trigger] pg_edges(*g)[i].0 == a
                    && pg_edges(*g)[i].1 == b),
        },
{
    g.edges_connecting(
        petgraph::graph::NodeIndex::new(a),
        petgraph::graph::NodeIndex::new(b),
    ).next().map(|e| *petgraph::visit::EdgeRef::weight(&e))
}

/// Squared horizontal distance between the sites of `a` and `b`.
pub open spec fn hdist_sq(map: &WorldMap, a: int, b: int) -> int {
    let dx = map.spatial.xs@[a] - map.spatial.xs@[b];
    let dz = map.spatial.zs@[a] - map.spatial.zs@[b];
    dx * dx + dz * dz
}

/// Absolute height difference between `a` and `b`.
pub open spec fn hdelta(map: &WorldMap, a: int, b: int) -> int {
    let ha = map.heights@[a] as int;
    let hb = map.heights@[b] as int;
    if ha >= hb {
        ha - hb
    } else {
        hb - ha
    }
}

/// The slope `|height delta| / horizontal distance` lies strictly below
/// `SLOPE_NUM / SLOPE_DEN`, stated exactly by squaring both sides.
pub open spec fn slope_ok(map: &WorldMap, a: int, b: int) -> bool {
    (SLOPE_DEN * SLOPE_DEN) * (hdelta(map, a, b) * hdelta(map, a, b))
        < (SLOPE_NUM * SLOPE_NUM) * hdist_sq(map, a, b)
}

/// The weight of the edge between `a` and `b`: the fixed-point 3D distance.
pub open spec fn edge_weight(map: &WorldMap, a: int, b: int) -> int {
    sqrt_floor(hdist_sq(map, a, b) + hdelta(map, a, b) * hdelta(map, a, b))
}

/// The admitted edges out of cell `a` whose neighbor-list index is below `j`.
pub open spec fn cell_edges(map: &WorldMap, a: int, j: int) -> Seq<(usize, usize, u64)>
    decreases j,
{
    if j <= 0 {
        Seq::empty()
    } else {
        let rest = cell_edges(map, a, j - 1);
        let b = map.spatial.neighbors@[a]@[j - 1] as int;
        if slope_ok(map, a, b) {
            rest.push((a as usize, b as usize, edge_weight(map, a, b) as u64))
        } else {
            rest
        }
    }
}

/// The admitted edges out of all cells below `a`, in build order.
pub open spec fn edges_upto(map: &WorldMap, a: int) -> Seq<(usize, usize, u64)>
    decreases a,
{
    if a <= 0 {
        Seq::empty()
    } else {
        edges_upto(map, a - 1) + cell_edges(map, a - 1, map.spatial.neighbors@[a - 1]@.len() as int)
    }
}

/// The full admitted edge sequence of the navigation graph of `map`.
pub open spec fn nav_edge_seq(map: &WorldMap) -> Seq<(usize, usize, u64)> {
    edges_upto(map, map.n())
}

/// The navigation graph over one world map.
pub struct NavGraph {
    /// The underlying petgraph graph; node `i` stands for cell `i`.
    pub graph: petgraph::graph::Graph<u64, u64>,
    /// The number of cells it was built over.
    pub node_count: usize,
}

impl NavGraph {
    /// The graph is exactly the navigation graph of `map`.
    pub open spec fn matches(&self, map: &WorldMap) -> bool {
        &&& self.node_count == map.n()
        &&& pg_nodes(self.graph) == Seq::new(map.n() as nat, |i: int| i as u64)
        &&& pg_edges(self.graph) == nav_edge_seq(map)
    }

    /// Weight of one directed edge from `a` to `b`, if the graph has one.
    pub fn weight_between(&self, a: usize, b: usize) -> (r: Option<u64>)
        requires
            a < 0xffff_ffff,
            b < 0xffff_ffff,
        ensures
            match r {
                Some(w) => exists|i: int|
                    0 <= i < pg_edges(self.graph).len() && pg_edges(self.graph)[i] == (a, b, w),
                None => forall|i: int|
                    0 <= i < pg_edges(self.graph).len() ==> !(#[trigger] pg_edges(
                        self.graph,
                    )[i].0 == a && pg_edges(self.graph)[i].1 == b),
            },
    {
        pg_edge_weight(&self.graph, a, b)
    }
}

/// Build the navigation graph of `map`: one node per cell, and a directed
/// edge for every ordered adjacent pair whose slope lies below the
/// threshold, weighted by the 3D distance. Adjacency is symmetric and the
/// slope test is symmetric, so the graph is undirected in effect.
pub fn get_graph(map: &WorldMap) -> (r: NavGraph)
    requires
        map.wf(),
    ensures
        r.matches(map),
{
    let n = map.spatial.len();
    let mut g = pg_new();
    let mut i: usize = 0;
    while i < n
        invariant
            map.wf(),
            n == map.n(),
            i <= n,
            pg_nodes(g) == Seq::new(i as nat, |k: int| k as u64),
            pg_edges(g) == Seq::<(usize, usize, u64)>::empty(),
        decreases n - i,
    {
        let ghost prev = pg_nodes(g);
        let _ = pg_add_node(&mut g, i as u64);
        proof {
            assert(pg_nodes(g) =~= Seq::new((i + 1) as nat, |k: int| k as u64));
        }
        i = i + 1;
    }
    let mut a: usize = 0;
    while a < n
        invariant
            map.wf(),
            n == map.n(),
            a <= n,
            pg_nodes(g) == Seq::new(n as nat, |k: int| k as u64),
            pg_edges(g) == edges_upto(map, a as int),
        decreases n - a,
    {
        let nbs_len = map.spatial.neighbors[a].len();
        let mut j: usize = 0;
        while j < nbs_len
            invariant
                map.wf(),
                n == map.n(),
                a < n,
                j <= nbs_len,
                nbs_len == map.spatial.neighbors@[a as int]@.len(),
                pg_nodes(g) == Seq::new(n as nat, |k: int| k as u64),
                pg_edges(g) == edges_upto(map, a as int) + cell_edges(map, a as int, j as int),
            decreases nbs_len - j,
        {
            let b = map.spatial.neighbors[a][j];
            let xa = map.spatial.xs[a];
            let za = map.spatial.zs[a];
            let xb = map.spatial.xs[b];
            let zb = map.spatial.zs[b];
            let dx = xa - xb;
            let dz = za - zb;
            let dxu: u64 = (if dx >= 0 { dx } else { -dx }) as u64;
            let dzu: u64 = (if dz >= 0 { dz } else { -dz }) as u64;
            proof {
                assert(dxu * dxu == (xa - xb) * (xa - xb) && dxu * dxu <= 40_000_000_000_000_000)
                    by (nonlinear_arith)
                    requires
                        dxu == (if xa - xb >= 0 { xa - xb } else { -(xa - xb) }),
                        -200_000_000 <= xa - xb <= 200_000_000,
                ;
                assert(dzu * dzu == (za - zb) * (za - zb) && dzu * dzu <= 40_000_000_000_000_000)
                    by (nonlinear_arith)
                    requires
                        dzu == (if za - zb >= 0 { za - zb } else { -(za - zb) }),
                        -200_000_000 <= za - zb <= 200_000_000,
                ;
            }
            let d2: u64 = dxu * dxu + dzu * dzu;
            let ha = map.heights[a];
            let hb = map.heights[b];
            let dh: u64 = if ha >= hb {
                ha - hb
            } else {
                hb - ha
            };
            proof {
                assert(dh * dh <= 1_000_000_000_000) by (nonlinear_arith)
                    requires
                        dh <= 1_000_000,
                ;
            }
            let hd2: u64 = dh * dh;
            let ghost prev = pg_edges(g);
            if 100 * hd2 < 9 * d2 {
                proof {
                    assert(SLOPE_DEN * SLOPE_DEN == 100 && SLOPE_NUM * SLOPE_NUM == 9);
                    assert(slope_ok(map, a as int, b as int));
                }
                let w = isqrt(d2 + hd2);
                proof {
                    assert(w == edge_weight(map, a as int, b as int));
                    lemma_edges_upto_len(map, a as int);
                    lemma_cell_edges_len(map, a as int, j as int);
                }
                pg_add_edge(&mut g, a, b, w);
                proof {
                    assert(pg_edges(g) =~= edges_upto(map, a as int) + cell_edges(
                        map,
                        a as int,
                        (j + 1) as int,
                    ));
                }
            } else {
                proof {
                    assert(SLOPE_DEN * SLOPE_DEN == 100 && SLOPE_NUM * SLOPE_NUM == 9);
                    assert(!slope_ok(map, a as int, b as int));
                    assert(pg_edges(g) =~= edges_upto(map, a as int) + cell_edges(
                        map,
                        a as int,
                        (j + 1) as int,
                    ));
                }
            }
            j = j + 1;
        }
        proof {
            assert(pg_edges(g) =~= edges_upto(map, (a + 1) as int));
        }
        a = a + 1;
    }
    NavGraph { graph: g, node_count: n }
}

/// Under well-formed bounds the edge weight fits comfortably in `u64`.
pub proof fn lemma_edge_weight_bound(map: &WorldMap, a: int, b: int)
    requires
        map.wf(),
        0 <= a < map.n(),
        0 <= b < map.n(),
    ensures
        0 <= edge_weight(map, a, b) < 300_000_000,
{
    let dx = map.spatial.xs@[a] - map.spatial.xs@[b];
    let dz = map.spatial.zs@[a] - map.spatial.zs@[b];
    let hd = hdelta(map, a, b);
    assert(dx * dx <= 40_000_000_000_000_000 && dz * dz <= 40_000_000_000_000_000 && dx * dx >= 0
        && dz * dz >= 0 && hd * hd <= 1_000_000_000_000 && hd * hd >= 0) by (nonlinear_arith)
        requires
            -200_000_000 <= dx <= 200_000_000,
            -200_000_000 <= dz <= 200_000_000,
            0 <= hd <= 1_000_000,
    ;
    let s = hdist_sq(map, a, b) + hd * hd;
    lemma_sqrt_floor_bounds(s);
    let r = sqrt_floor(s);
    assert(r < 300_000_000) by (nonlinear_arith)
        requires
            r >= 0,
            r * r <= s,
            s <= 81_000_000_000_000_000,
    ;
}

/// `cell_edges` yields at most one edge per neighbor considered.
proof fn lemma_cell_edges_len(map: &WorldMap, a: int, j: int)
    requires
        j >= 0,
    ensures
        cell_edges(map, a, j).len() <= j,
    decreases j,
{
    if j > 0 {
        lemma_cell_edges_len(map, a, j - 1);
    }
}

/// `edges_upto` yields at most `NEIGHBORS_MAX` edges per cell.
proof fn lemma_edges_upto_len(map: &WorldMap, a: int)
    requires
        map.wf(),
        0 <= a <= map.n(),
    ensures
        edges_upto(map, a).len() <= a * (crate::spatial::NEIGHBORS_MAX as int),
    decreases a,
{
    if a > 0 {
        lemma_edges_upto_len(map, a - 1);
        lemma_cell_edges_len(map, a - 1, map.spatial.neighbors@[a - 1]@.len() as int);
        assert((a - 1) * (crate::spatial::NEIGHBORS_MAX as int) + (
        crate::spatial::NEIGHBORS_MAX as int) == a * (crate::spatial::NEIGHBORS_MAX as int))
            by (nonlinear_arith);
    }
}

/// Every entry of `cell_edges(map, a, j)` is an admitted edge out of `a`:
/// its target is a neighbor of `a`, its slope lies below the threshold, and
/// its weight is the 3D distance.
proof fn lemma_cell_edges_ok(map: &WorldMap, a: int, j: int)
    requires
        map.wf(),
        0 <= a < map.n(),
        j <= map.spatial.neighbors@[a]@.len(),
    ensures
        forall|k: int| 0 <= k < cell_edges(map, a, j).len() ==> {
            let e = #[trigger] cell_edges(map, a, j)[k];
            &&& e.0 == a
            &&& map.spatial.adj(a, e.1 as int)
            &&& slope_ok(map, a, e.1 as int)
            &&& e.2 == edge_weight(map, a, e.1 as int)
        },
    decreases j,
{
    if j > 0 {
        lemma_cell_edges_ok(map, a, j - 1);
        let b = map.spatial.neighbors@[a]@[j - 1] as int;
        assert(map.spatial.adj(a, b));
        let rest = cell_edges(map, a, j - 1);
        assert forall|k: int| 0 <= k < cell_edges(map, a, j).len() implies {
            let e = #[trigger] cell_edges(map, a, j)[k];
            &&& e.0 == a
            &&& map.spatial.adj(a, e.1 as int)
            &&& slope_ok(map, a, e.1 as int)
            &&& e.2 == edge_weight(map, a, e.1 as int)
        } by {
            if k < rest.len() {
                assert(cell_edges(map, a, j)[k] == rest[k]);
            } else {
                assert(slope_ok(map, a, b));
                lemma_edge_weight_bound(map, a, b);
                assert(cell_edges(map, a, j)[k] == (
                    a as usize,
                    map.spatial.neighbors@[a]@[j - 1],
                    edge_weight(map, a, b) as u64,
                ));
            }
        }
    }
}

/// Every entry of `edges_upto(map, a)` is an admitted edge of the map.
proof fn lemma_edges_upto_ok(map: &WorldMap, a: int)
    requires
        map.wf(),
        a <= map.n(),
    ensures
        forall|k: int| 0 <= k < edges_upto(map, a).len() ==> {
            let e = #[trigger] edges_upto(map, a)[k];
            &&& 0 <= e.0 < a
            &&& map.spatial.adj(e.0 as int, e.1 as int)
            &&& slope_ok(map, e.0 as int, e.1 as int)
            &&& e.2 == edge_weight(map, e.0 as int, e.1 as int)
        },
    decreases a,
{
    if a > 0 {
        lemma_edges_upto_ok(map, a - 1);
        let full = map.spatial.neighbors@[a - 1]@.len() as int;
        lemma_cell_edges_ok(map, a - 1, full);
        let prev = edges_upto(map, a - 1);
        let tail = cell_edges(map, a - 1, full);
        assert forall|k: int| 0 <= k < edges_upto(map, a).len() implies {
            let e = #[trigger] edges_upto(map, a)[k];
            &&& 0 <= e.0 < a
            &&& map.spatial.adj(e.0 as int, e.1 as int)
            &&& slope_ok(map, e.0 as int, e.1 as int)
            &&& e.2 == edge_weight(map, e.0 as int, e.1 as int)
        } by {
            if k < prev.len() {
                assert(edges_upto(map, a)[k] == prev[k]);
            } else {
                assert(edges_upto(map, a)[k] == tail[k - prev.len()]);
            }
        }
    }
}

/// The navigation graph admits no edge whose slope reaches the threshold:
/// every edge joins adjacent cells, satisfies the slope bound, and carries
/// the 3D distance as weight.
pub proof fn lemma_nav_graph_slope(map: &WorldMap)
    requires
        map.wf(),
    ensures
        forall|k: int| 0 <= k < nav_edge_seq(map).len() ==> {
            let e = #[trigger] nav_edge_seq(map)[k];
            &&& 0 <= e.0 < map.n()
            &&& map.spatial.adj(e.0 as int, e.1 as int)
            &&& slope_ok(map, e.0 as int, e.1 as int)
            &&& e.2 == edge_weight(map, e.0 as int, e.1 as int)
        },
{
    lemma_edges_upto_ok(map, map.n());
}

/// `cell_edges(map, a, j)` is a prefix of `cell_edges(map, a, j2)` for `j <= j2`.
proof fn lemma_cell_edges_prefix(map: &WorldMap, a: int, j: int, j2: int)
    requires
        0 <= j <= j2,
    ensures
        cell_edges(map, a, j2).len() >= cell_edges(map, a, j).len(),
        forall|k: int| 0 <= k < cell_edges(map, a, j).len() ==> #[trigger] cell_edges(
            map,
            a,
            j2,
        )[k] == cell_edges(map, a, j)[k],
    decreases j2 - j,
{
    if j < j2 {
        lemma_cell_edges_prefix(map, a, j, j2 - 1);
        let prev = cell_edges(map, a, j2 - 1);
        assert forall|k: int| 0 <= k < cell_edges(map, a, j).len() implies #[trigger] cell_edges(
            map,
            a,
            j2,
        )[k] == cell_edges(map, a, j)[k] by {
            assert(cell_edges(map, a, j2)[k] == prev[k]);
        }
    }
}

/// If the slope from `a` to its `j`-th neighbor is admissible, the
/// navigation graph holds the corresponding edge.
pub proof fn lemma_nav_edge_present(map: &WorldMap, a: int, j: int)
    requires
        map.wf(),
        0 <= a < map.n(),
        0 <= j < map.spatial.neighbors@[a]@.len(),
        slope_ok(map, a, map.spatial.neighbors@[a]@[j] as int),
    ensures
        exists|k: int|
            0 <= k < nav_edge_seq(map).len() && #[trigger] nav_edge_seq(map)[k] == (
                a as usize,
                map.spatial.neighbors@[a]@[j],
                edge_weight(map, a, map.spatial.neighbors@[a]@[j] as int) as u64,
            ),
{
    let b = map.spatial.neighbors@[a]@[j];
    let e = (a as usize, b, edge_weight(map, a, b as int) as u64);
    let full = map.spatial.neighbors@[a]@.len() as int;
    assert(cell_edges(map, a, j + 1).last() == e);
    let kj = cell_edges(map, a, j + 1).len() - 1;
    lemma_cell_edges_prefix(map, a, j + 1, full);
    assert(cell_edges(map, a, full)[kj] == e);
    let k2 = edges_upto(map, a).len() + kj;
    assert(edges_upto(map, a + 1)[k2] == cell_edges(map, a, full)[kj]);
    lemma_edges_upto_prefix(map, a + 1, map.n());
    assert(nav_edge_seq(map)[k2] == e);
}

/// `edges_upto(map, a2)` extends `edges_upto(map, a)` for `a <= a2`.
proof fn lemma_edges_upto_prefix(map: &WorldMap, a: int, a2: int)
    requires
        0 <= a <= a2,
    ensures
        edges_upto(map, a2).len() >= edges_upto(map, a).len(),
        forall|k: int| 0 <= k < edges_upto(map, a).len() ==> #[trigger] edges_upto(map, a2)[k]
            == edges_upto(map, a)[k],
    decreases a2 - a,
{
    if a < a2 {
        lemma_edges_upto_prefix(map, a, a2 - 1);
        let prev = edges_upto(map, a2 - 1);
        assert forall|k: int| 0 <= k < edges_upto(map, a).len() implies #[trigger] edges_upto(
            map,
            a2,
        )[k] == edges_upto(map, a)[k] by {
            assert(edges_upto(map, a2)[k] == prev[k]);
        }
    }
}

/// Entry `k` of `cell_edges(map, a, full)` appears in `edges_upto(map, a + 1)`.
proof fn lemma_edges_upto_contains_cell(map: &WorldMap, bound: int, a: int, k: int)
    requires
        bound == a + 1,
        0 <= a,
        0 <= k < cell_edges(map, a, map.spatial.neighbors@[a]@.len() as int).len(),
    ensures
        exists|k2: int|
            0 <= k2 < edges_upto(map, bound).len() && #[trigger] edges_upto(map, bound)[k2]
                == cell_edges(map, a, map.spatial.neighbors@[a]@.len() as int)[k],
{
    let full = map.spatial.neighbors@[a]@.len() as int;
    let k2 = edges_upto(map, a).len() + k;
    assert(edges_upto(map, bound)[k2] == cell_edges(map, a, full)[k]);
}

/// Over a flat height map every adjacent pair of cells is joined by a
/// navigation edge: with no height delta the slope test reduces to the
/// adjacent sites being distinct, which well-formedness guarantees.
pub proof fn lemma_flat_map_connected(map: &WorldMap, a: int, j: int)
    requires
        map.wf(),
        0 <= a < map.n(),
        0 <= j < map.spatial.neighbors@[a]@.len(),
        forall|i: int, i2: int|
            0 <= i < map.n() && 0 <= i2 < map.n() ==> #[trigger] map.heights@[i]
                == #[trigger] map.heights@[i2],
    ensures
        exists|k: int|
            0 <= k < nav_edge_seq(map).len() && #[trigger] nav_edge_seq(map)[k] == (
                a as usize,
                map.spatial.neighbors@[a]@[j],
                edge_weight(map, a, map.spatial.neighbors@[a]@[j] as int) as u64,
            ),
{
    let b = map.spatial.neighbors@[a]@[j] as int;
    assert(0 <= b < map.n() && !(map.spatial.xs@[b] == map.spatial.xs@[a] && map.spatial.zs@[b]
        == map.spatial.zs@[a]));
    assert(hdelta(map, a, b) == 0);
    let dx = map.spatial.xs@[a] - map.spatial.xs@[b];
    let dz = map.spatial.zs@[a] - map.spatial.zs@[b];
    assert(dx != 0 || dz != 0);
    assert(dx * dx + dz * dz > 0) by (nonlinear_arith)
        requires
            dx != 0 || dz != 0,
    ;
    let h2 = hdist_sq(map, a, b);
    assert((SLOPE_NUM * SLOPE_NUM) * h2 > 0) by (nonlinear_arith)
        requires
            h2 > 0,
            SLOPE_NUM >= 1,
    ;
    let hd = hdelta(map, a, b);
    assert((SLOPE_DEN * SLOPE_DEN) * (hd * hd) == 0) by (nonlinear_arith)
        requires
            hd == 0,
    ;
    assert(slope_ok(map, a, b));
    lemma_nav_edge_present(map, a, j);
}

/// The navigation graph is undirected in effect: for every directed edge
/// it holds the reverse edge with the same weight, because adjacency is
/// symmetric and both the slope test and the 3D distance depend only on
/// the unordered cell pair.
pub proof fn lemma_nav_graph_symmetric(map: &WorldMap, k: int)
    requires
        map.wf(),
        0 <= k < nav_edge_seq(map).len(),
    ensures
        exists|k2: int|
            0 <= k2 < nav_edge_seq(map).len() && (#[trigger] nav_edge_seq(map)[k2]).0
                == nav_edge_seq(map)[k].1 && nav_edge_seq(map)[k2].1 == nav_edge_seq(map)[k].0
                && nav_edge_seq(map)[k2].2 == nav_edge_seq(map)[k].2,
{
    lemma_nav_graph_slope(map);
    let e = nav_edge_seq(map)[k];
    let a = e.0 as int;
    let b = e.1 as int;
    assert(map.spatial.adj(a, b));
    assert(map.spatial.adj(b, a));
    let j = choose|j: int|
        0 <= j < map.spatial.neighbors@[b]@.len() && map.spatial.neighbors@[b]@[j] == a;
    assert(hdelta(map, b, a) == hdelta(map, a, b));
    assert(hdist_sq(map, b, a) == hdist_sq(map, a, b)) by (nonlinear_arith)
        requires
            hdist_sq(map, b, a) == (map.spatial.xs@[b] - map.spatial.xs@[a]) * (
            map.spatial.xs@[b] - map.spatial.xs@[a]) + (map.spatial.zs@[b] - map.spatial.zs@[a])
                * (map.spatial.zs@[b] - map.spatial.zs@[a]),
            hdist_sq(map, a, b) == (map.spatial.xs@[a] - map.spatial.xs@[b]) * (
            map.spatial.xs@[a] - map.spatial.xs@[b]) + (map.spatial.zs@[a] - map.spatial.zs@[b])
                * (map.spatial.zs@[a] - map.spatial.zs@[b]),
    ;
    assert(slope_ok(map, b, a));
    assert(edge_weight(map, b, a) == edge_weight(map, a, b));
    assert(map.spatial.neighbors@[b]@[j] == e.0);
    lemma_nav_edge_present(map, b, j);
    let k2 = choose|k2: int|
        0 <= k2 < nav_edge_seq(map).len() && #[trigger] nav_edge_seq(map)[k2] == (
            b as usize,
            map.spatial.neighbors@[b]@[j],
            edge_weight(map, b, map.spatial.neighbors@[b]@[j] as int) as u64,
        );
    assert(nav_edge_seq(map)[k2].0 == e.1 && nav_edge_seq(map)[k2].1 == e.0 && nav_edge_seq(
        map,
    )[k2].2 == e.2);
}

/// Building the navigation graph is deterministic: two graphs built over
/// the same world map hold identical node and edge sequences.
pub proof fn lemma_build_graph_idempotent(g1: &NavGraph, g2: &NavGraph, map: &WorldMap)
    requires
        g1.matches(map),
        g2.matches(map),
    ensures
        pg_nodes(g1.graph) == pg_nodes(g2.graph),
        pg_edges(g1.graph) == pg_edges(g2.graph),
        g1.node_count == g2.node_count,
{
}

} // verus!
