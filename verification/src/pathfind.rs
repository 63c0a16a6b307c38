//! Heuristic best-first pathfinding over the navigation graph.
//!
//! The search keeps an open list ordered by `g + h` and an arena of visited
//! nodes whose parent links are arena indices; the returned path lists the
//! goal first, as the callers expect.

use vstd::prelude::*;

use crate::geom::isqrt;
use crate::navgraph::NavGraph;
use crate::navgraph::pg_edges;
use crate::spatial::CellId;
use crate::worldmap::WorldMap;

verus! {

/// The edge sequence holds a directed edge from `a` to `b`.
pub open spec fn has_edge(es: Seq<(usize, usize, u64)>, a: int, b: int) -> bool {
    exists|i: int| 0 <= i < es.len() && (#[trigger] es[i]).0 == a && es[i].1 == b
}

/// `b` can be reached from `a` in at most `k` edge steps.
pub open spec fn reaches(es: Seq<(usize, usize, u64)>, a: int, b: int, k: nat) -> bool
    decreases k,
{
    if a == b {
        true
    } else if k == 0 {
        false
    } else {
        exists|m: int| #[trigger] has_edge(es, a, m) && reaches(es, m, b, (k - 1) as nat)
    }
}

/// `b` can be reached from `a` along directed edges.
pub open spec fn reachable(es: Seq<(usize, usize, u64)>, a: int, b: int) -> bool {
    exists|k: nat| reaches(es, a, b, k)
}

/// `p` is a goal-first path: it starts at `goal`, ends at `start`, and each
/// consecutive pair is joined by an edge directed toward the goal.
pub open spec fn valid_path(es: Seq<(usize, usize, u64)>, p: Seq<usize>, start: int, goal: int) -> bool {
    &&& p.len() >= 1
    &&& p[0] == goal
    &&& p[p.len() - 1] == start
    &&& forall|i: int| 0 <= i < p.len() - 1 ==> has_edge(es, #[trigger] p[i + 1] as int, p[i] as int)
}

/// The cell indices of a sequence of cell identities.
pub open spec fn cells_of(p: Seq<CellId>) -> Seq<usize> {
    p.map_values(|c: CellId| c.0)
}

/// One entry of the open list.
#[derive(Clone, Copy)]
struct OpenNode {
    cell: usize,
    g: u64,
    h: u64,
    parent: Option<usize>,
}

/// Saturating addition on `u64`.
fn sat_add(a: u64, b: u64) -> (r: u64)
    ensures
        r == if a + b <= u64::MAX {
            a + b
        } else {
            u64::MAX as int
        },
{
    if a > u64::MAX - b {
        u64::MAX
    } else {
        a + b
    }
}

/// Fixed-point horizontal distance between two cell sites: the heuristic
/// of the search, the floor square root of the squared straight-line
/// distance on the horizontal projection.
fn horiz_dist(map: &WorldMap, a: CellId, b: CellId) -> (r: u64)
    requires
        map.wf(),
        a.0 < map.n(),
        b.0 < map.n(),
    ensures
        r == crate::geom::sqrt_floor(crate::navgraph::hdist_sq(map, a.0 as int, b.0 as int)),
{
    let dx = map.spatial.xs[a.0] - map.spatial.xs[b.0];
    let dz = map.spatial.zs[a.0] - map.spatial.zs[b.0];
    let dxu: u64 = (if dx >= 0 { dx } else { -dx }) as u64;
    let dzu: u64 = (if dz >= 0 { dz } else { -dz }) as u64;
    proof {
        assert(dxu * dxu == dx * dx && dzu * dzu == dz * dz && dxu * dxu
            <= 40_000_000_000_000_000 && dzu * dzu <= 40_000_000_000_000_000)
            by (nonlinear_arith)
            requires
                dxu == (if dx >= 0 { dx as int } else { -(dx as int) }),
                dzu == (if dz >= 0 { dz as int } else { -(dz as int) }),
                -200_000_000 <= dx <= 200_000_000,
                -200_000_000 <= dz <= 200_000_000,
        ;
    }
    isqrt(dxu * dxu + dzu * dzu)
}

/// The index of an open entry with minimal estimated total cost; ties go
/// to the earliest entry.
fn min_f_index(open: &Vec<OpenNode>) -> (r: usize)
    requires
        open@.len() >= 1,
    ensures
        r < open@.len(),
{
    let mut best: usize = 0;
    let mut idx: usize = 1;
    while idx < open.len()
        invariant
            open@.len() >= 1,
            best < open@.len(),
            idx <= open@.len(),
        decreases open@.len() - idx,
    {
        let fi = sat_add(open[idx].g, open[idx].h);
        let fb = sat_add(open[best].g, open[best].h);
        if fi < fb {
            best = idx;
        }
        idx = idx + 1;
    }
    best
}

/// Number of `true` entries among the first `k` of `s`.
spec fn count_true(s: Seq<bool>, k: int) -> int
    decreases k,
{
    if k <= 0 {
        0
    } else {
        count_true(s, k - 1) + if s[k - 1] {
            1int
        } else {
            0int
        }
    }
}

proof fn lemma_count_true_le(s: Seq<bool>, k: int)
    requires
        0 <= k <= s.len(),
    ensures
        0 <= count_true(s, k) <= k,
    decreases k,
{
    if k > 0 {
        lemma_count_true_le(s, k - 1);
    }
}

proof fn lemma_count_true_zero(s: Seq<bool>, k: int)
    requires
        0 <= k <= s.len(),
        forall|j: int| 0 <= j < k ==> !(#[trigger] s[j]),
    ensures
        count_true(s, k) == 0,
    decreases k,
{
    if k > 0 {
        lemma_count_true_zero(s, k - 1);
    }
}

proof fn lemma_count_true_update(s: Seq<bool>, c: int, k: int)
    requires
        0 <= c < s.len(),
        0 <= k <= s.len(),
        !s[c],
    ensures
        count_true(s.update(c, true), k) == count_true(s, k) + if c < k {
            1int
        } else {
            0int
        },
    decreases k,
{
    if k > 0 {
        lemma_count_true_update(s, c, k - 1);
    }
}

/// The cells reachable from a closed set that the search has exhausted stay
/// inside it: if `closed` covers `start`, is closed under outgoing edges,
/// and misses `goal`, then no path of any length joins `start` to `goal`.
proof fn lemma_closed_set_unreachable(
    es: Seq<(usize, usize, u64)>,
    closed: Seq<bool>,
    n: int,
    a: int,
    goal: int,
    k: nat,
)
    requires
        closed.len() == n,
        0 <= a < n,
        0 <= goal < n,
        closed[a],
        !closed[goal],
        forall|i: int| 0 <= i < es.len() ==> 0 <= (#[trigger] es[i]).0 < n && 0 <= es[i].1 < n,
        forall|i: int|
            0 <= i < es.len() && closed[(#[trigger] es[i]).0 as int] ==> closed[es[i].1 as int],
    ensures
        !reaches(es, a, goal, k),
    decreases k,
{
    if a != goal && k > 0 {
        assert forall|m: int| #[trigger] has_edge(es, a, m) implies !reaches(
            es,
            m,
            goal,
            (k - 1) as nat,
        ) by {
            let i = choose|i: int|
                0 <= i < es.len() && (#[trigger] es[i]).0 == a && es[i].1 == m;
            assert(closed[m]);
            lemma_closed_set_unreachable(es, closed, n, m, goal, (k - 1) as nat);
        }
    }
}

/// The goal-first cell sequence hanging off arena entry `i`.
spec fn chain(ar: Seq<(usize, Option<usize>)>, i: int) -> Seq<usize>
    decreases i,
{
    if 0 <= i < ar.len() {
        match ar[i].1 {
            Some(p) => if 0 <= p < i {
                seq![ar[i].0] + chain(ar, p as int)
            } else {
                seq![ar[i].0]
            },
            None => seq![ar[i].0],
        }
    } else {
        Seq::empty()
    }
}

/// Every arena entry is well linked: parents come earlier, are joined by an
/// edge, and the chain roots at `start`.
spec fn arena_ok(
    ar: Seq<(usize, Option<usize>)>,
    es: Seq<(usize, usize, u64)>,
    start: int,
    n: int,
) -> bool {
    forall|i: int| 0 <= i < ar.len() ==> {
        let e = #[trigger] ar[i];
        &&& e.0 < n
        &&& match e.1 {
            None => e.0 == start,
            Some(p) => 0 <= p < i && has_edge(es, ar[p as int].0 as int, e.0 as int),
        }
    }
}

/// A well-linked arena chain is a valid goal-first path from its head cell.
proof fn lemma_chain_valid(
    ar: Seq<(usize, Option<usize>)>,
    es: Seq<(usize, usize, u64)>,
    start: int,
    n: int,
    i: int,
)
    requires
        arena_ok(ar, es, start, n),
        0 <= i < ar.len(),
    ensures
        valid_path(es, chain(ar, i), start, ar[i].0 as int),
    decreases i,
{
    match ar[i].1 {
        None => {},
        Some(p) => {
            lemma_chain_valid(ar, es, start, n, p as int);
            let c = chain(ar, i);
            let rest = chain(ar, p as int);
            assert(c == seq![ar[i].0] + rest);
            assert(rest.len() >= 1 && rest[0] == ar[p as int].0);
            assert(c[0] == ar[i].0);
            assert(c[c.len() - 1] == rest[rest.len() - 1]);
            assert forall|j: int| 0 <= j < c.len() - 1 implies has_edge(
                es,
                #[trigger] c[j + 1] as int,
                c[j] as int,
            ) by {
                if j == 0 {
                    assert(c[1] == rest[0]);
                    assert(has_edge(es, ar[p as int].0 as int, ar[i].0 as int));
                } else {
                    let j0 = j - 1;
                    assert(c[j] == rest[j - 1] && c[j + 1] == rest[j]);
                    assert(rest[j0 + 1] == rest[j]);
                    assert(has_edge(es, rest[j0 + 1] as int, rest[j0] as int));
                }
            }
        },
    }
}

/// Every cell on an arena chain is the cell of an arena entry at or below
/// the chain's head.
proof fn lemma_chain_members(ar: Seq<(usize, Option<usize>)>, i: int)
    requires
        0 <= i < ar.len(),
    ensures
        forall|q: int|
            0 <= q < chain(ar, i).len() ==> exists|j: int|
                0 <= j <= i && (#[trigger] ar[j]).0 == #[trigger] chain(ar, i)[q],
    decreases i,
{
    match ar[i].1 {
        Some(p) => {
            if 0 <= p < i {
                lemma_chain_members(ar, p as int);
                let rest = chain(ar, p as int);
                assert forall|q: int|
                    0 <= q < chain(ar, i).len() implies exists|j: int|
                    0 <= j <= i && (#[trigger] ar[j]).0 == #[trigger] chain(ar, i)[q] by {
                    if q == 0 {
                        assert(ar[i].0 == chain(ar, i)[q]);
                    } else {
                        assert(chain(ar, i)[q] == rest[q - 1]);
                        let j = choose|j: int|
                            0 <= j <= p && (#[trigger] ar[j]).0 == rest[q - 1];
                        assert(ar[j].0 == chain(ar, i)[q]);
                    }
                }
            } else {
                assert(chain(ar, i) == seq![ar[i].0]);
            }
        },
        None => {
            assert(chain(ar, i) == seq![ar[i].0]);
        },
    }
}

/// Over an arena whose entries hold pairwise-distinct cells, every chain is
/// simple: it repeats no cell.
proof fn lemma_chain_distinct(ar: Seq<(usize, Option<usize>)>, i: int)
    requires
        0 <= i < ar.len(),
        forall|i1: int, i2: int|
            0 <= i1 < i2 < ar.len() ==> (#[trigger] ar[i1]).0 != (#[trigger] ar[i2]).0,
    ensures
        forall|q1: int, q2: int|
            0 <= q1 < q2 < chain(ar, i).len() ==> chain(ar, i)[q1] != chain(ar, i)[q2],
    decreases i,
{
    match ar[i].1 {
        Some(p) => {
            if 0 <= p < i {
                lemma_chain_distinct(ar, p as int);
                lemma_chain_members(ar, p as int);
                let rest = chain(ar, p as int);
                assert forall|q1: int, q2: int|
                    0 <= q1 < q2 < chain(ar, i).len() implies chain(ar, i)[q1] != chain(
                    ar,
                    i,
                )[q2] by {
                    if q1 == 0 {
                        assert(chain(ar, i)[q2] == rest[q2 - 1]);
                        let j = choose|j: int|
                            0 <= j <= p && (#[trigger] ar[j]).0 == rest[q2 - 1];
                        assert(ar[j].0 != ar[i].0);
                    } else {
                        assert(chain(ar, i)[q1] == rest[q1 - 1]);
                        assert(chain(ar, i)[q2] == rest[q2 - 1]);
                    }
                }
            }
        },
        None => {},
    }
}

/// A valid goal-first path witnesses reachability from start to goal.
proof fn lemma_path_reaches(
    es: Seq<(usize, usize, u64)>,
    p: Seq<usize>,
    start: int,
    goal: int,
)
    requires
        valid_path(es, p, start, goal),
    ensures
        reaches(es, start, goal, (p.len() - 1) as nat),
    decreases p.len(),
{
    if p.len() == 1 {
    } else {
        let q = p.subrange(0, p.len() - 1);
        let mid = p[p.len() - 2] as int;
        assert(q.len() == p.len() - 1);
        assert(q[0] == goal && q[q.len() - 1] == mid);
        assert forall|i: int| 0 <= i < q.len() - 1 implies has_edge(
            es,
            #[trigger] q[i + 1] as int,
            q[i] as int,
        ) by {
            assert(q[i + 1] == p[i + 1] && q[i] == p[i]);
        }
        lemma_path_reaches(es, q, mid, goal);
        let i0 = p.len() - 2;
        assert(p[i0 + 1] == p[p.len() - 1]);
        assert(has_edge(es, p[i0 + 1] as int, p[i0] as int));
        assert(has_edge(es, p[p.len() - 1] as int, p[p.len() - 2] as int));
        assert(reaches(es, mid, goal, (p.len() - 2) as nat));
        assert(reaches(es, start, goal, (p.len() - 1) as nat));
    }
}

/// Rebuild the goal-first path from the last arena entry.
fn reconstruct_path(ar: &Vec<(usize, Option<usize>)>) -> (r: Vec<CellId>)
    requires
        ar@.len() >= 1,
        forall|i: int| 0 <= i < ar@.len() ==> match (#[trigger] ar@[i]).1 {
            None => true,
            Some(p) => 0 <= p < i,
        },
    ensures
        cells_of(r@) == chain(ar@, ar@.len() - 1),
{
    let mut path: Vec<CellId> = Vec::new();
    let mut cur: usize = ar.len() - 1;
    loop
        invariant
            ar@.len() >= 1,
            cur < ar@.len(),
            forall|i: int| 0 <= i < ar@.len() ==> match (#[trigger] ar@[i]).1 {
                None => true,
                Some(p) => 0 <= p < i,
            },
            chain(ar@, ar@.len() - 1) == cells_of(path@) + chain(ar@, cur as int),
        decreases cur,
    {
        let (cell, parent) = ar[cur];
        let ghost path_before = path@;
        path.push(CellId(cell));
        proof {
            assert(path@ == path_before.push(CellId(cell)));
            assert(cells_of(path@) =~= cells_of(path_before) + seq![cell]);
        }
        match parent {
            Some(p) => {
                proof {
                    assert(chain(ar@, cur as int) == seq![ar@[cur as int].0] + chain(ar@, p as int));
                    assert(chain(ar@, ar@.len() - 1) =~= cells_of(path@) + chain(ar@, p as int));
                }
                cur = p;
            },
            None => {
                proof {
                    assert(chain(ar@, cur as int) =~= seq![ar@[cur as int].0]);
                    assert(chain(ar@, ar@.len() - 1) =~= cells_of(path@));
                }
                return path;
            },
        }
    }
}

/// A cell occurs among the open-list entries.
spec fn in_open(open: Seq<OpenNode>, c: int) -> bool {
    exists|o: int| 0 <= o < open.len() && (#[trigger] open[o]).cell == c
}

/// Examine one neighbor `b` of the cell being closed: skip it when it is
/// closed or unlinked, relax its tentative cost when it is already open,
/// and insert it otherwise. The open list only ever gains cells.
fn consider_neighbor(
    map: &WorldMap,
    graph: &NavGraph,
    closed: &Vec<bool>,
    arena: &Vec<(usize, Option<usize>)>,
    open: &mut Vec<OpenNode>,
    cur_cell: usize,
    cur_g: u64,
    cur_idx: usize,
    b: usize,
    goal: CellId,
    start_g: Ghost<int>,
)
    requires
        map.wf(),
        graph.matches(map),
        b < map.n(),
        cur_cell < map.n(),
        goal.0 < map.n(),
        closed@.len() == map.n(),
        cur_idx < arena@.len(),
        arena@[cur_idx as int].0 == cur_cell,
        open_entries_ok(old(open)@, arena@, closed@, pg_edges(graph.graph), start_g@, map.n()),
        open_distinct(old(open)@),
    ensures
        open_entries_ok(final(open)@, arena@, closed@, pg_edges(graph.graph), start_g@, map.n()),
        open_distinct(final(open)@),
        forall|c: int| in_open(old(open)@, c) ==> in_open(final(open)@, c),
        closed@[b as int] || in_open(final(open)@, b as int) || !has_edge(
            pg_edges(graph.graph),
            cur_cell as int,
            b as int,
        ),
{
    let ghost es = pg_edges(graph.graph);
    if closed[b] {
        return ;
    }
    match graph.weight_between(cur_cell, b) {
        Some(w) => {
            let tent = sat_add(cur_g, w);
            let mut pos: usize = 0;
            while pos < open.len()
                invariant_except_break
                    pos <= open@.len(),
                    forall|q: int| 0 <= q < pos ==> (#[trigger] open@[q]).cell != b,
                ensures
                    (pos < open@.len() && open@[pos as int].cell == b) || (pos == open@.len()
                        && forall|q: int|
                        0 <= q < open@.len() ==> (#[trigger] open@[q]).cell != b),
                decreases open@.len() - pos,
            {
                if open[pos].cell == b {
                    break ;
                }
                pos = pos + 1;
            }
            if pos < open.len() {
                if tent < open[pos].g {
                    let node = open[pos];
                    let ghost open_pre = open@;
                    open[pos] = OpenNode { cell: b, g: tent, h: node.h, parent: Some(cur_idx) };
                    proof {
                        assert forall|c: int| in_open(open_pre, c) implies in_open(open@, c) by {
                            let o = choose|o: int|
                                0 <= o < open_pre.len() && (#[trigger] open_pre[o]).cell == c;
                            assert(open@[o].cell == c);
                        }
                    }
                }
                proof {
                    assert(in_open(open@, b as int));
                }
            } else {
                let hb = horiz_dist(map, CellId(b), goal);
                let ghost open_pre = open@;
                open.push(OpenNode { cell: b, g: tent, h: hb, parent: Some(cur_idx) });
                proof {
                    assert forall|c: int| in_open(open_pre, c) implies in_open(open@, c) by {
                        let o = choose|o: int|
                            0 <= o < open_pre.len() && (#[trigger] open_pre[o]).cell == c;
                        assert(open@[o].cell == c);
                    }
                    assert(open@[open@.len() - 1].cell == b);
                }
            }
        },
        None => {
            proof {
                assert forall|i2: int|
                    0 <= i2 < es.len() && (#[trigger] es[i2]).0 == cur_cell && es[i2].1
                        == b implies false by {}
            }
        },
    }
}

/// Single-pair shortest-path query by heuristic best-first search.
///
/// Returns the path goal-first (the callers reverse it when they need
/// start-first order), or `None` exactly when no chain of navigation edges
/// joins `start` to `goal`. An unreachable goal is a normal outcome, not an
/// error.
#[verifier::rlimit(100)]
pub fn a_star(start: CellId, goal: CellId, graph: &NavGraph, map: &WorldMap) -> (r: Option<
    Vec<CellId>,
>)
    requires
        map.wf(),
        graph.matches(map),
        start.0 < map.n(),
        goal.0 < map.n(),
    ensures
        match r {
            Some(p) => valid_path(
                pg_edges(graph.graph),
                cells_of(p@),
                start.0 as int,
                goal.0 as int,
            ) && reachable(pg_edges(graph.graph), start.0 as int, goal.0 as int) && (forall|
                i1: int,
                i2: int,
            |
                0 <= i1 < i2 < p@.len() ==> (#[trigger] p@[i1]) != (#[trigger] p@[i2])),
            None => !reachable(pg_edges(graph.graph), start.0 as int, goal.0 as int),
        },
        start == goal ==> match r {
            Some(p) => p@.len() == 1 && p@[0] == start,
            None => false,
        },
{
    let ghost es = pg_edges(graph.graph);
    proof {
        crate::navgraph::lemma_nav_graph_slope(map);
        assert(reaches(es, start.0 as int, start.0 as int, 0nat));
    }
    if start.0 == goal.0 {
        let mut p: Vec<CellId> = Vec::new();
        p.push(start);
        proof {
            let ps = cells_of(p@);
            assert(ps.len() == 1 && ps[0] == start.0);
        }
        return Some(p);
    }
    let n = map.spatial.len();
    let mut closed: Vec<bool> = Vec::new();
    let mut i: usize = 0;
    while i < n
        invariant
            i <= n,
            closed@.len() == i,
            forall|j: int| 0 <= j < i ==> !(#[trigger] closed@[j]),
        decreases n - i,
    {
        closed.push(false);
        i = i + 1;
    }
    let mut closed_count: usize = 0;
    let mut arena: Vec<(usize, Option<usize>)> = Vec::new();
    let h0 = horiz_dist(map, start, goal);
    let mut open: Vec<OpenNode> = Vec::new();
    open.push(OpenNode { cell: start.0, g: 0, h: h0, parent: None });
    proof {
        lemma_count_true_zero(closed@, n as int);
        lemma_count_true_le(closed@, n as int);
        assert(open@[0].cell == start.0);
        assert(in_open(open@, start.0 as int));
    }
    loop
        invariant
            map.wf(),
            graph.matches(map),
            es == pg_edges(graph.graph),
            forall|i2: int|
                0 <= i2 < es.len() ==> 0 <= (#[trigger] es[i2]).0 < n && 0 <= es[i2].1 < n,
            n == map.n(),
            start.0 < n,
            goal.0 < n,
            start.0 != goal.0,
            closed@.len() == n,
            closed_count == count_true(closed@, n as int),
            closed_count <= n,
            !closed@[goal.0 as int],
            closed@[start.0 as int] || in_open(open@, start.0 as int),
            arena_ok(arena@, es, start.0 as int, n as int),
            forall|i1: int, i2: int|
                0 <= i1 < i2 < arena@.len() ==> (#[trigger] arena@[i1]).0 != (
                #[trigger] arena@[i2]).0,
            forall|i: int| 0 <= i < arena@.len() ==> closed@[(#[trigger] arena@[i]).0 as int],
            open_entries_ok(open@, arena@, closed@, es, start.0 as int, n as int),
            open_distinct(open@),
            coverage(closed@, open@, es, n as int),
        ensures
            open@.len() == 0,
            closed@.len() == n,
            closed@[start.0 as int],
            !closed@[goal.0 as int],
            coverage(closed@, open@, es, n as int),
        decreases n - closed_count,
    {
        if open.len() == 0 {
            proof {
                assert(!in_open(open@, start.0 as int));
            }
            break;
        }
        let best = min_f_index(&open);
        let ghost open_before = open@;
        let cur = open[best];
        let _ = open.swap_remove(best);
        let ghost arena_before = arena@;
        arena.push((cur.cell, cur.parent));
        let cur_idx: usize = arena.len() - 1;
        proof {
            assert(arena@.drop_last() =~= arena_before);
        }
        proof {
            lemma_arena_push_ok(
                arena_before,
                arena@,
                closed@,
                cur,
                es,
                start.0 as int,
                n as int,
            );
        }
        if cur.cell == goal.0 {
            let path = reconstruct_path(&arena);
            proof {
                lemma_chain_valid(arena@, es, start.0 as int, n as int, arena@.len() - 1);
                let ps = cells_of(path@);
                assert(valid_path(es, ps, start.0 as int, goal.0 as int));
                lemma_path_reaches(es, ps, start.0 as int, goal.0 as int);
                assert(reaches(es, start.0 as int, goal.0 as int, (ps.len() - 1) as nat));
                lemma_chain_distinct(arena@, arena@.len() - 1);
                assert forall|i1: int, i2: int|
                    0 <= i1 < i2 < path@.len() implies (#[trigger] path@[i1]) != (
                #[trigger] path@[i2]) by {
                    assert(ps[i1] == path@[i1].0 && ps[i2] == path@[i2].0);
                    assert(chain(arena@, arena@.len() - 1)[i1] != chain(
                        arena@,
                        arena@.len() - 1,
                    )[i2]);
                }
            }
            return Some(path);
        }
        let ghost closed_before = closed@;
        closed[cur.cell] = true;
        proof {
            lemma_count_true_update(closed_before, cur.cell as int, n as int);
            lemma_count_true_le(closed@, n as int);
        }
        closed_count = closed_count + 1;
        proof {
            assert forall|i: int| 0 <= i < arena@.len() implies closed@[(
            #[trigger] arena@[i]).0 as int] by {
                if i < arena@.len() - 1 {
                    assert(arena@[i] == arena_before[i]);
                    assert(closed_before[arena@[i].0 as int]);
                }
            }
            lemma_after_pop(
                open_before,
                open@,
                best as int,
                cur,
                arena@,
                closed_before,
                closed@,
                es,
                start.0 as int,
                n as int,
            );
        }
        let nbs_len = map.spatial.neighbors[cur.cell].len();
        let mut j: usize = 0;
        while j < nbs_len
            invariant
                map.wf(),
                graph.matches(map),
                es == pg_edges(graph.graph),
                n == map.n(),
                start.0 < n,
                goal.0 < n,
                cur.cell < n,
                closed@.len() == n,
                closed@[cur.cell as int],
                cur_idx < arena@.len(),
                arena@[cur_idx as int].0 == cur.cell,
                arena_ok(arena@, es, start.0 as int, n as int),
                j <= nbs_len,
                nbs_len == map.spatial.neighbors@[cur.cell as int]@.len(),
                closed@[start.0 as int] || in_open(open@, start.0 as int),
                open_entries_ok(open@, arena@, closed@, es, start.0 as int, n as int),
                open_distinct(open@),
                forall|i2: int|
                    0 <= i2 < es.len() && 0 <= (#[trigger] es[i2]).0 < n && es[i2].0 != cur.cell
                        && closed@[es[i2].0 as int] ==> closed@[es[i2].1 as int] || in_open(
                        open@,
                        es[i2].1 as int,
                    ),
                forall|i2: int|
                    0 <= i2 < es.len() && (#[trigger] es[i2]).0 == cur.cell && (exists|k: int|
                        0 <= k < j && map.spatial.neighbors@[cur.cell as int]@[k] == es[i2].1)
                        ==> closed@[es[i2].1 as int] || in_open(open@, es[i2].1 as int),
            decreases nbs_len - j,
        {
            let b = map.spatial.neighbors[cur.cell][j];
            let ghost open_pre = open@;
            consider_neighbor(
                map,
                graph,
                &closed,
                &arena,
                &mut open,
                cur.cell,
                cur.g,
                cur_idx,
                b,
                goal,
                Ghost(start.0 as int),
            );
            proof {
                assert forall|i2: int|
                    0 <= i2 < es.len() && (#[trigger] es[i2]).0 == cur.cell && (exists|k: int|
                        0 <= k < j + 1 && map.spatial.neighbors@[cur.cell as int]@[k] == es[i2].1)
                        implies closed@[es[i2].1 as int] || in_open(open@, es[i2].1 as int) by {
                    let k = choose|k: int|
                        0 <= k < j + 1 && map.spatial.neighbors@[cur.cell as int]@[k] == es[i2].1;
                    if k < j {
                        if !closed@[es[i2].1 as int] {
                            assert(in_open(open_pre, es[i2].1 as int));
                        }
                    } else {
                        assert(es[i2].1 == b);
                        assert(has_edge(es, cur.cell as int, b as int));
                    }
                }
            }
            j = j + 1;
        }
        proof {
            lemma_full_coverage(map, es, closed@, open@, cur.cell as int, n as int);
        }
    }
    proof {
        crate::navgraph::lemma_nav_graph_slope(map);
        assert forall|i2: int| 0 <= i2 < es.len() implies {
            0 <= (#[trigger] es[i2]).0 < n && 0 <= es[i2].1 < n
        } by {
            assert(map.spatial.adj(es[i2].0 as int, es[i2].1 as int));
            let k = choose|k: int|
                0 <= k < map.spatial.neighbors@[es[i2].0 as int]@.len()
                    && map.spatial.neighbors@[es[i2].0 as int]@[k] == es[i2].1 as int;
        }
        assert forall|i2: int|
            0 <= i2 < es.len() && closed@[(#[trigger] es[i2]).0 as int] implies closed@[es[i2].1
            as int] by {
            assert(!in_open(open@, es[i2].1 as int));
        }
        assert forall|k: nat| !#[trigger] reaches(es, start.0 as int, goal.0 as int, k) by {
            lemma_closed_set_unreachable(es, closed@, n as int, start.0 as int, goal.0 as int, k);
        }
        assert(!reachable(es, start.0 as int, goal.0 as int));
    }
    None
}

/// Once every neighbor of the newly closed cell has been examined, the
/// closed set is again covered: each outgoing edge of a closed cell leads
/// to a closed or open cell.
proof fn lemma_full_coverage(
    map: &WorldMap,
    es: Seq<(usize, usize, u64)>,
    closed: Seq<bool>,
    open: Seq<OpenNode>,
    cur_cell: int,
    n: int,
)
    requires
        map.wf(),
        n == map.n(),
        es == crate::navgraph::nav_edge_seq(map),
        0 <= cur_cell < n,
        closed.len() == n,
        closed[cur_cell],
        forall|i2: int|
            0 <= i2 < es.len() && 0 <= (#[trigger] es[i2]).0 < n && es[i2].0 != cur_cell
                && closed[es[i2].0 as int] ==> closed[es[i2].1 as int] || in_open(
                open,
                es[i2].1 as int,
            ),
        forall|i2: int|
            0 <= i2 < es.len() && (#[trigger] es[i2]).0 == cur_cell && (exists|k: int|
                0 <= k < map.spatial.neighbors@[cur_cell]@.len()
                    && map.spatial.neighbors@[cur_cell]@[k] == es[i2].1) ==> closed[es[i2].1
                as int] || in_open(open, es[i2].1 as int),
    ensures
        coverage(closed, open, es, n),
{
    crate::navgraph::lemma_nav_graph_slope(map);
    assert forall|i2: int|
        0 <= i2 < es.len() && 0 <= (#[trigger] es[i2]).0 < n && closed[es[i2].0 as int] implies
        closed[es[i2].1 as int] || in_open(open, es[i2].1 as int) by {
        let c = es[i2].0 as int;
        if c == cur_cell {
            assert(map.spatial.adj(c, es[i2].1 as int));
            let t = es[i2].1 as int;
            let k = choose|k: int|
                0 <= k < map.spatial.neighbors@[c]@.len() && map.spatial.neighbors@[c]@[k] == t;
            assert(map.spatial.neighbors@[cur_cell]@[k] == es[i2].1);
        }
    }
}

/// After popping the best open node, closing its cell, and appending it to
/// the arena, the search invariants hold again for the shrunken open list.
proof fn lemma_after_pop(
    ob: Seq<OpenNode>,
    oa: Seq<OpenNode>,
    best: int,
    cur: OpenNode,
    ar: Seq<(usize, Option<usize>)>,
    cb: Seq<bool>,
    ca: Seq<bool>,
    es: Seq<(usize, usize, u64)>,
    start: int,
    n: int,
)
    requires
        0 <= best < ob.len(),
        ob[best] == cur,
        oa == ob.update(best, ob.last()).drop_last(),
        ar.len() >= 1,
        ar[ar.len() - 1] == (cur.cell, cur.parent),
        cb.len() == n,
        0 <= cur.cell < n,
        !cb[cur.cell as int],
        ca == cb.update(cur.cell as int, true),
        open_entries_ok(ob, ar.drop_last(), cb, es, start, n),
        open_distinct(ob),
        coverage(cb, ob, es, n),
        cb[start] || in_open(ob, start),
        0 <= start < n,
        forall|i2: int| 0 <= i2 < es.len() ==> 0 <= (#[trigger] es[i2]).0 < n && 0 <= es[i2].1 < n,
    ensures
        open_entries_ok(oa, ar, ca, es, start, n),
        open_distinct(oa),
        ca[start] || in_open(oa, start),
        forall|c: int| in_open(ob, c) && c != cur.cell ==> in_open(oa, c),
        forall|i2: int|
            0 <= i2 < es.len() && 0 <= (#[trigger] es[i2]).0 < n && es[i2].0 != cur.cell
                && ca[es[i2].0 as int] ==> ca[es[i2].1 as int] || in_open(oa, es[i2].1 as int),
{
    // Every remaining open entry sat at an index other than `best` before.
    assert forall|o: int| 0 <= o < oa.len() implies exists|o2: int|
        0 <= o2 < ob.len() && o2 != best && ob[o2] == #[trigger] oa[o] by {
        if o == best && best < oa.len() {
            assert(ob[ob.len() - 1] == oa[o]);
        } else {
            assert(ob[o] == oa[o]);
        }
    }
    assert forall|c: int| in_open(ob, c) && c != cur.cell implies in_open(oa, c) by {
        let o = choose|o: int| 0 <= o < ob.len() && (#[trigger] ob[o]).cell == c;
        if o == best {
            assert(false);
        } else if o == ob.len() - 1 {
            assert(oa[best].cell == c);
        } else {
            assert(oa[o].cell == c);
        }
    }
    if start != cur.cell && !cb[start] {
        assert(in_open(oa, start));
    }
    assert(open_entries_ok(oa, ar, ca, es, start, n)) by {
        assert forall|o: int| 0 <= o < oa.len() implies {
            let e = #[trigger] oa[o];
            &&& e.cell < n
            &&& !ca[e.cell as int]
            &&& match e.parent {
                None => e.cell == start,
                Some(p) => 0 <= p < ar.len() && has_edge(es, ar[p as int].0 as int, e.cell as int),
            }
        } by {
            let o2 = choose|o2: int| 0 <= o2 < ob.len() && o2 != best && ob[o2] == oa[o];
            assert(ob[o2].cell != ob[best].cell);
            match oa[o].parent {
                None => {},
                Some(p) => {
                    assert(0 <= p < ar.drop_last().len());
                    assert(ar[p as int] == ar.drop_last()[p as int]);
                },
            }
        }
    }
    assert(open_distinct(oa)) by {
        assert forall|o: int, o3: int| 0 <= o < o3 < oa.len() implies (#[trigger] oa[o]).cell != (
        #[trigger] oa[o3]).cell by {
            if o == best && best < oa.len() {
                assert(ob[ob.len() - 1] == oa[o]);
                assert(ob[o3] == oa[o3]);
                assert(o3 < ob.len() - 1);
            } else if o3 == best && best < oa.len() {
                assert(ob[ob.len() - 1] == oa[o3]);
                assert(ob[o] == oa[o]);
                assert(o < ob.len() - 1);
            } else {
                assert(ob[o] == oa[o]);
                assert(ob[o3] == oa[o3]);
            }
        }
    }
    assert forall|i2: int|
        0 <= i2 < es.len() && 0 <= (#[trigger] es[i2]).0 < n && es[i2].0 != cur.cell && ca[es[i2].0
        as int] implies ca[es[i2].1 as int] || in_open(oa, es[i2].1 as int) by {
        assert(cb[es[i2].0 as int]);
        let t = es[i2].1 as int;
        if cb[t] {
            assert(ca[t] || t == cur.cell);
        } else {
            assert(in_open(ob, t));
            if t != cur.cell {
                assert(in_open(oa, t));
            }
        }
    }
}

/// Appending the popped node to the arena keeps it well linked, and its
/// cells pairwise distinct: every earlier entry's cell is closed while the
/// appended cell is not.
proof fn lemma_arena_push_ok(
    ab: Seq<(usize, Option<usize>)>,
    aa: Seq<(usize, Option<usize>)>,
    closed: Seq<bool>,
    cur: OpenNode,
    es: Seq<(usize, usize, u64)>,
    start: int,
    n: int,
)
    requires
        aa == ab.push((cur.cell, cur.parent)),
        arena_ok(ab, es, start, n),
        forall|i1: int, i2: int|
            0 <= i1 < i2 < ab.len() ==> (#[trigger] ab[i1]).0 != (#[trigger] ab[i2]).0,
        forall|i: int| 0 <= i < ab.len() ==> closed[(#[trigger] ab[i]).0 as int],
        cur.cell < n,
        !closed[cur.cell as int],
        match cur.parent {
            None => cur.cell == start,
            Some(p) => 0 <= p < ab.len() && has_edge(es, ab[p as int].0 as int, cur.cell as int),
        },
    ensures
        arena_ok(aa, es, start, n),
        forall|i1: int, i2: int|
            0 <= i1 < i2 < aa.len() ==> (#[trigger] aa[i1]).0 != (#[trigger] aa[i2]).0,
{
    assert forall|i1: int, i2: int|
        0 <= i1 < i2 < aa.len() implies (#[trigger] aa[i1]).0 != (#[trigger] aa[i2]).0 by {
        if i2 == aa.len() - 1 {
            assert(aa[i1] == ab[i1]);
            assert(closed[ab[i1].0 as int]);
        } else {
            assert(aa[i1] == ab[i1] && aa[i2] == ab[i2]);
        }
    }
    assert forall|i2: int| 0 <= i2 < aa.len() implies {
        let e = #[trigger] aa[i2];
        &&& e.0 < n
        &&& match e.1 {
            None => e.0 == start,
            Some(p) => 0 <= p < i2 && has_edge(es, aa[p as int].0 as int, e.0 as int),
        }
    } by {
        if i2 < aa.len() - 1 {
            assert(aa[i2] == ab[i2]);
            match ab[i2].1 {
                None => {},
                Some(p) => {
                    assert(aa[p as int] == ab[p as int]);
                },
            }
        } else {
            match cur.parent {
                None => {},
                Some(p) => {
                    assert(aa[p as int] == ab[p as int]);
                },
            }
        }
    }
}

/// Every open entry is in range, unclosed, and correctly linked to the arena.
spec fn open_entries_ok(
    open: Seq<OpenNode>,
    ar: Seq<(usize, Option<usize>)>,
    closed: Seq<bool>,
    es: Seq<(usize, usize, u64)>,
    start: int,
    n: int,
) -> bool {
    forall|o: int| 0 <= o < open.len() ==> {
        let e = #[trigger] open[o];
        &&& e.cell < n
        &&& !closed[e.cell as int]
        &&& match e.parent {
            None => e.cell == start,
            Some(p) => 0 <= p < ar.len() && has_edge(es, ar[p as int].0 as int, e.cell as int),
        }
    }
}

/// No cell occurs twice in the open list.
spec fn open_distinct(open: Seq<OpenNode>) -> bool {
    forall|o: int, o2: int|
        0 <= o < o2 < open.len() ==> (#[trigger] open[o]).cell != (#[trigger] open[o2]).cell
}

/// Every outgoing edge of a closed cell leads to a closed or open cell.
spec fn coverage(closed: Seq<bool>, open: Seq<OpenNode>, es: Seq<(usize, usize, u64)>, n: int) -> bool {
    forall|i2: int|
        0 <= i2 < es.len() && 0 <= (#[trigger] es[i2]).0 < n && closed[es[i2].0 as int]
            ==> closed[es[i2].1 as int] || in_open(open, es[i2].1 as int)
}

} // verus!
