//! Multi-source breadth-first distance fields: for every cell, the minimum
//! hop count to the nearest seed of a set, scaled to world units by the
//! mean inter-cell edge length. Unreachable cells keep an infinite
//! distance, which downstream falloffs treat as zero contribution.

use vstd::prelude::*;

use crate::geom::isqrt;
use crate::geom::sqrt_floor;
use crate::region::is_seed;
use crate::region::seed_reachable;
use crate::region::seed_reaches;
use crate::spatial::SpatialMap;

verus! {

/// The sentinel hop count of a cell no seed can reach.
pub const HOPS_INF: u32 = 0xffff_ffff;

/// Being within `k` hops is monotone in `k`.
pub proof fn lemma_seed_reaches_monotone(map: &SpatialMap, seeds: Seq<usize>, c: int, k: nat, k2: nat)
    requires
        seed_reaches(map, seeds, c, k),
        k <= k2,
    ensures
        seed_reaches(map, seeds, c, k2),
    decreases k2,
{
    if !is_seed(seeds, c) && k2 > 0 {
        let b = choose|b: int| #[trigger] map.adj(c, b) && seed_reaches(map, seeds, b, (k - 1) as nat);
        lemma_seed_reaches_monotone(map, seeds, b, (k - 1) as nat, (k2 - 1) as nat);
    }
}

/// Number of undiscovered cells among the first `k`.
spec fn count_inf(s: Seq<u32>, k: int) -> int
    decreases k,
{
    if k <= 0 {
        0
    } else {
        count_inf(s, k - 1) + if s[k - 1] == HOPS_INF {
            1int
        } else {
            0int
        }
    }
}

proof fn lemma_count_inf_le(s: Seq<u32>, k: int)
    requires
        0 <= k <= s.len(),
    ensures
        0 <= count_inf(s, k) <= k,
    decreases k,
{
    if k > 0 {
        lemma_count_inf_le(s, k - 1);
    }
}

proof fn lemma_count_inf_set(a: Seq<u32>, b: Seq<u32>, k: int)
    requires
        a.len() == b.len(),
        0 <= k <= a.len(),
        forall|c: int| 0 <= c < a.len() && #[trigger] a[c] != HOPS_INF ==> b[c] == a[c],
    ensures
        count_inf(b, k) <= count_inf(a, k),
    decreases k,
{
    if k > 0 {
        lemma_count_inf_set(a, b, k - 1);
    }
}

proof fn lemma_count_inf_strict(a: Seq<u32>, b: Seq<u32>, k: int, w: int)
    requires
        a.len() == b.len(),
        0 <= k <= a.len(),
        forall|c: int| 0 <= c < a.len() && #[trigger] a[c] != HOPS_INF ==> b[c] == a[c],
        0 <= w < k,
        a[w] == HOPS_INF,
        b[w] != HOPS_INF,
    ensures
        count_inf(b, k) < count_inf(a, k),
    decreases k,
{
    if w == k - 1 {
        lemma_count_inf_set(a, b, k - 1);
    } else {
        lemma_count_inf_strict(a, b, k - 1, w);
    }
}

/// A discovered set that is closed under adjacency and contains the seeds
/// contains every cell the seed set reaches.
proof fn lemma_bfs_closure(
    map: &SpatialMap,
    seeds: Seq<usize>,
    dist: Seq<u32>,
    c: int,
    k: nat,
)
    requires
        map.wf(),
        dist.len() == map.n(),
        0 <= c < map.n(),
        forall|j: int| 0 <= j < seeds.len() ==> 0 <= #[trigger] seeds[j] < map.n(),
        forall|j: int| 0 <= j < seeds.len() ==> dist[#[trigger] seeds[j] as int] != HOPS_INF,
        forall|a: int, k2: int|
            0 <= a < map.n() && dist[a] != HOPS_INF && 0 <= k2 < map.spatial_neighbor_count(a)
                ==> dist[#[trigger] map.spatial_neighbor(a, k2)] != HOPS_INF,
        seed_reaches(map, seeds, c, k),
    ensures
        dist[c] != HOPS_INF,
    decreases k,
{
    if is_seed(seeds, c) {
        let j = choose|j: int| 0 <= j < seeds.len() && seeds[j] == c;
        assert(dist[seeds[j] as int] != HOPS_INF);
    } else {
        let b = choose|b: int| #[trigger] map.adj(c, b) && seed_reaches(map, seeds, b, (k - 1) as nat);
        let k1 = choose|k1: int|
            0 <= k1 < map.neighbors@[c]@.len() && map.neighbors@[c]@[k1] == b;
        assert(map.neighbors@[c]@[k1] == b);
        lemma_bfs_closure(map, seeds, dist, b, (k - 1) as nat);
        assert(map.adj(b, c));
        let k2 = choose|k2: int|
            0 <= k2 < map.neighbors@[b]@.len() && map.neighbors@[b]@[k2] == c;
        assert(map.spatial_neighbor(b, k2) == c);
        assert(dist[#[trigger] map.spatial_neighbor(b, k2)] != HOPS_INF);
    }
}

/// A cell is in the frontier list.
spec fn in_frontier(f: Seq<usize>, c: int) -> bool {
    exists|i: int| 0 <= i < f.len() && #[trigger] f[i] == c
}

/// Multi-source breadth-first search: the minimum number of adjacency hops
/// from each cell to the nearest seed, or `HOPS_INF` for a cell that no
/// seed reaches.
pub fn bfs_hops(map: &SpatialMap, seeds: &Vec<usize>) -> (r: Vec<u32>)
    requires
        map.wf(),
        forall|j: int| 0 <= j < seeds@.len() ==> #[trigger] seeds@[j] < map.n(),
    ensures
        r@.len() == map.n(),
        forall|c: int|
            0 <= c < map.n() && #[trigger] r@[c] != HOPS_INF ==> seed_reaches(
                map,
                seeds@,
                c,
                r@[c] as nat,
            ) && (r@[c] > 0 ==> !seed_reaches(map, seeds@, c, (r@[c] - 1) as nat)),
        forall|c: int|
            0 <= c < map.n() && #[trigger] r@[c] == HOPS_INF ==> !seed_reachable(map, seeds@, c),
{
    let n = map.len();
    let mut dist: Vec<u32> = Vec::new();
    let mut i: usize = 0;
    while i < n
        invariant
            i <= n,
            dist@.len() == i,
            forall|c: int| 0 <= c < i ==> #[trigger] dist@[c] == HOPS_INF,
        decreases n - i,
    {
        dist.push(HOPS_INF);
        i = i + 1;
    }
    let mut frontier: Vec<usize> = Vec::new();
    let mut j: usize = 0;
    while j < seeds.len()
        invariant
            map.wf(),
            n == map.n(),
            dist@.len() == n,
            j <= seeds@.len(),
            forall|j2: int| 0 <= j2 < seeds@.len() ==> #[trigger] seeds@[j2] < map.n(),
            forall|c: int|
                0 <= c < n && #[trigger] dist@[c] != HOPS_INF ==> dist@[c] == 0 && is_seed(
                    seeds@,
                    c,
                ),
            forall|j2: int| 0 <= j2 < j ==> dist@[#[trigger] seeds@[j2] as int] == 0,
            forall|f: int| 0 <= f < frontier@.len() ==> #[trigger] frontier@[f] < n,
            forall|f: int|
                0 <= f < frontier@.len() ==> dist@[#[trigger] frontier@[f] as int] == 0,
            forall|c: int|
                0 <= c < n && #[trigger] dist@[c] == 0 && dist@[c] != HOPS_INF ==> in_frontier(
                    frontier@,
                    c,
                ),
        decreases seeds@.len() - j,
    {
        let s = seeds[j];
        let ghost dist0 = dist@;
        let ghost fr0 = frontier@;
        if dist[s] == HOPS_INF {
            dist[s] = 0;
            frontier.push(s);
            proof {
                assert(frontier@[frontier@.len() - 1] == s);
                assert forall|c: int|
                    0 <= c < n && #[trigger] dist@[c] == 0 && dist@[c] != HOPS_INF implies
                    in_frontier(frontier@, c) by {
                    if c != s as int {
                        assert(dist0[c] == 0 && dist0[c] != HOPS_INF);
                        assert(in_frontier(fr0, c));
                        let f = choose|f: int| 0 <= f < fr0.len() && #[trigger] fr0[f] == c;
                        assert(frontier@[f] == c);
                    }
                }
            }
        }
        proof {
            assert(is_seed(seeds@, s as int));
        }
        j = j + 1;
    }
    let mut d: u32 = 0;
    proof {
        lemma_count_inf_le(dist@, n as int);
    }
    loop
        invariant_except_break
            d as int <= n - count_inf(dist@, n as int),
            forall|c: int|
                0 <= c < n && #[trigger] dist@[c] != HOPS_INF ==> dist@[c] <= d,
            forall|f: int| 0 <= f < frontier@.len() ==> #[trigger] frontier@[f] < n,
            forall|f: int|
                0 <= f < frontier@.len() ==> dist@[#[trigger] frontier@[f] as int] == d,
            forall|c: int|
                0 <= c < n && #[trigger] dist@[c] == d && dist@[c] != HOPS_INF ==> in_frontier(
                    frontier@,
                    c,
                ),
            forall|c: int|
                0 <= c < n && seed_reaches(map, seeds@, c, d as nat) ==> #[trigger] dist@[c]
                    != HOPS_INF,
            forall|a: int, k2: int|
                0 <= a < n && dist@[a] != HOPS_INF && dist@[a] < d && 0 <= k2
                    < map.spatial_neighbor_count(a) ==> dist@[#[trigger] map.spatial_neighbor(
                    a,
                    k2,
                )] != HOPS_INF,
        invariant
            map.wf(),
            n == map.n(),
            n <= 1_000_000,
            dist@.len() == n,
            forall|j2: int| 0 <= j2 < seeds@.len() ==> #[trigger] seeds@[j2] < map.n(),
            forall|j2: int|
                0 <= j2 < seeds@.len() ==> dist@[#[trigger] seeds@[j2] as int] != HOPS_INF,
            forall|c: int|
                0 <= c < n && #[trigger] dist@[c] != HOPS_INF ==> seed_reaches(
                    map,
                    seeds@,
                    c,
                    dist@[c] as nat,
                ) && (dist@[c] > 0 ==> !seed_reaches(map, seeds@, c, (dist@[c] - 1) as nat)),
        ensures
            forall|c: int|
                0 <= c < n && #[trigger] dist@[c] != HOPS_INF ==> seed_reaches(
                    map,
                    seeds@,
                    c,
                    dist@[c] as nat,
                ) && (dist@[c] > 0 ==> !seed_reaches(map, seeds@, c, (dist@[c] - 1) as nat)),
            forall|j2: int|
                0 <= j2 < seeds@.len() ==> dist@[#[trigger] seeds@[j2] as int] != HOPS_INF,
            forall|a: int, k2: int|
                0 <= a < n && dist@[a] != HOPS_INF && 0 <= k2 < map.spatial_neighbor_count(a)
                    ==> dist@[#[trigger] map.spatial_neighbor(a, k2)] != HOPS_INF,
        decreases count_inf(dist@, n as int), frontier@.len(),
    {
        if frontier.len() == 0 {
            proof {
                assert forall|a: int, k2: int|
                    0 <= a < n && dist@[a] != HOPS_INF && 0 <= k2 < map.spatial_neighbor_count(a)
                        implies dist@[#[trigger] map.spatial_neighbor(a, k2)] != HOPS_INF by {
                    if dist@[a] == d {
                        assert(in_frontier(frontier@, a));
                        assert(false);
                    }
                }
            }
            break;
        }
        let ghost dist_entry = dist@;
        let mut next: Vec<usize> = Vec::new();
        let mut fi: usize = 0;
        while fi < frontier.len()
            invariant
                map.wf(),
                n == map.n(),
                n <= 1_000_000,
                dist@.len() == n,
                fi <= frontier@.len(),
                dist_entry.len() == n,
                d as int <= n - count_inf(dist_entry, n as int),
                forall|j2: int| 0 <= j2 < seeds@.len() ==> #[trigger] seeds@[j2] < map.n(),
                forall|c: int|
                    0 <= c < n && #[trigger] dist_entry[c] != HOPS_INF ==> dist@[c]
                        == dist_entry[c],
                forall|c: int|
                    0 <= c < n && #[trigger] dist_entry[c] == HOPS_INF && dist@[c] != HOPS_INF
                        ==> dist@[c] == d + 1 && in_frontier(next@, c),
                forall|f: int| 0 <= f < frontier@.len() ==> #[trigger] frontier@[f] < n,
                forall|f: int|
                    0 <= f < frontier@.len() ==> dist_entry[#[trigger] frontier@[f] as int] == d,
                forall|f: int| 0 <= f < next@.len() ==> #[trigger] next@[f] < n,
                forall|f: int|
                    0 <= f < next@.len() ==> dist@[#[trigger] next@[f] as int] == d + 1
                        && dist_entry[next@[f] as int] == HOPS_INF,
                forall|c: int|
                    0 <= c < n && #[trigger] dist@[c] != HOPS_INF ==> dist@[c] <= d + 1
                        && seed_reaches(map, seeds@, c, dist@[c] as nat) && (dist@[c] > 0
                        ==> !seed_reaches(map, seeds@, c, (dist@[c] - 1) as nat)),
                forall|c: int|
                    0 <= c < n && seed_reaches(map, seeds@, c, d as nat) ==> #[trigger] dist@[c]
                        != HOPS_INF,
                forall|a: int, k2: int|
                    0 <= a < n && dist@[a] != HOPS_INF && dist@[a] < d && 0 <= k2
                        < map.spatial_neighbor_count(a) ==> dist@[#[trigger] map.spatial_neighbor(
                        a,
                        k2,
                    )] != HOPS_INF,
                forall|f: int, k2: int|
                    0 <= f < fi && 0 <= k2 < map.spatial_neighbor_count(
                        frontier@[f] as int,
                    ) ==> dist@[#[trigger] map.spatial_neighbor(frontier@[f] as int, k2)]
                        != HOPS_INF,
            decreases frontier@.len() - fi,
        {
            let c = frontier[fi];
            let nbs_len = map.neighbors[c].len();
            let mut k: usize = 0;
            while k < nbs_len
                invariant
                    map.wf(),
                    n == map.n(),
                    n <= 1_000_000,
                    dist@.len() == n,
                    c < n,
                    k <= nbs_len,
                    nbs_len == map.spatial_neighbor_count(c as int),
                    fi < frontier@.len(),
                    dist_entry.len() == n,
                    d as int <= n - count_inf(dist_entry, n as int),
                    dist_entry[c as int] == d,
                    dist@[c as int] == d,
                    forall|j2: int| 0 <= j2 < seeds@.len() ==> #[trigger] seeds@[j2] < map.n(),
                    forall|c2: int|
                        0 <= c2 < n && #[trigger] dist_entry[c2] != HOPS_INF ==> dist@[c2]
                            == dist_entry[c2],
                    forall|c2: int|
                        0 <= c2 < n && #[trigger] dist_entry[c2] == HOPS_INF && dist@[c2]
                            != HOPS_INF ==> dist@[c2] == d + 1 && in_frontier(next@, c2),
                    forall|f: int| 0 <= f < frontier@.len() ==> #[trigger] frontier@[f] < n,
                    forall|f: int|
                        0 <= f < frontier@.len() ==> dist_entry[#[trigger] frontier@[f] as int]
                            == d,
                    forall|f: int| 0 <= f < next@.len() ==> #[trigger] next@[f] < n,
                    forall|f: int|
                        0 <= f < next@.len() ==> dist@[#[trigger] next@[f] as int] == d + 1
                            && dist_entry[next@[f] as int] == HOPS_INF,
                    forall|c2: int|
                        0 <= c2 < n && #[trigger] dist@[c2] != HOPS_INF ==> dist@[c2] <= d + 1
                            && seed_reaches(map, seeds@, c2, dist@[c2] as nat) && (dist@[c2] > 0
                            ==> !seed_reaches(map, seeds@, c2, (dist@[c2] - 1) as nat)),
                    forall|c2: int|
                        0 <= c2 < n && seed_reaches(map, seeds@, c2, d as nat)
                            ==> #[trigger] dist@[c2] != HOPS_INF,
                    forall|a: int, k2: int|
                        0 <= a < n && dist@[a] != HOPS_INF && dist@[a] < d && 0 <= k2
                            < map.spatial_neighbor_count(a) ==> dist@[
                        #[trigger] map.spatial_neighbor(a, k2)] != HOPS_INF,
                    forall|f: int, k2: int|
                        0 <= f < fi && 0 <= k2 < map.spatial_neighbor_count(
                            frontier@[f] as int,
                        ) ==> dist@[#[trigger] map.spatial_neighbor(frontier@[f] as int, k2)]
                            != HOPS_INF,
                    forall|k2: int|
                        0 <= k2 < k ==> dist@[#[trigger] map.spatial_neighbor(c as int, k2)]
                            != HOPS_INF,
                decreases nbs_len - k,
            {
                let ghost dist_k = dist@;
                let nb = map.neighbors[c][k];
                if dist[nb] == HOPS_INF {
                    proof {
                        assert(d <= n) by {
                            lemma_count_inf_le(dist_entry, n as int);
                        }
                        assert(map.adj(c as int, nb as int)) by {
                            assert(map.neighbors@[c as int]@[k as int] == nb);
                        }
                        assert(map.adj(nb as int, c as int));
                        assert(seed_reaches(map, seeds@, c as int, d as nat));
                        assert(seed_reaches(map, seeds@, nb as int, (d + 1) as nat));
                        assert(!seed_reaches(map, seeds@, nb as int, d as nat));
                        assert(dist_entry[nb as int] == HOPS_INF);
                    }
                    let ghost dist_pre = dist@;
                    let ghost next0 = next@;
                    dist[nb] = d + 1;
                    next.push(nb);
                    proof {
                        assert(next@[next@.len() - 1] == nb);
                        assert forall|c2: int|
                            0 <= c2 < n && #[trigger] dist_entry[c2] == HOPS_INF && dist@[c2]
                                != HOPS_INF implies dist@[c2] == d + 1 && in_frontier(
                            next@,
                            c2,
                        ) by {
                            if c2 != nb as int {
                                assert(dist_pre[c2] == dist@[c2]);
                                assert(in_frontier(next0, c2));
                                let f = choose|f: int|
                                    0 <= f < next0.len() && #[trigger] next0[f] == c2;
                                assert(next@[f] == c2);
                            }
                        }
                    }
                }
                proof {
                    assert(map.spatial_neighbor(c as int, k as int) == nb as int);
                    assert forall|f: int, k2: int|
                        0 <= f < fi && 0 <= k2 < map.spatial_neighbor_count(
                            frontier@[f] as int,
                        ) implies dist@[#[trigger] map.spatial_neighbor(frontier@[f] as int, k2)]
                        != HOPS_INF by {
                        let i0 = frontier@[f] as int;
                        let t = map.spatial_neighbor(i0, k2);
                        assert(0 <= i0 < n);
                        assert(0 <= k2 < map.neighbors@[i0]@.len());
                        assert(t == map.neighbors@[i0]@[k2]);
                        assert(0 <= t < n);
                        assert(dist_k[t] != HOPS_INF);
                        if t == nb as int {
                            assert(dist@[t] == dist_k[t] || dist@[t] == d + 1);
                        } else {
                            assert(dist@[t] == dist_k[t]);
                        }
                    }
                    assert forall|k2: int|
                        0 <= k2 < k + 1 implies dist@[#[trigger] map.spatial_neighbor(
                        c as int,
                        k2,
                    )] != HOPS_INF by {
                        let t = map.spatial_neighbor(c as int, k2);
                        if k2 == k {
                            assert(t == nb as int);
                            assert(dist@[t] != HOPS_INF);
                        } else {
                            assert(dist_k[t] != HOPS_INF);
                            if t != nb as int {
                                assert(dist@[t] == dist_k[t]);
                            }
                        }
                    }
                }
                k = k + 1;
            }
            proof {
                assert forall|f: int, k2: int|
                    0 <= f < fi + 1 && 0 <= k2 < map.spatial_neighbor_count(
                        frontier@[f] as int,
                    ) implies dist@[#[trigger] map.spatial_neighbor(frontier@[f] as int, k2)]
                    != HOPS_INF by {
                    if f == fi {
                        assert(frontier@[f] == c);
                        assert(dist@[map.spatial_neighbor(c as int, k2)] != HOPS_INF);
                        assert(map.spatial_neighbor(frontier@[f] as int, k2)
                            == map.spatial_neighbor(c as int, k2));
                    }
                }
            }
            fi = fi + 1;
        }
        proof {
            // Every cell within d + 1 hops is now discovered.
            assert forall|c2: int|
                0 <= c2 < n && seed_reaches(map, seeds@, c2, (d + 1) as nat) implies #[trigger]
            dist@[c2] != HOPS_INF by {
                if seed_reaches(map, seeds@, c2, d as nat) {
                } else if is_seed(seeds@, c2) {
                    assert(seed_reaches(map, seeds@, c2, d as nat));
                } else {
                    let b = choose|b: int|
                        #[trigger] map.adj(c2, b) && seed_reaches(map, seeds@, b, d as nat);
                    let k1 = choose|k1: int|
                        0 <= k1 < map.neighbors@[c2]@.len() && map.neighbors@[c2]@[k1] == b;
                    assert(map.neighbors@[c2]@[k1] == b);
                    assert(dist@[b] != HOPS_INF);
                    assert(map.adj(b, c2));
                    let k2 = choose|k2: int|
                        0 <= k2 < map.neighbors@[b]@.len() && map.neighbors@[b]@[k2] == c2;
                    assert(map.spatial_neighbor(b, k2) == c2);
                    if dist_entry[b] != HOPS_INF {
                        if dist_entry[b] < d {
                            assert(dist@[#[trigger] map.spatial_neighbor(b, k2)] != HOPS_INF);
                        } else {
                            assert(dist_entry[b] == d);
                            assert(in_frontier(frontier@, b)) by {
                                if dist@[b] == d {
                                }
                            }
                            let f = choose|f: int|
                                0 <= f < frontier@.len() && #[trigger] frontier@[f] == b;
                            assert(dist@[map.spatial_neighbor(frontier@[f] as int, k2)]
                                != HOPS_INF);
                        }
                    } else {
                        assert(dist@[b] == d + 1);
                        assert(!seed_reaches(map, seeds@, b, d as nat));
                        assert(false);
                    }
                }
            }
        }
        let fl = frontier.len();
        if next.len() == 0 {
            proof {
                assert forall|a: int, k2: int|
                    0 <= a < n && dist@[a] != HOPS_INF && 0 <= k2 < map.spatial_neighbor_count(a)
                        implies dist@[#[trigger] map.spatial_neighbor(a, k2)] != HOPS_INF by {
                    if dist@[a] == d + 1 {
                        assert(dist_entry[a] == HOPS_INF);
                        assert(in_frontier(next@, a));
                        assert(false);
                    } else if dist@[a] == d {
                        assert(dist_entry[a] == d);
                        assert(in_frontier(frontier@, a)) by {
                            if dist@[a] == d {
                            }
                        }
                        let f = choose|f: int|
                            0 <= f < frontier@.len() && #[trigger] frontier@[f] == a;
                        assert(dist@[map.spatial_neighbor(frontier@[f] as int, k2)] != HOPS_INF);
                    }
                }
            }
            break;
        }
        proof {
            let w = next@[0];
            assert(d + 1 < HOPS_INF) by {
                lemma_count_inf_le(dist_entry, n as int);
            }
            assert(dist@[w as int] == d + 1 && dist@[w as int] != HOPS_INF);
            lemma_count_inf_strict(dist_entry, dist@, n as int, w as int);
            lemma_count_inf_le(dist@, n as int);
            assert forall|c2: int|
                0 <= c2 < n && #[trigger] dist@[c2] == d + 1 && dist@[c2] != HOPS_INF implies
            in_frontier(next@, c2) by {
                if dist_entry[c2] != HOPS_INF {
                    assert(dist_entry[c2] == d + 1);
                    assert(dist_entry[c2] <= d);
                    assert(false);
                }
            }
            assert forall|f: int| 0 <= f < frontier@.len() implies dist@[
            #[trigger] frontier@[f] as int] != HOPS_INF && dist@[frontier@[f] as int] < d + 1 by {
                assert(dist_entry[frontier@[f] as int] == d);
            }
        }
        proof {
            assert forall|a: int, k2: int|
                0 <= a < n && dist@[a] != HOPS_INF && dist@[a] < d + 1 && 0 <= k2
                    < map.spatial_neighbor_count(a) implies dist@[#[trigger] map.spatial_neighbor(
                a,
                k2,
            )] != HOPS_INF by {
                if dist@[a] == d {
                    assert(dist_entry[a] == d);
                    assert(in_frontier(frontier@, a)) by {
                        if dist@[a] == d {
                        }
                    }
                    let f = choose|f: int| 0 <= f < frontier@.len() && #[trigger] frontier@[f] == a;
                    assert(dist@[map.spatial_neighbor(frontier@[f] as int, k2)] != HOPS_INF);
                } else {
                    assert(dist@[a] < d);
                    assert(dist_entry[a] == dist@[a]);
                }
            }
        }
        frontier = next;
        d = d + 1;
    }
    proof {
        assert forall|c: int|
            0 <= c < n && #[trigger] dist@[c] == HOPS_INF implies !seed_reachable(
            map,
            seeds@,
            c,
        ) by {
            assert forall|k: nat| !#[trigger] seed_reaches(map, seeds@, c, k) by {
                if seed_reaches(map, seeds@, c, k) {
                    lemma_bfs_closure(map, seeds@, dist@, c, k);
                }
            }
        }
    }
    dist
}

/// The signed world-unit coastal distance of one cell: zero at the
/// shoreline itself, negative at sea, positive on land.
pub open spec fn signed_coast_spec(hops: u32, ocean: bool, unit: u64) -> int {
    if hops == 0 {
        0
    } else {
        let d = crate::height::hop_dist_spec(hops, unit);
        if ocean {
            -d
        } else {
            d
        }
    }
}

/// Sign the coastal distance field: negative for sea cells, positive for
/// land cells, zero on the shoreline.
pub fn signed_coastal_distance(hops: &Vec<u32>, is_ocean: &Vec<bool>, unit: u64) -> (r: Vec<i64>)
    requires
        is_ocean@.len() == hops@.len(),
        unit <= 1_000_000_000,
    ensures
        r@.len() == hops@.len(),
        forall|c: int| 0 <= c < hops@.len() ==> #[trigger] r@[c] == signed_coast_spec(
            hops@[c],
            is_ocean@[c],
            unit,
        ),
{
    let n = hops.len();
    let mut out: Vec<i64> = Vec::new();
    let mut c: usize = 0;
    while c < n
        invariant
            c <= n,
            hops@.len() == n,
            is_ocean@.len() == n,
            unit <= 1_000_000_000,
            out@.len() == c,
            forall|c2: int| 0 <= c2 < c ==> #[trigger] out@[c2] == signed_coast_spec(
                hops@[c2],
                is_ocean@[c2],
                unit,
            ),
        decreases n - c,
    {
        let v: i64 = if hops[c] == 0 {
            0
        } else {
            let d = crate::height::hop_dist(hops[c], unit) as i64;
            if is_ocean[c] {
                -d
            } else {
                d
            }
        };
        out.push(v);
        c = c + 1;
    }
    out
}

/// Sum of the site distances along the first `j` neighbors of cell `a`.
pub open spec fn cell_len_sum(map: &SpatialMap, a: int, j: int) -> int
    decreases j,
{
    if j <= 0 {
        0
    } else {
        let b = map.neighbors@[a]@[j - 1] as int;
        let dx = map.xs@[a] - map.xs@[b];
        let dz = map.zs@[a] - map.zs@[b];
        cell_len_sum(map, a, j - 1) + sqrt_floor(dx * dx + dz * dz)
    }
}

/// Sum of site distances over the directed adjacency lists of cells below `a`.
pub open spec fn len_sum_upto(map: &SpatialMap, a: int) -> int
    decreases a,
{
    if a <= 0 {
        0
    } else {
        len_sum_upto(map, a - 1) + cell_len_sum(map, a - 1, map.spatial_neighbor_count(a - 1))
    }
}

/// Number of directed adjacency entries of cells below `a`.
pub open spec fn adj_count_upto(map: &SpatialMap, a: int) -> int
    decreases a,
{
    if a <= 0 {
        0
    } else {
        adj_count_upto(map, a - 1) + map.spatial_neighbor_count(a - 1)
    }
}

proof fn lemma_cell_len_sum_bound(map: &SpatialMap, a: int, j: int)
    requires
        map.wf(),
        0 <= a < map.n(),
        0 <= j <= map.spatial_neighbor_count(a),
    ensures
        0 <= cell_len_sum(map, a, j) <= j * 300_000_000,
    decreases j,
{
    if j > 0 {
        lemma_cell_len_sum_bound(map, a, j - 1);
        let b = map.neighbors@[a]@[j - 1] as int;
        let dx = map.xs@[a] - map.xs@[b];
        let dz = map.zs@[a] - map.zs@[b];
        assert(0 <= dx * dx <= 40_000_000_000_000_000 && 0 <= dz * dz <= 40_000_000_000_000_000)
            by (nonlinear_arith)
            requires
                -200_000_000 <= dx <= 200_000_000,
                -200_000_000 <= dz <= 200_000_000,
        ;
        crate::geom::lemma_sqrt_floor_bounds(dx * dx + dz * dz);
        let r = sqrt_floor(dx * dx + dz * dz);
        assert(r < 300_000_000) by (nonlinear_arith)
            requires
                r >= 0,
                r * r <= 80_000_000_000_000_000,
        ;
        assert((j - 1) * 300_000_000 + 300_000_000 == j * 300_000_000) by (nonlinear_arith);
    }
}

proof fn lemma_len_sum_bound(map: &SpatialMap, a: int)
    requires
        map.wf(),
        0 <= a <= map.n(),
    ensures
        0 <= len_sum_upto(map, a) <= a * 64 * 300_000_000,
        0 <= adj_count_upto(map, a) <= a * 64,
    decreases a,
{
    if a > 0 {
        lemma_len_sum_bound(map, a - 1);
        lemma_cell_len_sum_bound(map, a - 1, map.spatial_neighbor_count(a - 1));
        assert(map.spatial_neighbor_count(a - 1) <= 64);
        assert(cell_len_sum(map, a - 1, map.spatial_neighbor_count(a - 1))
            <= map.spatial_neighbor_count(a - 1) * 300_000_000 <= 64 * 300_000_000)
            by (nonlinear_arith)
            requires
                0 <= map.spatial_neighbor_count(a - 1) <= 64,
                cell_len_sum(map, a - 1, map.spatial_neighbor_count(a - 1))
                    <= map.spatial_neighbor_count(a - 1) * 300_000_000,
        ;
        assert((a - 1) * 64 * 300_000_000 + 64 * 300_000_000 == a * 64 * 300_000_000)
            by (nonlinear_arith);
        assert((a - 1) * 64 + 64 == a * 64) by (nonlinear_arith);
    }
}

/// The mean inter-cell edge length in fixed-point world units: the sum of
/// site distances over every directed adjacent pair, divided by the number
/// of pairs; zero when the structure has no adjacency at all.
pub fn mean_edge_length(map: &SpatialMap) -> (r: u64)
    requires
        map.wf(),
    ensures
        adj_count_upto(map, map.n()) > 0 ==> r == len_sum_upto(map, map.n()) / adj_count_upto(
            map,
            map.n(),
        ),
        adj_count_upto(map, map.n()) == 0 ==> r == 0,
{
    let n = map.len();
    let mut total: u64 = 0;
    let mut count: u64 = 0;
    let mut a: usize = 0;
    while a < n
        invariant
            map.wf(),
            n == map.n(),
            a <= n,
            total == len_sum_upto(map, a as int),
            count == adj_count_upto(map, a as int),
        decreases n - a,
    {
        proof {
            lemma_len_sum_bound(map, a as int);
            lemma_cell_len_sum_bound(map, a as int, 0);
        }
        let nbs_len = map.neighbors[a].len();
        let mut k: usize = 0;
        while k < nbs_len
            invariant
                map.wf(),
                n == map.n(),
                a < n,
                k <= nbs_len,
                nbs_len == map.spatial_neighbor_count(a as int),
                total == len_sum_upto(map, a as int) + cell_len_sum(map, a as int, k as int),
                count == adj_count_upto(map, a as int) + k,
            decreases nbs_len - k,
        {
            let b = map.neighbors[a][k];
            let dx = map.xs[a] - map.xs[b];
            let dz = map.zs[a] - map.zs[b];
            let dxu: u64 = (if dx >= 0 { dx } else { -dx }) as u64;
            let dzu: u64 = (if dz >= 0 { dz } else { -dz }) as u64;
            proof {
                assert(dxu * dxu == dx * dx && dzu * dzu == dz * dz && dxu * dxu
                    <= 40_000_000_000_000_000 && dzu * dzu <= 40_000_000_000_000_000)
                    by (nonlinear_arith)
                    requires
                        dxu == (if dx >= 0 { dx as int } else { -(dx as int) }),
                        dzu == (if dz >= 0 { dz as int } else { -(dz as int) }),
                        -200_000_000 <= dx <= 200_000_000,
                        -200_000_000 <= dz <= 200_000_000,
                ;
                lemma_len_sum_bound(map, a as int);
                lemma_cell_len_sum_bound(map, a as int, k as int);
                lemma_cell_len_sum_bound(map, a as int, k + 1);
            }
            let w = isqrt(dxu * dxu + dzu * dzu);
            total = total + w;
            count = count + 1;
            k = k + 1;
        }
        a = a + 1;
    }
    if count == 0 {
        0
    } else {
        proof {
            lemma_len_sum_bound(map, n as int);
        }
        total / count
    }
}

} // verus!
