//! Randomized multi-source region growing: every cell is claimed by one of
//! the seed regions by repeated flood passes over the adjacency structure.
//!
//! Each pass reads a snapshot of the previous assignment and writes a fresh
//! one, sweeping cells in identity order, so the result is deterministic
//! for a given seed list.

use vstd::prelude::*;

use crate::spatial::SpatialMap;

verus! {

/// Generation-time structural failures.
#[derive(Clone, Copy, PartialEq, Eq, Structural, Debug)]
pub enum GrowError {
    /// The adjacency structure is disconnected from the seed set, so the
    /// flood fill cannot cover every cell.
    Disconnected,
}

/// `c` is one of the seed cells.
pub open spec fn is_seed(seeds: Seq<usize>, c: int) -> bool {
    exists|j: int| 0 <= j < seeds.len() && seeds[j] == c
}

/// `c` lies within `k` adjacency steps of some seed.
pub open spec fn seed_reaches(map: &SpatialMap, seeds: Seq<usize>, c: int, k: nat) -> bool
    decreases k,
{
    if is_seed(seeds, c) {
        true
    } else if k == 0 {
        false
    } else {
        exists|b: int| #[trigger] map.adj(c, b) && seed_reaches(map, seeds, b, (k - 1) as nat)
    }
}

/// `c` is connected to the seed set.
pub open spec fn seed_reachable(map: &SpatialMap, seeds: Seq<usize>, c: int) -> bool {
    exists|k: nat| seed_reaches(map, seeds, c, k)
}

/// `b` lies within `k` steps of `a`, stepping only onto cells already
/// claimed by region `g`.
pub open spec fn claim_reaches(
    map: &SpatialMap,
    cur: Seq<Option<usize>>,
    g: usize,
    a: int,
    b: int,
    k: nat,
) -> bool
    decreases k,
{
    if a == b {
        true
    } else if k == 0 {
        false
    } else {
        exists|m: int|
            0 <= m < map.n() && #[trigger] map.adj(a, m) && cur[m] == Option::Some(g)
                && claim_reaches(map, cur, g, m, b, (k - 1) as nat)
    }
}

/// `b` lies within `k` steps of `a`, stepping only onto cells of region
/// `g` in a total assignment.
pub open spec fn region_reaches(
    map: &SpatialMap,
    assign: Seq<usize>,
    g: usize,
    a: int,
    b: int,
    k: nat,
) -> bool
    decreases k,
{
    if a == b {
        true
    } else if k == 0 {
        false
    } else {
        exists|m: int|
            0 <= m < map.n() && #[trigger] map.adj(a, m) && assign[m] == g && region_reaches(
                map,
                assign,
                g,
                m,
                b,
                (k - 1) as nat,
            )
    }
}

/// The cell is joined to its own region's seed by a path that stays
/// within the region.
pub open spec fn region_connected_to_seed(
    map: &SpatialMap,
    assign: Seq<usize>,
    seeds: Seq<usize>,
    c: int,
) -> bool {
    exists|k: nat|
        region_reaches(map, assign, assign[c], c, seeds[assign[c] as int] as int, k)
}

/// The claimed cell is joined to its region's seed through cells of the
/// same claim.
pub open spec fn claim_connected(
    map: &SpatialMap,
    cur: Seq<Option<usize>>,
    seeds: Seq<usize>,
    c: int,
) -> bool {
    exists|k: nat|
        claim_reaches(map, cur, cur[c]->0, c, seeds[cur[c]->0 as int] as int, k)
}

/// More claimed cells never break an existing within-region path.
proof fn lemma_claim_reaches_monotone(
    map: &SpatialMap,
    cur: Seq<Option<usize>>,
    cur2: Seq<Option<usize>>,
    g: usize,
    a: int,
    b: int,
    k: nat,
)
    requires
        claim_reaches(map, cur, g, a, b, k),
        forall|m: int|
            0 <= m < map.n() && #[trigger] cur[m] == Option::Some(g) ==> cur2[m]
                == Option::Some(g),
    ensures
        claim_reaches(map, cur2, g, a, b, k),
    decreases k,
{
    if a != b && k > 0 {
        let m = choose|m: int|
            0 <= m < map.n() && #[trigger] map.adj(a, m) && cur[m] == Option::Some(g)
                && claim_reaches(map, cur, g, m, b, (k - 1) as nat);
        lemma_claim_reaches_monotone(map, cur, cur2, g, m, b, (k - 1) as nat);
        assert(cur2[m] == Option::Some(g));
    }
}

/// A within-region path over claims is one over the total assignment the
/// claims become.
proof fn lemma_claim_to_region(
    map: &SpatialMap,
    cur: Seq<Option<usize>>,
    assign: Seq<usize>,
    g: usize,
    a: int,
    b: int,
    k: nat,
)
    requires
        assign.len() == map.n(),
        forall|m: int| 0 <= m < map.n() ==> #[trigger] cur[m] == Option::Some(assign[m]),
        claim_reaches(map, cur, g, a, b, k),
    ensures
        region_reaches(map, assign, g, a, b, k),
    decreases k,
{
    if a != b && k > 0 {
        let m = choose|m: int|
            0 <= m < map.n() && #[trigger] map.adj(a, m) && cur[m] == Option::Some(g)
                && claim_reaches(map, cur, g, m, b, (k - 1) as nat);
        lemma_claim_to_region(map, cur, assign, g, m, b, (k - 1) as nat);
        assert(cur[m] == Option::Some(assign[m]));
    }
}

/// Number of assigned cells among the first `k`.
pub open spec fn count_some(s: Seq<Option<usize>>, k: int) -> int
    decreases k,
{
    if k <= 0 {
        0
    } else {
        count_some(s, k - 1) + if s[k - 1] is Some {
            1int
        } else {
            0int
        }
    }
}

proof fn lemma_count_some_le(s: Seq<Option<usize>>, k: int)
    requires
        0 <= k <= s.len(),
    ensures
        0 <= count_some(s, k) <= k,
    decreases k,
{
    if k > 0 {
        lemma_count_some_le(s, k - 1);
    }
}

/// Pointwise-monotone assignments cannot lose assigned cells, and gain one
/// whenever some cell flips from unassigned to assigned.
proof fn lemma_count_some_monotone(a: Seq<Option<usize>>, b: Seq<Option<usize>>, k: int)
    requires
        a.len() == b.len(),
        0 <= k <= a.len(),
        forall|c: int| 0 <= c < a.len() && (#[trigger] a[c]) is Some ==> b[c] == a[c],
    ensures
        count_some(a, k) <= count_some(b, k),
    decreases k,
{
    if k > 0 {
        lemma_count_some_monotone(a, b, k - 1);
    }
}

proof fn lemma_count_some_strict(a: Seq<Option<usize>>, b: Seq<Option<usize>>, k: int, w: int)
    requires
        a.len() == b.len(),
        0 <= k <= a.len(),
        forall|c: int| 0 <= c < a.len() && (#[trigger] a[c]) is Some ==> b[c] == a[c],
        0 <= w < k,
        a[w] is None,
        b[w] is Some,
    ensures
        count_some(a, k) < count_some(b, k),
    decreases k,
{
    if w == k - 1 {
        lemma_count_some_monotone(a, b, k - 1);
    } else {
        lemma_count_some_strict(a, b, k - 1, w);
    }
}

/// One flood pass: every cell already assigned in `cur` claims each of its
/// still-unassigned neighbors, first claim winning, sweeping cells in
/// identity order over the `cur` snapshot.
fn grow_pass(map: &SpatialMap, cur: &Vec<Option<usize>>) -> (r: (Vec<Option<usize>>, bool))
    requires
        map.wf(),
        cur@.len() == map.n(),
    ensures
        r.0@.len() == map.n(),
        forall|c: int| 0 <= c < map.n() && (#[trigger] cur@[c]) is Some ==> r.0@[c] == cur@[c],
        forall|c: int|
            0 <= c < map.n() && (#[trigger] cur@[c]) is None && r.0@[c] is Some ==> exists|b: int|
                0 <= b < map.n() && map.adj(b, c) && cur@[b] == r.0@[c],
        !r.1 ==> r.0@ == cur@,
        !r.1 ==> forall|a: int, k: int|
            0 <= a < map.n() && cur@[a] is Some && 0 <= k < map.spatial_neighbor_count(a)
                ==> cur@[#[trigger] map.spatial_neighbor(a, k)] is Some,
        r.1 ==> count_some(cur@, map.n()) < count_some(r.0@, map.n()),
{
    let n = map.len();
    let mut next: Vec<Option<usize>> = Vec::new();
    let mut i: usize = 0;
    while i < n
        invariant
            i <= n,
            cur@.len() == n,
            next@.len() == i,
            forall|c: int| 0 <= c < i ==> #[trigger] next@[c] == cur@[c],
        decreases n - i,
    {
        next.push(cur[i]);
        i = i + 1;
    }
    proof {
        assert(next@ =~= cur@);
    }
    let mut changed = false;
    let mut c: usize = 0;
    while c < n
        invariant
            map.wf(),
            n == map.n(),
            c <= n,
            cur@.len() == n,
            next@.len() == n,
            forall|d: int| 0 <= d < n && (#[trigger] cur@[d]) is Some ==> next@[d] == cur@[d],
            forall|d: int|
                0 <= d < n && (#[trigger] cur@[d]) is None && next@[d] is Some ==> exists|b: int|
                    0 <= b < n && map.adj(b, d) && cur@[b] == next@[d],
            !changed ==> next@ == cur@,
            changed ==> exists|d: int|
                0 <= d < n && (#[trigger] cur@[d]) is None && next@[d] is Some,
            forall|a: int, k: int|
                0 <= a < c && cur@[a] is Some && 0 <= k < map.spatial_neighbor_count(a)
                    ==> next@[#[trigger] map.spatial_neighbor(a, k)] is Some,
        decreases n - c,
    {
        if cur[c].is_some() {
            let g = cur[c];
            let nbs_len = map.neighbors[c].len();
            let mut k: usize = 0;
            while k < nbs_len
                invariant
                    map.wf(),
                    n == map.n(),
                    c < n,
                    cur@.len() == n,
                    next@.len() == n,
                    k <= nbs_len,
                    nbs_len == map.spatial_neighbor_count(c as int),
                    cur@[c as int] is Some,
                    g == cur@[c as int],
                    forall|d: int|
                        0 <= d < n && (#[trigger] cur@[d]) is Some ==> next@[d] == cur@[d],
                    forall|d: int|
                        0 <= d < n && (#[trigger] cur@[d]) is None && next@[d] is Some ==> exists|
                            b: int,
                        | 0 <= b < n && map.adj(b, d) && cur@[b] == next@[d],
                    !changed ==> next@ == cur@,
                    changed ==> exists|d: int|
                        0 <= d < n && (#[trigger] cur@[d]) is None && next@[d] is Some,
                    forall|a: int, k2: int|
                        0 <= a < c && cur@[a] is Some && 0 <= k2 < map.spatial_neighbor_count(a)
                            ==> next@[#[trigger] map.spatial_neighbor(a, k2)] is Some,
                    forall|k2: int|
                        0 <= k2 < k ==> next@[#[trigger] map.spatial_neighbor(c as int, k2)]
                            is Some,
                decreases nbs_len - k,
            {
                let nb = map.neighbors[c][k];
                if next[nb].is_none() {
                    proof {
                        assert(map.adj(c as int, nb as int));
                        assert(map.adj(nb as int, c as int));
                        assert(cur@[nb as int] is None);
                    }
                    next[nb] = g;
                    changed = true;
                    proof {
                        assert(map.spatial_neighbor(c as int, k as int) == nb as int);
                        assert(next@[nb as int] is Some);
                    }
                }
                k = k + 1;
            }
        }
        c = c + 1;
    }
    proof {
        if changed {
            let w = choose|d: int| 0 <= d < n && (#[trigger] cur@[d]) is None && next@[d] is Some;
            lemma_count_some_strict(cur@, next@, n as int, w);
        }
    }
    (next, changed)
}

impl SpatialMap {
    /// The number of neighbors of cell `a`.
    pub open spec fn spatial_neighbor_count(&self, a: int) -> int {
        self.neighbors@[a]@.len() as int
    }

    /// The `k`-th neighbor of cell `a`.
    pub open spec fn spatial_neighbor(&self, a: int, k: int) -> int {
        self.neighbors@[a]@[k] as int
    }
}

/// If the assignment is a fixpoint of the flood pass, every cell connected
/// to the seed set is assigned.
proof fn lemma_fixpoint_assigned(
    map: &SpatialMap,
    seeds: Seq<usize>,
    cur: Seq<Option<usize>>,
    c: int,
    k: nat,
)
    requires
        map.wf(),
        cur.len() == map.n(),
        0 <= c < map.n(),
        forall|j: int| 0 <= j < seeds.len() ==> cur[#[trigger] seeds[j] as int] is Some,
        forall|j: int| 0 <= j < seeds.len() ==> 0 <= #[trigger] seeds[j] < map.n(),
        forall|a: int, k2: int|
            0 <= a < map.n() && cur[a] is Some && 0 <= k2 < map.spatial_neighbor_count(a)
                ==> cur[#[trigger] map.spatial_neighbor(a, k2)] is Some,
        seed_reaches(map, seeds, c, k),
    ensures
        cur[c] is Some,
    decreases k,
{
    if is_seed(seeds, c) {
        let j = choose|j: int| 0 <= j < seeds.len() && seeds[j] == c;
        assert(cur[seeds[j] as int] is Some);
    } else {
        let b = choose|b: int| #[trigger] map.adj(c, b) && seed_reaches(map, seeds, b, (k - 1) as nat);
        let k1 = choose|k1: int|
            0 <= k1 < map.neighbors@[c]@.len() && map.neighbors@[c]@[k1] == b;
        assert(map.neighbors@[c]@[k1] == b);
        assert(0 <= b < map.n());
        lemma_fixpoint_assigned(map, seeds, cur, b, (k - 1) as nat);
        assert(map.adj(b, c));
        let k2 = choose|k2: int|
            0 <= k2 < map.neighbors@[b]@.len() && map.neighbors@[b]@[k2] == c;
        assert(map.spatial_neighbor(b, k2) == c);
        assert(cur[map.spatial_neighbor(b, k2)] is Some);
    }
}

/// Grow `seeds.len()` regions over the whole partition: produce a total
/// assignment from cells to regions in which each seed keeps its own
/// region, or report the partition disconnected. The error comes exactly
/// when some cell is out of reach of every seed.
pub fn grow_regions(map: &SpatialMap, seeds: &Vec<usize>) -> (r: Result<Vec<usize>, GrowError>)
    requires
        map.wf(),
        seeds@.len() >= 1,
        forall|j: int| 0 <= j < seeds@.len() ==> #[trigger] seeds@[j] < map.n(),
        forall|j1: int, j2: int|
            0 <= j1 < j2 < seeds@.len() ==> #[trigger] seeds@[j1] != #[trigger] seeds@[j2],
    ensures
        match r {
            Ok(assign) => {
                &&& assign@.len() == map.n()
                &&& forall|j: int|
                    0 <= j < seeds@.len() ==> assign@[#[trigger] seeds@[j] as int] == j
                &&& forall|c: int| 0 <= c < map.n() ==> #[trigger] assign@[c] < seeds@.len()
                &&& forall|c: int| 0 <= c < map.n() ==> seed_reachable(map, seeds@, c)
                &&& forall|c: int|
                    0 <= c < map.n() ==> #[trigger] region_connected_to_seed(
                        map,
                        assign@,
                        seeds@,
                        c,
                    )
            },
            Err(e) => {
                &&& e == GrowError::Disconnected
                &&& exists|c: int| 0 <= c < map.n() && !seed_reachable(map, seeds@, c)
            },
        },
{
    let n = map.len();
    let mut cur: Vec<Option<usize>> = Vec::new();
    let mut i: usize = 0;
    while i < n
        invariant
            i <= n,
            cur@.len() == i,
            forall|c: int| 0 <= c < i ==> (#[trigger] cur@[c]) is None,
        decreases n - i,
    {
        cur.push(None);
        i = i + 1;
    }
    let mut j: usize = 0;
    while j < seeds.len()
        invariant
            map.wf(),
            n == map.n(),
            cur@.len() == n,
            j <= seeds@.len(),
            forall|j2: int| 0 <= j2 < seeds@.len() ==> #[trigger] seeds@[j2] < map.n(),
            forall|j1: int, j2: int|
                0 <= j1 < j2 < seeds@.len() ==> #[trigger] seeds@[j1] != #[trigger] seeds@[j2],
            forall|j2: int|
                0 <= j2 < j ==> cur@[#[trigger] seeds@[j2] as int] == Some(j2 as usize),
            forall|c: int|
                0 <= c < n && (#[trigger] cur@[c]) is Some ==> is_seed(seeds@, c) && cur@[c]
                    is Some,
            forall|c: int|
                0 <= c < n && (#[trigger] cur@[c]) is Some ==> cur@[c]->0 < seeds@.len(),
            forall|c: int|
                0 <= c < n && (#[trigger] cur@[c]) is Some ==> seeds@[cur@[c]->0 as int] == c,
            forall|c: int|
                0 <= c < n && (#[trigger] cur@[c]) is Some ==> seed_reachable(map, seeds@, c),
            forall|c: int|
                0 <= c < n && (#[trigger] cur@[c]) is Some ==> claim_connected(
                    map,
                    cur@,
                    seeds@,
                    c,
                ),
        decreases seeds@.len() - j,
    {
        let s = seeds[j];
        cur[s] = Some(j);
        proof {
            assert(is_seed(seeds@, s as int));
            assert(seed_reaches(map, seeds@, s as int, 0nat));
            assert forall|c: int|
                0 <= c < n && (#[trigger] cur@[c]) is Some implies claim_connected(
                map,
                cur@,
                seeds@,
                c,
            ) by {
                assert(seeds@[cur@[c]->0 as int] == c);
                assert(claim_reaches(
                    map,
                    cur@,
                    cur@[c]->0,
                    c,
                    seeds@[cur@[c]->0 as int] as int,
                    0nat,
                ));
            }
        }
        j = j + 1;
    }
    loop
        invariant
            map.wf(),
            n == map.n(),
            cur@.len() == n,
            seeds@.len() >= 1,
            forall|j2: int| 0 <= j2 < seeds@.len() ==> #[trigger] seeds@[j2] < map.n(),
            forall|j1: int, j2: int|
                0 <= j1 < j2 < seeds@.len() ==> #[trigger] seeds@[j1] != #[trigger] seeds@[j2],
            forall|j2: int|
                0 <= j2 < seeds@.len() ==> cur@[#[trigger] seeds@[j2] as int] == Some(j2 as usize),
            forall|c: int|
                0 <= c < n && (#[trigger] cur@[c]) is Some ==> cur@[c]->0 < seeds@.len(),
            forall|c: int|
                0 <= c < n && (#[trigger] cur@[c]) is Some ==> seed_reachable(map, seeds@, c),
            forall|c: int|
                0 <= c < n && (#[trigger] cur@[c]) is Some ==> claim_connected(
                    map,
                    cur@,
                    seeds@,
                    c,
                ),
        ensures
            forall|j2: int|
                0 <= j2 < seeds@.len() ==> cur@[#[trigger] seeds@[j2] as int] == Some(j2 as usize),
            forall|c: int|
                0 <= c < n && (#[trigger] cur@[c]) is Some ==> cur@[c]->0 < seeds@.len(),
            forall|c: int|
                0 <= c < n && (#[trigger] cur@[c]) is Some ==> seed_reachable(map, seeds@, c),
            forall|c: int|
                0 <= c < n && (#[trigger] cur@[c]) is Some ==> claim_connected(
                    map,
                    cur@,
                    seeds@,
                    c,
                ),
            forall|a: int, k2: int|
                0 <= a < n && cur@[a] is Some && 0 <= k2 < map.spatial_neighbor_count(a)
                    ==> cur@[#[trigger] map.spatial_neighbor(a, k2)] is Some,
        decreases n - count_some(cur@, n as int),
    {
        let (next, changed) = grow_pass(map, &cur);
        if !changed {
            break;
        }
        proof {
            lemma_count_some_le(next@, n as int);
            assert forall|c: int|
                0 <= c < n && (#[trigger] next@[c]) is Some implies seed_reachable(
                map,
                seeds@,
                c,
            ) by {
                if cur@[c] is Some {
                } else {
                    let b = choose|b: int| 0 <= b < n && map.adj(b, c) && cur@[b] == next@[c];
                    assert(seed_reachable(map, seeds@, b));
                    let k = choose|k: nat| seed_reaches(map, seeds@, b, k);
                    assert(map.adj(c, b));
                    assert(seed_reaches(map, seeds@, c, k + 1));
                }
            }
            assert forall|c: int|
                0 <= c < n && (#[trigger] next@[c]) is Some implies next@[c]->0
                < seeds@.len() by {
                if cur@[c] is Some {
                } else {
                    let b = choose|b: int| 0 <= b < n && map.adj(b, c) && cur@[b] == next@[c];
                }
            }
            assert forall|c: int|
                0 <= c < n && (#[trigger] next@[c]) is Some implies claim_connected(
                map,
                next@,
                seeds@,
                c,
            ) by {
                let g = next@[c]->0;
                if cur@[c] is Some {
                    assert(claim_connected(map, cur@, seeds@, c));
                    let k = choose|k: nat|
                        claim_reaches(map, cur@, g, c, seeds@[g as int] as int, k);
                    lemma_claim_reaches_monotone(
                        map,
                        cur@,
                        next@,
                        g,
                        c,
                        seeds@[g as int] as int,
                        k,
                    );
                } else {
                    let b = choose|b: int| 0 <= b < n && map.adj(b, c) && cur@[b] == next@[c];
                    assert(claim_connected(map, cur@, seeds@, b));
                    let k = choose|k: nat|
                        claim_reaches(map, cur@, g, b, seeds@[g as int] as int, k);
                    lemma_claim_reaches_monotone(
                        map,
                        cur@,
                        next@,
                        g,
                        b,
                        seeds@[g as int] as int,
                        k,
                    );
                    assert(map.adj(c, b));
                    assert(next@[b] == Option::Some(g));
                    assert(claim_reaches(map, next@, g, c, seeds@[g as int] as int, k + 1));
                }
            }
        }
        cur = next;
    }
    let mut out: Vec<usize> = Vec::new();
    let mut c: usize = 0;
    while c < n
        invariant
            map.wf(),
            n == map.n(),
            cur@.len() == n,
            c <= n,
            out@.len() == c,
            seeds@.len() >= 1,
            forall|j2: int| 0 <= j2 < seeds@.len() ==> #[trigger] seeds@[j2] < map.n(),
            forall|j2: int|
                0 <= j2 < seeds@.len() ==> cur@[#[trigger] seeds@[j2] as int] == Some(j2 as usize),
            forall|d: int|
                0 <= d < n && (#[trigger] cur@[d]) is Some ==> cur@[d]->0 < seeds@.len(),
            forall|d: int|
                0 <= d < n && (#[trigger] cur@[d]) is Some ==> seed_reachable(map, seeds@, d),
            forall|d: int|
                0 <= d < n && (#[trigger] cur@[d]) is Some ==> claim_connected(
                    map,
                    cur@,
                    seeds@,
                    d,
                ),
            forall|a: int, k2: int|
                0 <= a < n && cur@[a] is Some && 0 <= k2 < map.spatial_neighbor_count(a)
                    ==> cur@[#[trigger] map.spatial_neighbor(a, k2)] is Some,
            forall|d: int| 0 <= d < c ==> cur@[d] == Some(#[trigger] out@[d]),
        decreases n - c,
    {
        match cur[c] {
            Some(g) => {
                out.push(g);
            },
            None => {
                proof {
                    assert forall|k: nat| !#[trigger] seed_reaches(map, seeds@, c as int, k) by {
                        if seed_reaches(map, seeds@, c as int, k) {
                            lemma_fixpoint_assigned(map, seeds@, cur@, c as int, k);
                        }
                    }
                    assert(!seed_reachable(map, seeds@, c as int));
                }
                return Err(GrowError::Disconnected);
            },
        }
        c = c + 1;
    }
    proof {
        assert forall|c2: int| 0 <= c2 < map.n() implies seed_reachable(map, seeds@, c2) by {
            assert(cur@[c2] == Some(out@[c2]));
        }
        assert forall|j2: int| 0 <= j2 < seeds@.len() implies out@[#[trigger] seeds@[j2] as int]
            == j2 by {
            assert(cur@[seeds@[j2] as int] == Some(out@[seeds@[j2] as int]));
        }
        assert forall|c2: int| 0 <= c2 < map.n() implies #[trigger] region_connected_to_seed(
            map,
            out@,
            seeds@,
            c2,
        ) by {
            assert(cur@[c2] == Some(out@[c2]));
            assert(claim_connected(map, cur@, seeds@, c2));
            let g = out@[c2];
            let k = choose|k: nat| claim_reaches(map, cur@, g, c2, seeds@[g as int] as int, k);
            assert forall|m: int| 0 <= m < map.n() implies #[trigger] cur@[m] == Option::Some(
                out@[m],
            ) by {}
            lemma_claim_to_region(map, cur@, out@, g, c2, seeds@[g as int] as int, k);
        }
    }
    Ok(out)
}

} // verus!
