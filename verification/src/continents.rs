//! Continent assembly over the finer partition: capped region growing from
//! land and ocean seeds, coercion of hull-touching continents to ocean,
//! probabilistic promotion of isolated interior cells to single-cell
//! islands, and the union of touching continents.

use vstd::prelude::*;

use crate::rng::rng_ratio;
use crate::spatial::SpatialMap;

verus! {

/// One in `ISLAND_ODDS` unclaimed interior cells becomes an island.
pub const ISLAND_ODDS: u32 = 20;

/// Number of cells among the first `k` assigned to region `g`.
pub open spec fn region_size(r: Seq<Option<usize>>, g: int, k: int) -> int
    decreases k,
{
    if k <= 0 {
        0
    } else {
        region_size(r, g, k - 1) + if r[k - 1] == Option::Some(g as usize) {
            1int
        } else {
            0int
        }
    }
}

/// The cell lies on the hull or touches a hull cell.
pub open spec fn hullish(map: &SpatialMap, c: int) -> bool {
    map.on_hull@[c] || exists|k: int|
        0 <= k < map.spatial_neighbor_count(c) && map.on_hull@[#[trigger] map.spatial_neighbor(
            c,
            k,
        )]
}

/// One capped flood pass: an assigned cell claims each still-unassigned
/// neighbor while its region has room, first claim winning, sweeping cells
/// in identity order over the snapshot.
fn grow_capped_pass(
    map: &SpatialMap,
    cur: &Vec<Option<usize>>,
    sizes: &mut Vec<usize>,
    caps: &Vec<usize>,
) -> (r: (Vec<Option<usize>>, bool))
    requires
        map.wf(),
        cur@.len() == map.n(),
        old(sizes)@.len() == caps@.len(),
        forall|c: int|
            0 <= c < map.n() && (#[trigger] cur@[c]) is Some ==> cur@[c]->0 < caps@.len(),
        forall|g: int|
            0 <= g < caps@.len() ==> #[trigger] old(sizes)@[g] == region_size(
                cur@,
                g,
                map.n(),
            ),
    ensures
        r.0@.len() == map.n(),
        final(sizes)@.len() == caps@.len(),
        forall|c: int| 0 <= c < map.n() && (#[trigger] cur@[c]) is Some ==> r.0@[c] == cur@[c],
        forall|c: int|
            0 <= c < map.n() && (#[trigger] cur@[c]) is None && r.0@[c] is Some ==> r.0@[c]->0
                < caps@.len() && exists|b: int|
                0 <= b < map.n() && map.adj(b, c) && cur@[b] == r.0@[c],
        forall|g: int|
            0 <= g < caps@.len() ==> #[trigger] final(sizes)@[g] == region_size(
                r.0@,
                g,
                map.n(),
            ),
        forall|g: int|
            0 <= g < caps@.len() && region_size(cur@, g, map.n()) <= caps@[g]
                ==> region_size(r.0@, g, map.n()) <= caps@[g],
        !r.1 ==> r.0@ == cur@,
        !r.1 ==> forall|a: int, k: int|
            0 <= a < map.n() && cur@[a] is Some && 0 <= k < map.spatial_neighbor_count(a)
                && cur@[#[trigger] map.spatial_neighbor(a, k)] is None ==> region_size(
                cur@,
                cur@[a]->0 as int,
                map.n(),
            ) >= caps@[cur@[a]->0 as int],
        r.1 ==> count_claimed(r.0@, map.n()) > count_claimed(cur@, map.n()),
{
    let n = map.len();
    let caps_len = caps.len();
    let mut next: Vec<Option<usize>> = Vec::new();
    let mut i: usize = 0;
    while i < n
        invariant
            i <= n,
            cur@.len() == n,
            next@.len() == i,
            forall|c: int| 0 <= c < i ==> #[trigger] next@[c] == cur@[c],
        decreases n - i,
    {
        next.push(cur[i]);
        i = i + 1;
    }
    proof {
        assert(next@ =~= cur@);
        lemma_region_size_congruent(cur@, next@, n as int);
    }
    let mut changed = false;
    let mut c: usize = 0;
    while c < n
        invariant
            map.wf(),
            n == map.n(),
            c <= n,
            cur@.len() == n,
            next@.len() == n,
            sizes@.len() == caps@.len(),
            caps_len == caps@.len(),
            forall|c2: int|
                0 <= c2 < map.n() && (#[trigger] cur@[c2]) is Some ==> cur@[c2]->0 < caps@.len(),
            forall|d: int| 0 <= d < n && (#[trigger] cur@[d]) is Some ==> next@[d] == cur@[d],
            forall|d: int|
                0 <= d < n && (#[trigger] cur@[d]) is None && next@[d] is Some ==> next@[d]->0
                    < caps@.len() && exists|b: int|
                    0 <= b < n && map.adj(b, d) && cur@[b] == next@[d],
            forall|g: int|
                0 <= g < caps@.len() ==> #[trigger] sizes@[g] == region_size(next@, g, n as int),
            forall|g: int|
                0 <= g < caps@.len() && region_size(cur@, g, n as int) <= caps@[g]
                    ==> region_size(next@, g, n as int) <= caps@[g],
            !changed ==> next@ == cur@,
            changed ==> count_claimed(next@, n as int) > count_claimed(cur@, n as int),
            forall|a: int, k: int|
                0 <= a < c && cur@[a] is Some && 0 <= k < map.spatial_neighbor_count(a) ==> next@[
                    #[trigger] map.spatial_neighbor(a, k)] is Some || sizes@[cur@[a]->0 as int]
                    >= caps@[cur@[a]->0 as int],
        decreases n - c,
    {
        if cur[c].is_some() {
            let g = match cur[c] {
                Some(g0) => g0,
                None => 0,
            };
            let nbs_len = map.neighbors[c].len();
            let mut k: usize = 0;
            while k < nbs_len
                invariant
                    map.wf(),
                    n == map.n(),
                    c < n,
                    k <= nbs_len,
                    nbs_len == map.spatial_neighbor_count(c as int),
                    cur@.len() == n,
                    next@.len() == n,
                    sizes@.len() == caps@.len(),
                    caps_len == caps@.len(),
                    cur@[c as int] == Option::Some(g),
                    g < caps@.len(),
                    forall|c2: int|
                        0 <= c2 < map.n() && (#[trigger] cur@[c2]) is Some ==> cur@[c2]->0
                            < caps@.len(),
                    forall|d: int|
                        0 <= d < n && (#[trigger] cur@[d]) is Some ==> next@[d] == cur@[d],
                    forall|d: int|
                        0 <= d < n && (#[trigger] cur@[d]) is None && next@[d] is Some
                            ==> next@[d]->0 < caps@.len() && exists|b: int|
                            0 <= b < n && map.adj(b, d) && cur@[b] == next@[d],
                    forall|g2: int|
                        0 <= g2 < caps@.len() ==> #[trigger] sizes@[g2] == region_size(
                            next@,
                            g2,
                            n as int,
                        ),
                    forall|g2: int|
                        0 <= g2 < caps@.len() && region_size(cur@, g2, n as int) <= caps@[g2]
                            ==> region_size(next@, g2, n as int) <= caps@[g2],
                    !changed ==> next@ == cur@,
                    changed ==> count_claimed(next@, n as int) > count_claimed(cur@, n as int),
                    forall|a: int, k2: int|
                        0 <= a < c && cur@[a] is Some && 0 <= k2 < map.spatial_neighbor_count(a)
                            ==> next@[#[trigger] map.spatial_neighbor(a, k2)] is Some || sizes@[
                            cur@[a]->0 as int] >= caps@[cur@[a]->0 as int],
                    forall|k2: int|
                        0 <= k2 < k ==> next@[#[trigger] map.spatial_neighbor(c as int, k2)]
                            is Some || sizes@[g as int] >= caps@[g as int],
                decreases nbs_len - k,
            {
                let nb = map.neighbors[c][k];
                if next[nb].is_none() && sizes[g] < caps[g] {
                    proof {
                        assert(map.adj(c as int, nb as int)) by {
                            assert(map.neighbors@[c as int]@[k as int] == nb);
                        }
                        assert(map.adj(nb as int, c as int));
                        assert(cur@[nb as int] is None);
                        lemma_region_size_le(next@, g as int, n as int);
                    }
                    let ghost next0 = next@;
                    next[nb] = Some(g);
                    sizes[g] = sizes[g] + 1;
                    changed = true;
                    proof {
                        lemma_region_size_update(next0, nb as int, g, n as int);
                        lemma_count_claimed_update(next0, nb as int, g, n as int);
                        lemma_count_claimed_monotone_entry(cur@, next0, n as int);
                        assert forall|g2: int| 0 <= g2 < caps@.len() implies #[trigger] sizes@[g2]
                            == region_size(next@, g2, n as int) by {
                            if g2 != g as int {
                                lemma_region_size_update_other(next0, nb as int, g, g2 as usize, n as int);
                            }
                        }
                        assert forall|g2: int|
                            0 <= g2 < caps@.len() && region_size(cur@, g2, n as int) <= caps@[g2]
                            implies region_size(next@, g2, n as int) <= caps@[g2] by {
                            if g2 != g as int {
                                lemma_region_size_update_other(next0, nb as int, g, g2 as usize, n as int);
                            }
                        }
                    }
                }
                proof {
                    assert(map.spatial_neighbor(c as int, k as int) == nb as int);
                }
                k = k + 1;
            }
        }
        c = c + 1;
    }
    proof {
        if !changed {
            assert forall|a: int, k: int|
                0 <= a < map.n() && cur@[a] is Some && 0 <= k < map.spatial_neighbor_count(a)
                    && cur@[#[trigger] map.spatial_neighbor(a, k)] is None implies region_size(
                cur@,
                cur@[a]->0 as int,
                map.n(),
            ) >= caps@[cur@[a]->0 as int] by {
                assert(next@[map.spatial_neighbor(a, k)] is Some || sizes@[cur@[a]->0 as int]
                    >= caps@[cur@[a]->0 as int]);
                assert(next@ == cur@);
                assert(sizes@[cur@[a]->0 as int] == region_size(next@, cur@[a]->0 as int, n as int));
            }
        }
    }
    (next, changed)
}

/// Number of assigned cells among the first `k`.
pub open spec fn count_claimed(r: Seq<Option<usize>>, k: int) -> int
    decreases k,
{
    if k <= 0 {
        0
    } else {
        count_claimed(r, k - 1) + if r[k - 1] is Some {
            1int
        } else {
            0int
        }
    }
}

proof fn lemma_region_size_congruent(a: Seq<Option<usize>>, b: Seq<Option<usize>>, k: int)
    requires
        a =~= b,
    ensures
        forall|g: int| #[trigger] region_size(a, g, k) == region_size(b, g, k),
{
}

proof fn lemma_region_size_le(r: Seq<Option<usize>>, g: int, k: int)
    requires
        0 <= k,
    ensures
        0 <= region_size(r, g, k) <= k,
    decreases k,
{
    if k > 0 {
        lemma_region_size_le(r, g, k - 1);
    }
}

/// Assigning one more cell to `g` raises its size by one.
proof fn lemma_region_size_update(r: Seq<Option<usize>>, w: int, g: usize, k: int)
    requires
        0 <= w < r.len(),
        r[w] is None,
        0 <= k <= r.len(),
    ensures
        region_size(r.update(w, Option::Some(g)), g as int, k) == region_size(r, g as int, k)
            + if w < k {
            1int
        } else {
            0int
        },
    decreases k,
{
    if k > 0 {
        lemma_region_size_update(r, w, g, k - 1);
    }
}

/// Assigning a cell to `g` leaves other regions' sizes unchanged.
proof fn lemma_region_size_update_other(r: Seq<Option<usize>>, w: int, g: usize, g2: usize, k: int)
    requires
        0 <= w < r.len(),
        r[w] is None,
        0 <= k <= r.len(),
        g2 != g,
    ensures
        region_size(r.update(w, Option::Some(g)), g2 as int, k) == region_size(r, g2 as int, k),
    decreases k,
{
    if k > 0 {
        lemma_region_size_update_other(r, w, g, g2, k - 1);
    }
}

proof fn lemma_count_claimed_update(r: Seq<Option<usize>>, w: int, g: usize, k: int)
    requires
        0 <= w < r.len(),
        r[w] is None,
        0 <= k <= r.len(),
    ensures
        count_claimed(r.update(w, Option::Some(g)), k) == count_claimed(r, k) + if w < k {
            1int
        } else {
            0int
        },
    decreases k,
{
    if k > 0 {
        lemma_count_claimed_update(r, w, g, k - 1);
    }
}

proof fn lemma_count_claimed_monotone_entry(a: Seq<Option<usize>>, b: Seq<Option<usize>>, k: int)
    requires
        a.len() == b.len(),
        0 <= k <= a.len(),
        forall|c: int| 0 <= c < a.len() && (#[trigger] a[c]) is Some ==> b[c] == a[c],
    ensures
        count_claimed(a, k) <= count_claimed(b, k),
    decreases k,
{
    if k > 0 {
        lemma_count_claimed_monotone_entry(a, b, k - 1);
    }
}

/// Grow regions with a per-region size cap until no claim is possible:
/// each seed keeps its own region, grown regions respect their caps, and
/// cells out of reach or capped out stay unassigned, the future ocean.
pub fn grow_capped(map: &SpatialMap, seeds: &Vec<usize>, caps: &Vec<usize>) -> (r: Vec<
    Option<usize>,
>)
    requires
        map.wf(),
        seeds@.len() >= 1,
        caps@.len() == seeds@.len(),
        forall|j: int| 0 <= j < seeds@.len() ==> #[trigger] seeds@[j] < map.n(),
        forall|j1: int, j2: int|
            0 <= j1 < j2 < seeds@.len() ==> #[trigger] seeds@[j1] != #[trigger] seeds@[j2],
        forall|j: int| 0 <= j < caps@.len() ==> #[trigger] caps@[j] >= 1,
    ensures
        r@.len() == map.n(),
        forall|j: int| 0 <= j < seeds@.len() ==> r@[#[trigger] seeds@[j] as int] == Option::Some(
            j as usize,
        ),
        forall|c: int| 0 <= c < map.n() && (#[trigger] r@[c]) is Some ==> r@[c]->0 < seeds@.len(),
        forall|g: int|
            0 <= g < seeds@.len() ==> region_size(r@, g, map.n()) <= #[trigger] caps@[g],
        forall|a: int, k: int|
            0 <= a < map.n() && r@[a] is Some && 0 <= k < map.spatial_neighbor_count(a) && r@[
                #[trigger] map.spatial_neighbor(a, k)] is None ==> region_size(
                r@,
                r@[a]->0 as int,
                map.n(),
            ) >= caps@[r@[a]->0 as int],
{
    let n = map.len();
    let mut cur: Vec<Option<usize>> = Vec::new();
    let mut i: usize = 0;
    while i < n
        invariant
            i <= n,
            cur@.len() == i,
            forall|c: int| 0 <= c < i ==> (#[trigger] cur@[c]) is None,
        decreases n - i,
    {
        cur.push(None);
        i = i + 1;
    }
    let mut sizes: Vec<usize> = Vec::new();
    let mut j: usize = 0;
    while j < seeds.len()
        invariant
            map.wf(),
            n == map.n(),
            cur@.len() == n,
            j <= seeds@.len(),
            caps@.len() == seeds@.len(),
            sizes@.len() == j,
            forall|j2: int| 0 <= j2 < seeds@.len() ==> #[trigger] seeds@[j2] < map.n(),
            forall|j1: int, j2: int|
                0 <= j1 < j2 < seeds@.len() ==> #[trigger] seeds@[j1] != #[trigger] seeds@[j2],
            forall|j2: int|
                0 <= j2 < j ==> cur@[#[trigger] seeds@[j2] as int] == Option::Some(j2 as usize),
            forall|c: int|
                0 <= c < n && (#[trigger] cur@[c]) is Some ==> cur@[c]->0 < j,
            forall|c: int|
                0 <= c < n && (#[trigger] cur@[c]) is Some ==> seeds@[cur@[c]->0 as int] == c,
            forall|j2: int| 0 <= j2 < j ==> #[trigger] sizes@[j2] == region_size(
                cur@,
                j2,
                n as int,
            ),
            forall|j2: int| 0 <= j2 < j ==> #[trigger] sizes@[j2] == 1,
        decreases seeds@.len() - j,
    {
        let s = seeds[j];
        let ghost cur0 = cur@;
        proof {
            if cur@[s as int] is Some {
                let g0 = cur@[s as int]->0;
                assert(seeds@[g0 as int] == s as int && g0 < j);
                assert(false);
            }
        }
        cur[s] = Some(j);
        sizes.push(1);
        proof {
            lemma_region_size_update(cur0, s as int, j, n as int);
            assert forall|j2: int| 0 <= j2 < j + 1 implies #[trigger] sizes@[j2] == region_size(
                cur@,
                j2,
                n as int,
            ) by {
                if j2 < j {
                    lemma_region_size_update_other(cur0, s as int, j, j2 as usize, n as int);
                } else {
                    assert(region_size(cur0, j as int, n as int) == 0) by {
                        lemma_region_size_none(cur0, j, n as int, j as int);
                    }
                }
            }
        }
        j = j + 1;
    }
    proof {
        assert forall|g: int| 0 <= g < seeds@.len() implies region_size(cur@, g, n as int)
            <= #[trigger] caps@[g] by {
            assert(sizes@[g] == region_size(cur@, g, n as int));
            assert(sizes@[g] == 1);
            assert(caps@[g] >= 1);
        }
    }
    loop
        invariant
            map.wf(),
            n == map.n(),
            cur@.len() == n,
            seeds@.len() >= 1,
            caps@.len() == seeds@.len(),
            sizes@.len() == seeds@.len(),
            forall|j2: int| 0 <= j2 < seeds@.len() ==> #[trigger] seeds@[j2] < map.n(),
            forall|j2: int|
                0 <= j2 < seeds@.len() ==> cur@[#[trigger] seeds@[j2] as int] == Option::Some(
                    j2 as usize,
                ),
            forall|c: int|
                0 <= c < n && (#[trigger] cur@[c]) is Some ==> cur@[c]->0 < seeds@.len(),
            forall|j2: int| 0 <= j2 < seeds@.len() ==> #[trigger] sizes@[j2] == region_size(
                cur@,
                j2,
                n as int,
            ),
            forall|g: int|
                0 <= g < seeds@.len() ==> region_size(cur@, g, n as int) <= #[trigger] caps@[g],
        ensures
            cur@.len() == n,
            forall|j2: int|
                0 <= j2 < seeds@.len() ==> cur@[#[trigger] seeds@[j2] as int] == Option::Some(
                    j2 as usize,
                ),
            forall|c: int|
                0 <= c < n && (#[trigger] cur@[c]) is Some ==> cur@[c]->0 < seeds@.len(),
            forall|g: int|
                0 <= g < seeds@.len() ==> region_size(cur@, g, n as int) <= #[trigger] caps@[g],
            forall|a: int, k: int|
                0 <= a < map.n() && cur@[a] is Some && 0 <= k < map.spatial_neighbor_count(a)
                    && cur@[#[trigger] map.spatial_neighbor(a, k)] is None ==> region_size(
                    cur@,
                    cur@[a]->0 as int,
                    map.n(),
                ) >= caps@[cur@[a]->0 as int],
        decreases n - count_claimed(cur@, n as int),
    {
        proof {
            lemma_count_claimed_le(cur@, n as int);
        }
        let (next, changed) = grow_capped_pass(map, &cur, &mut sizes, caps);
        if !changed {
            break;
        }
        proof {
            lemma_count_claimed_le(next@, n as int);
            assert forall|c: int|
                0 <= c < n && (#[trigger] next@[c]) is Some implies next@[c]->0
                < seeds@.len() by {
                if cur@[c] is Some {
                } else {
                }
            }
            assert forall|j2: int| 0 <= j2 < seeds@.len() implies next@[
            #[trigger] seeds@[j2] as int] == Option::Some(j2 as usize) by {
                assert(cur@[seeds@[j2] as int] is Some);
            }
        }
        cur = next;
    }
    cur
}

proof fn lemma_count_claimed_le(r: Seq<Option<usize>>, k: int)
    requires
        0 <= k <= r.len(),
    ensures
        0 <= count_claimed(r, k) <= k,
    decreases k,
{
    if k > 0 {
        lemma_count_claimed_le(r, k - 1);
    }
}

/// Some cell of region `g` lies on or next to the hull.
pub open spec fn region_hullish(map: &SpatialMap, cont: Seq<Option<usize>>, g: int) -> bool {
    exists|c: int|
        0 <= c < map.n() && #[trigger] cont[c] == Option::Some(g as usize) && hullish(map, c)
}

/// Whether the cell lies on the hull or touches a hull cell.
fn is_hullish(map: &SpatialMap, c: usize) -> (r: bool)
    requires
        map.wf(),
        c < map.n(),
    ensures
        r == hullish(map, c as int),
{
    if map.on_hull[c] {
        return true;
    }
    let cnt = map.neighbors[c].len();
    let mut k: usize = 0;
    while k < cnt
        invariant
            map.wf(),
            c < map.n(),
            k <= cnt,
            cnt == map.spatial_neighbor_count(c as int),
            forall|k2: int|
                0 <= k2 < k ==> !map.on_hull@[#[trigger] map.spatial_neighbor(c as int, k2)],
        decreases cnt - k,
    {
        let nb = map.neighbors[c][k];
        proof {
            assert(map.spatial_neighbor(c as int, k as int) == nb as int);
        }
        if map.on_hull[nb] {
            return true;
        }
        k = k + 1;
    }
    false
}

/// Delete every continent that touches the hull: all its cells become
/// ocean, guaranteeing a closed landmass interior. Every other cell keeps
/// its assignment.
pub fn delete_hull_continents(
    map: &SpatialMap,
    cont: &Vec<Option<usize>>,
    region_count: usize,
) -> (r: Vec<Option<usize>>)
    requires
        map.wf(),
        cont@.len() == map.n(),
        forall|c: int|
            0 <= c < map.n() && (#[trigger] cont@[c]) is Some ==> cont@[c]->0 < region_count,
    ensures
        r@.len() == map.n(),
        forall|c: int| 0 <= c < map.n() ==> #[trigger] r@[c] == (match cont@[c] {
            Option::Some(g) => if region_hullish(map, cont@, g as int) {
                Option::<usize>::None
            } else {
                Option::Some(g)
            },
            Option::None => Option::<usize>::None,
        }),
        forall|c: int| 0 <= c < map.n() && (#[trigger] r@[c]) is Some ==> !hullish(map, c),
{
    let n = map.len();
    let mut bad: Vec<bool> = Vec::new();
    let mut g: usize = 0;
    while g < region_count
        invariant
            g <= region_count,
            bad@.len() == g,
            forall|g2: int| 0 <= g2 < g ==> !(#[trigger] bad@[g2]),
        decreases region_count - g,
    {
        bad.push(false);
        g = g + 1;
    }
    let mut i: usize = 0;
    while i < n
        invariant
            map.wf(),
            n == map.n(),
            i <= n,
            cont@.len() == n,
            bad@.len() == region_count,
            forall|c: int|
                0 <= c < map.n() && (#[trigger] cont@[c]) is Some ==> cont@[c]->0 < region_count,
            forall|g2: int|
                0 <= g2 < region_count ==> (#[trigger] bad@[g2] <==> exists|c: int|
                    0 <= c < i && #[trigger] cont@[c] == Option::Some(g2 as usize) && hullish(
                        map,
                        c,
                    )),
        decreases n - i,
    {
        let ghost bad0 = bad@;
        match cont[i] {
            Some(g0) => {
                if is_hullish(map, i) {
                    bad[g0] = true;
                }
            },
            None => {},
        }
        proof {
            assert forall|g2: int| 0 <= g2 < region_count implies (#[trigger] bad@[g2]
                <==> exists|c: int|
                0 <= c < i + 1 && #[trigger] cont@[c] == Option::Some(g2 as usize) && hullish(
                    map,
                    c,
                )) by {
                if bad@[g2] {
                    if bad0[g2] {
                        let c = choose|c: int|
                            0 <= c < i && #[trigger] cont@[c] == Option::Some(g2 as usize)
                                && hullish(map, c);
                        assert(0 <= c < i + 1 && cont@[c] == Option::Some(g2 as usize) && hullish(
                            map,
                            c,
                        ));
                    } else {
                        assert(cont@[i as int] == Option::Some(g2 as usize) && hullish(
                            map,
                            i as int,
                        ));
                    }
                } else {
                    assert(!bad0[g2]);
                }
            }
        }
        i = i + 1;
    }
    let mut out: Vec<Option<usize>> = Vec::new();
    let mut c: usize = 0;
    while c < n
        invariant
            map.wf(),
            n == map.n(),
            c <= n,
            cont@.len() == n,
            bad@.len() == region_count,
            forall|c2: int|
                0 <= c2 < map.n() && (#[trigger] cont@[c2]) is Some ==> cont@[c2]->0
                    < region_count,
            forall|g2: int|
                0 <= g2 < region_count ==> (#[trigger] bad@[g2] <==> region_hullish(
                    map,
                    cont@,
                    g2,
                )),
            out@.len() == c,
            forall|c2: int| 0 <= c2 < c ==> #[trigger] out@[c2] == (match cont@[c2] {
                Option::Some(g2) => if region_hullish(map, cont@, g2 as int) {
                    Option::<usize>::None
                } else {
                    Option::Some(g2)
                },
                Option::None => Option::<usize>::None,
            }),
        decreases n - c,
    {
        match cont[c] {
            Some(g0) => {
                if bad[g0] {
                    out.push(None);
                } else {
                    out.push(Some(g0));
                }
            },
            None => {
                out.push(None);
            },
        }
        c = c + 1;
    }
    proof {
        assert forall|c2: int| 0 <= c2 < map.n() && (#[trigger] out@[c2]) is Some implies
        !hullish(map, c2) by {
            let g2 = cont@[c2]->0;
            if hullish(map, c2) {
                assert(region_hullish(map, cont@, g2 as int)) by {
                    assert(cont@[c2] == Option::Some(g2) && hullish(map, c2));
                }
            }
        }
    }
    out
}

/// Promote unclaimed interior cells to single-cell island continents with
/// probability one in `ISLAND_ODDS`. Whatever the random draws come to:
/// claimed cells keep their continent, promoted cells were unclaimed
/// interior cells and receive fresh, distinct identities at or above
/// `next_id`.
pub fn promote_islands(
    map: &SpatialMap,
    cont: &Vec<Option<usize>>,
    next_id: usize,
    rng: &mut rand_chacha::ChaCha20Rng,
) -> (r: (Vec<Option<usize>>, usize))
    requires
        map.wf(),
        cont@.len() == map.n(),
        next_id <= 1_000_000_000,
    ensures
        r.0@.len() == map.n(),
        next_id <= r.1 <= next_id + map.n(),
        forall|c: int|
            0 <= c < map.n() && (#[trigger] cont@[c]) is Some ==> r.0@[c] == cont@[c],
        forall|c: int|
            0 <= c < map.n() && (#[trigger] cont@[c]) is None && r.0@[c] is Some ==> !hullish(
                map,
                c,
            ) && next_id <= r.0@[c]->0 < r.1,
        forall|c1: int, c2: int|
            0 <= c1 < c2 < map.n() && (#[trigger] r.0@[c1]) is Some && (#[trigger] r.0@[c2])
                is Some && cont@[c1] is None && cont@[c2] is None ==> r.0@[c1]->0 != r.0@[c2]->0,
{
    let n = map.len();
    let mut out: Vec<Option<usize>> = Vec::new();
    let mut fresh: usize = next_id;
    let mut c: usize = 0;
    while c < n
        invariant
            map.wf(),
            n == map.n(),
            n <= 1_000_000,
            c <= n,
            cont@.len() == n,
            next_id <= 1_000_000_000,
            out@.len() == c,
            next_id <= fresh <= next_id + c,
            forall|c2: int|
                0 <= c2 < c && (#[trigger] cont@[c2]) is Some ==> out@[c2] == cont@[c2],
            forall|c2: int|
                0 <= c2 < c && (#[trigger] cont@[c2]) is None && out@[c2] is Some ==> !hullish(
                    map,
                    c2,
                ) && next_id <= out@[c2]->0 < fresh,
            forall|c1: int, c2: int|
                0 <= c1 < c2 < c && (#[trigger] out@[c1]) is Some && (#[trigger] out@[c2])
                    is Some && cont@[c1] is None && cont@[c2] is None ==> out@[c1]->0
                    != out@[c2]->0,
        decreases n - c,
    {
        match cont[c] {
            Some(g0) => {
                out.push(Some(g0));
            },
            None => {
                if !is_hullish(map, c) && rng_ratio(rng, 1, ISLAND_ODDS) {
                    out.push(Some(fresh));
                    fresh = fresh + 1;
                } else {
                    out.push(None);
                }
            },
        }
        c = c + 1;
    }
    (out, fresh)
}

/// Sum of the continent identities, counting unassigned cells as zero.
pub open spec fn sum_ids(r: Seq<Option<usize>>, k: int) -> int
    decreases k,
{
    if k <= 0 {
        0
    } else {
        sum_ids(r, k - 1) + (match r[k - 1] {
            Option::Some(g) => g as int,
            Option::None => 0,
        })
    }
}

proof fn lemma_sum_ids_le(a: Seq<Option<usize>>, b: Seq<Option<usize>>, k: int)
    requires
        a.len() == b.len(),
        0 <= k <= a.len(),
        forall|c: int| 0 <= c < a.len() ==> ((#[trigger] a[c]) is Some <==> b[c] is Some),
        forall|c: int|
            0 <= c < a.len() && (#[trigger] a[c]) is Some ==> b[c]->0 <= a[c]->0,
    ensures
        sum_ids(b, k) <= sum_ids(a, k),
    decreases k,
{
    if k > 0 {
        lemma_sum_ids_le(a, b, k - 1);
    }
}

proof fn lemma_sum_ids_strict(a: Seq<Option<usize>>, b: Seq<Option<usize>>, k: int, w: int)
    requires
        a.len() == b.len(),
        0 <= k <= a.len(),
        forall|c: int| 0 <= c < a.len() ==> ((#[trigger] a[c]) is Some <==> b[c] is Some),
        forall|c: int|
            0 <= c < a.len() && (#[trigger] a[c]) is Some ==> b[c]->0 <= a[c]->0,
        0 <= w < k,
        a[w] is Some,
        b[w]->0 < a[w]->0,
    ensures
        sum_ids(b, k) < sum_ids(a, k),
    decreases k,
{
    if w == k - 1 {
        lemma_sum_ids_le(a, b, k - 1);
    } else {
        lemma_sum_ids_strict(a, b, k - 1, w);
    }
}

/// `b` lies within `k` steps of `a` along assigned (land) cells.
pub open spec fn land_reaches(
    map: &SpatialMap,
    cont: Seq<Option<usize>>,
    a: int,
    b: int,
    k: nat,
) -> bool
    decreases k,
{
    if a == b {
        true
    } else if k == 0 {
        false
    } else {
        exists|m: int|
            0 <= m < map.n() && #[trigger] map.adj(a, m) && cont[m] is Some && land_reaches(
                map,
                cont,
                m,
                b,
                (k - 1) as nat,
            )
    }
}

/// `a` and `b` belong to one touching group of assigned cells.
pub open spec fn land_connected(map: &SpatialMap, cont: Seq<Option<usize>>, a: int, b: int) -> bool {
    exists|k: nat| land_reaches(map, cont, a, b, k)
}

/// The identity `g` is the original identity of some cell in `c`'s
/// touching group.
pub open spec fn label_from_component(
    map: &SpatialMap,
    cont: Seq<Option<usize>>,
    c: int,
    g: usize,
) -> bool {
    exists|c2: int|
        0 <= c2 < map.n() && #[trigger] land_connected(map, cont, c, c2) && cont[c2]
            == Option::Some(g)
}

/// One union pass: every assigned cell takes the least identity among its
/// own and those of its assigned neighbors, reading only the snapshot.
fn unify_pass(map: &SpatialMap, cur: &Vec<Option<usize>>) -> (r: (Vec<Option<usize>>, bool))
    requires
        map.wf(),
        cur@.len() == map.n(),
    ensures
        r.0@.len() == map.n(),
        forall|c: int|
            0 <= c < map.n() ==> ((#[trigger] r.0@[c]) is Some <==> cur@[c] is Some),
        forall|c: int|
            0 <= c < map.n() && (#[trigger] cur@[c]) is Some ==> r.0@[c]->0 <= cur@[c]->0,
        forall|c: int|
            0 <= c < map.n() && (#[trigger] r.0@[c]) is Some ==> r.0@[c] == cur@[c] || exists|
                m: int,
            | 0 <= m < map.n() && #[trigger] map.adj(c, m) && cur@[m] == r.0@[c],
        !r.1 ==> r.0@ == cur@,
        !r.1 ==> forall|c: int, k: int|
            0 <= c < map.n() && cur@[c] is Some && 0 <= k < map.spatial_neighbor_count(c)
                && cur@[#[trigger] map.spatial_neighbor(c, k)] is Some ==> cur@[c]->0 <= cur@[
                map.spatial_neighbor(c, k)]->0,
        r.1 ==> sum_ids(r.0@, map.n()) < sum_ids(cur@, map.n()),
{
    let n = map.len();
    let mut next: Vec<Option<usize>> = Vec::new();
    let mut changed = false;
    let mut c: usize = 0;
    while c < n
        invariant
            map.wf(),
            n == map.n(),
            c <= n,
            cur@.len() == n,
            next@.len() == c,
            forall|c2: int| 0 <= c2 < c ==> ((#[trigger] next@[c2]) is Some <==> cur@[c2] is Some),
            forall|c2: int|
                0 <= c2 < c && (#[trigger] cur@[c2]) is Some ==> next@[c2]->0 <= cur@[c2]->0,
            forall|c2: int|
                0 <= c2 < c && (#[trigger] next@[c2]) is Some ==> next@[c2] == cur@[c2] || exists|
                    m: int,
                | 0 <= m < map.n() && #[trigger] map.adj(c2, m) && cur@[m] == next@[c2],
            !changed ==> forall|c2: int| 0 <= c2 < c ==> #[trigger] next@[c2] == cur@[c2],
            changed ==> exists|c2: int|
                0 <= c2 < c && (#[trigger] cur@[c2]) is Some && next@[c2]->0 < cur@[c2]->0,
            !changed ==> forall|c2: int, k: int|
                0 <= c2 < c && cur@[c2] is Some && 0 <= k < map.spatial_neighbor_count(c2)
                    && cur@[#[trigger] map.spatial_neighbor(c2, k)] is Some ==> cur@[c2]->0
                    <= cur@[map.spatial_neighbor(c2, k)]->0,
        decreases n - c,
    {
        match cur[c] {
            None => {
                next.push(None);
            },
            Some(g0) => {
                let mut m: usize = g0;
                let cnt = map.neighbors[c].len();
                let mut k: usize = 0;
                while k < cnt
                    invariant
                        map.wf(),
                        n == map.n(),
                        c < n,
                        k <= cnt,
                        cnt == map.spatial_neighbor_count(c as int),
                        cur@.len() == n,
                        cur@[c as int] == Option::Some(g0),
                        m <= g0,
                        forall|k2: int|
                            0 <= k2 < k && cur@[#[trigger] map.spatial_neighbor(c as int, k2)]
                                is Some ==> m <= cur@[map.spatial_neighbor(c as int, k2)]->0,
                        m == g0 || exists|k2: int|
                            0 <= k2 < k && cur@[#[trigger] map.spatial_neighbor(c as int, k2)]
                                == Option::Some(m),
                    decreases cnt - k,
                {
                    let nb = map.neighbors[c][k];
                    proof {
                        assert(map.spatial_neighbor(c as int, k as int) == nb as int);
                    }
                    match cur[nb] {
                        Some(gn) => {
                            if gn < m {
                                m = gn;
                            }
                        },
                        None => {},
                    }
                    k = k + 1;
                }
                if m < g0 {
                    changed = true;
                    proof {
                        let k2 = choose|k2: int|
                            0 <= k2 < map.spatial_neighbor_count(c as int)
                                && cur@[#[trigger] map.spatial_neighbor(c as int, k2)]
                                == Option::Some(m);
                        let mm = map.spatial_neighbor(c as int, k2);
                        assert(map.neighbors@[c as int]@[k2] == mm && 0 <= mm < map.n());
                        assert(map.adj(c as int, mm));
                    }
                }
                next.push(Some(m));
            },
        }
        c = c + 1;
    }
    proof {
        if changed {
            let w = choose|c2: int|
                0 <= c2 < n && (#[trigger] cur@[c2]) is Some && next@[c2]->0 < cur@[c2]->0;
            lemma_sum_ids_strict(cur@, next@, n as int, w);
        }
        if !changed {
            assert(next@ =~= cur@);
        }
    }
    (next, changed)
}

/// Union touching continents: repeat least-identity passes until no two
/// adjacent assigned cells disagree. Which cells are assigned never
/// changes; identities are only relabeled downward, and every final
/// identity is the original identity of some cell in the same touching
/// group, so continents that never touch are never merged.
pub fn unify_touching(map: &SpatialMap, cont: &Vec<Option<usize>>) -> (r: Vec<Option<usize>>)
    requires
        map.wf(),
        cont@.len() == map.n(),
    ensures
        r@.len() == map.n(),
        forall|c: int| 0 <= c < map.n() ==> ((#[trigger] r@[c]) is Some <==> cont@[c] is Some),
        forall|c: int, k: int|
            0 <= c < map.n() && r@[c] is Some && 0 <= k < map.spatial_neighbor_count(c) && r@[
                #[trigger] map.spatial_neighbor(c, k)] is Some ==> r@[c]->0 == r@[
                map.spatial_neighbor(c, k)]->0,
        forall|c: int|
            0 <= c < map.n() && (#[trigger] r@[c]) is Some ==> label_from_component(
                map,
                cont@,
                c,
                r@[c]->0,
            ),
{
    let n = map.len();
    let mut cur: Vec<Option<usize>> = Vec::new();
    let mut i: usize = 0;
    while i < n
        invariant
            i <= n,
            cont@.len() == n,
            cur@.len() == i,
            forall|c: int| 0 <= c < i ==> #[trigger] cur@[c] == cont@[c],
        decreases n - i,
    {
        cur.push(cont[i]);
        i = i + 1;
    }
    proof {
        assert forall|c: int|
            0 <= c < n && (#[trigger] cur@[c]) is Some implies label_from_component(
            map,
            cont@,
            c,
            cur@[c]->0,
        ) by {
            assert(land_reaches(map, cont@, c, c, 0nat));
            assert(land_connected(map, cont@, c, c));
            assert(cont@[c] == Option::Some(cur@[c]->0));
        }
    }
    loop
        invariant
            map.wf(),
            n == map.n(),
            cur@.len() == n,
            cont@.len() == n,
            forall|c: int|
                0 <= c < map.n() ==> ((#[trigger] cur@[c]) is Some <==> cont@[c] is Some),
            forall|c: int|
                0 <= c < map.n() && (#[trigger] cur@[c]) is Some ==> label_from_component(
                    map,
                    cont@,
                    c,
                    cur@[c]->0,
                ),
        ensures
            cur@.len() == n,
            forall|c: int|
                0 <= c < map.n() ==> ((#[trigger] cur@[c]) is Some <==> cont@[c] is Some),
            forall|c: int|
                0 <= c < map.n() && (#[trigger] cur@[c]) is Some ==> label_from_component(
                    map,
                    cont@,
                    c,
                    cur@[c]->0,
                ),
            forall|c: int, k: int|
                0 <= c < map.n() && cur@[c] is Some && 0 <= k < map.spatial_neighbor_count(c)
                    && cur@[#[trigger] map.spatial_neighbor(c, k)] is Some ==> cur@[c]->0 <= cur@[
                    map.spatial_neighbor(c, k)]->0,
        decreases sum_ids(cur@, n as int),
    {
        proof {
            lemma_sum_ids_nonneg(cur@, n as int);
        }
        let (next, changed) = unify_pass(map, &cur);
        if !changed {
            break;
        }
        let ghost cur_prev = cur@;
        cur = next;
        proof {
            lemma_sum_ids_nonneg(cur@, n as int);
            assert forall|c: int|
                0 <= c < n && (#[trigger] cur@[c]) is Some implies label_from_component(
                map,
                cont@,
                c,
                cur@[c]->0,
            ) by {
                if cur@[c] == cur_prev[c] {
                } else {
                    let m = choose|m: int|
                        0 <= m < map.n() && #[trigger] map.adj(c, m) && cur_prev[m] == cur@[c];
                    assert(label_from_component(map, cont@, m, cur_prev[m]->0));
                    let c2 = choose|c2: int|
                        0 <= c2 < map.n() && #[trigger] land_connected(map, cont@, m, c2)
                            && cont@[c2] == Option::Some(cur_prev[m]->0);
                    let k = choose|k: nat| #[trigger] land_reaches(map, cont@, m, c2, k);
                    assert(cont@[m] is Some);
                    assert(land_reaches(map, cont@, c, c2, k + 1));
                    assert(land_connected(map, cont@, c, c2));
                }
            }
        }
    }
    proof {
        assert forall|c: int, k: int|
            0 <= c < map.n() && cur@[c] is Some && 0 <= k < map.spatial_neighbor_count(c) && cur@[
                #[trigger] map.spatial_neighbor(c, k)] is Some implies cur@[c]->0 == cur@[
            map.spatial_neighbor(c, k)]->0 by {
            let b = map.spatial_neighbor(c, k);
            assert(map.neighbors@[c]@[k] == b && 0 <= b < map.n());
            assert(map.adj(c, b));
            assert(map.adj(b, c));
            let k2 = choose|k2: int|
                0 <= k2 < map.neighbors@[b]@.len() && map.neighbors@[b]@[k2] == c;
            assert(map.spatial_neighbor(b, k2) == c);
            assert(cur@[b]->0 <= cur@[map.spatial_neighbor(b, k2)]->0);
        }
    }
    cur
}

proof fn lemma_sum_ids_nonneg(r: Seq<Option<usize>>, k: int)
    requires
        0 <= k,
    ensures
        sum_ids(r, k) >= 0,
    decreases k,
{
    if k > 0 {
        lemma_sum_ids_nonneg(r, k - 1);
    }
}

/// A region above every assigned value has size zero.
proof fn lemma_region_size_none(r: Seq<Option<usize>>, g: usize, k: int, bound: int)
    requires
        0 <= k <= r.len(),
        forall|c: int| 0 <= c < r.len() && (#[trigger] r[c]) is Some ==> r[c]->0 < bound,
        bound <= g,
    ensures
        region_size(r, g as int, k) == 0,
    decreases k,
{
    if k > 0 {
        lemma_region_size_none(r, g, k - 1, bound);
    }
}

} // verus!
