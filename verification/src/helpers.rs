//! Small shared utilities over plain associations.

use vstd::prelude::*;

verus! {

/// The keys of `pairs` mapped to value `v`, in order, among the first `k`.
pub open spec fn keys_for(pairs: Seq<(u64, u64)>, v: u64, k: int) -> Seq<u64>
    decreases k,
{
    if k <= 0 {
        Seq::empty()
    } else {
        let rest = keys_for(pairs, v, k - 1);
        if pairs[k - 1].1 == v {
            rest.push(pairs[k - 1].0)
        } else {
            rest
        }
    }
}

/// A value occurs among the first components of the entries.
pub open spec fn has_value(out: Seq<(u64, Vec<u64>)>, v: u64) -> bool {
    exists|i: int| 0 <= i < out.len() && (#[trigger] out[i]).0 == v
}

/// Some pair carries value `v`.
pub open spec fn value_from_pairs(pairs: Seq<(u64, u64)>, v: u64) -> bool {
    exists|j: int| 0 <= j < pairs.len() && (#[trigger] pairs[j]).1 == v
}

/// Invert a key-to-value association: group the keys of each value, in
/// first-occurrence order of the values, keeping key order within each
/// group.
pub fn invert_borrowed(pairs: &Vec<(u64, u64)>) -> (r: Vec<(u64, Vec<u64>)>)
    ensures
        forall|i: int|
            0 <= i < r@.len() ==> (#[trigger] r@[i]).1@ == keys_for(
                pairs@,
                r@[i].0,
                pairs@.len() as int,
            ),
        forall|i1: int, i2: int|
            0 <= i1 < i2 < r@.len() ==> (#[trigger] r@[i1]).0 != (#[trigger] r@[i2]).0,
        forall|j: int| 0 <= j < pairs@.len() ==> has_value(r@, (#[trigger] pairs@[j]).1),
        forall|i: int|
            0 <= i < r@.len() ==> value_from_pairs(pairs@, (#[trigger] r@[i]).0),
{
    let n = pairs.len();
    let mut values: Vec<u64> = Vec::new();
    let mut j: usize = 0;
    while j < n
        invariant
            j <= n,
            n == pairs@.len(),
            forall|i1: int, i2: int|
                0 <= i1 < i2 < values@.len() ==> #[trigger] values@[i1] != #[trigger] values@[i2],
            forall|j2: int|
                0 <= j2 < j ==> exists|i: int|
                    0 <= i < values@.len() && #[trigger] values@[i] == (
                    #[trigger] pairs@[j2]).1,
            forall|i: int|
                0 <= i < values@.len() ==> value_from_pairs(pairs@, #[trigger] values@[i]),
        decreases n - j,
    {
        let v = pairs[j].1;
        let mut found = false;
        let mut p: usize = 0;
        while p < values.len()
            invariant_except_break
                p <= values@.len(),
                forall|q: int| 0 <= q < p ==> #[trigger] values@[q] != v,
                !found,
            ensures
                found ==> exists|q: int| 0 <= q < values@.len() && #[trigger] values@[q] == v,
                !found ==> forall|q: int| 0 <= q < values@.len() ==> #[trigger] values@[q] != v,
            decreases values@.len() - p,
        {
            if values[p] == v {
                found = true;
                break ;
            }
            p = p + 1;
        }
        if !found {
            let ghost values0 = values@;
            values.push(v);
            proof {
                assert(values@[values@.len() - 1] == v);
                assert(value_from_pairs(pairs@, v)) by {
                    assert((pairs@[j as int]).1 == v);
                }
                assert forall|i: int|
                    0 <= i < values@.len() implies value_from_pairs(
                    pairs@,
                    #[trigger] values@[i],
                ) by {
                    if i < values0.len() {
                        assert(values@[i] == values0[i]);
                    }
                }
                assert forall|j2: int|
                    0 <= j2 < j + 1 implies exists|i: int|
                    0 <= i < values@.len() && #[trigger] values@[i] == (
                    #[trigger] pairs@[j2]).1 by {
                    if j2 < j {
                        let i = choose|i: int|
                            0 <= i < values0.len() && #[trigger] values0[i] == pairs@[j2].1;
                        assert(values@[i] == pairs@[j2].1);
                    }
                }
            }
        }
        j = j + 1;
    }
    let mut out: Vec<(u64, Vec<u64>)> = Vec::new();
    let mut i: usize = 0;
    while i < values.len()
        invariant
            i <= values@.len(),
            n == pairs@.len(),
            out@.len() == i,
            forall|i1: int, i2: int|
                0 <= i1 < i2 < values@.len() ==> #[trigger] values@[i1] != #[trigger] values@[i2],
            forall|i2: int|
                0 <= i2 < values@.len() ==> value_from_pairs(pairs@, #[trigger] values@[i2]),
            forall|i2: int| 0 <= i2 < i ==> (#[trigger] out@[i2]).0 == values@[i2],
            forall|i2: int|
                0 <= i2 < i ==> (#[trigger] out@[i2]).1@ == keys_for(
                    pairs@,
                    out@[i2].0,
                    n as int,
                ),
        decreases values@.len() - i,
    {
        let v = values[i];
        let mut ks: Vec<u64> = Vec::new();
        let mut j2: usize = 0;
        while j2 < n
            invariant
                j2 <= n,
                n == pairs@.len(),
                ks@ == keys_for(pairs@, v, j2 as int),
            decreases n - j2,
        {
            if pairs[j2].1 == v {
                ks.push(pairs[j2].0);
            }
            j2 = j2 + 1;
        }
        out.push((v, ks));
        i = i + 1;
    }
    proof {
        assert forall|j2: int| 0 <= j2 < pairs@.len() implies has_value(
            out@,
            (#[trigger] pairs@[j2]).1,
        ) by {
            let iv = choose|iv: int|
                0 <= iv < values@.len() && #[trigger] values@[iv] == pairs@[j2].1;
            assert(out@[iv].0 == pairs@[j2].1);
        }
    }
    out
}

/// The componentwise minimum and maximum of a list of fixed-point 2D
/// points: `None` only for an empty list.
pub fn min_max_componentwise(points: &Vec<(i64, i64)>) -> (r: Option<((i64, i64), (i64, i64))>)
    ensures
        match r {
            Option::None => points@.len() == 0,
            Option::Some(((min_x, min_z), (max_x, max_z))) => {
                &&& points@.len() > 0
                &&& forall|i: int|
                    0 <= i < points@.len() ==> min_x <= (#[trigger] points@[i]).0 <= max_x
                        && min_z <= points@[i].1 <= max_z
                &&& exists|i: int| 0 <= i < points@.len() && (#[trigger] points@[i]).0 == min_x
                &&& exists|i: int| 0 <= i < points@.len() && (#[trigger] points@[i]).0 == max_x
                &&& exists|i: int| 0 <= i < points@.len() && (#[trigger] points@[i]).1 == min_z
                &&& exists|i: int| 0 <= i < points@.len() && (#[trigger] points@[i]).1 == max_z
            },
        },
{
    let n = points.len();
    if n == 0 {
        return None;
    }
    let mut min_x = points[0].0;
    let mut max_x = points[0].0;
    let mut min_z = points[0].1;
    let mut max_z = points[0].1;
    let mut i: usize = 1;
    while i < n
        invariant
            n == points@.len(),
            1 <= i <= n,
            forall|j: int|
                0 <= j < i ==> min_x <= (#[trigger] points@[j]).0 <= max_x && min_z
                    <= points@[j].1 <= max_z,
            exists|j: int| 0 <= j < i && (#[trigger] points@[j]).0 == min_x,
            exists|j: int| 0 <= j < i && (#[trigger] points@[j]).0 == max_x,
            exists|j: int| 0 <= j < i && (#[trigger] points@[j]).1 == min_z,
            exists|j: int| 0 <= j < i && (#[trigger] points@[j]).1 == max_z,
        decreases n - i,
    {
        let (x, z) = points[i];
        if x < min_x {
            min_x = x;
        }
        if x > max_x {
            max_x = x;
        }
        if z < min_z {
            min_z = z;
        }
        if z > max_z {
            max_z = z;
        }
        i = i + 1;
    }
    Some(((min_x, min_z), (max_x, max_z)))
}

} // verus!
