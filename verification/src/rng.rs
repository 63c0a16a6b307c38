//! The seedable random source used during generation, held behind a small
//! trusted surface: uniform sampling below a bound and Bernoulli trials.
//!
//! Nothing can be promised of which value comes back, only the range every
//! outcome lies in; all generation logic is verified for every outcome.

use vstd::prelude::*;

verus! {

#[verifier::external_type_specification]
#[verifier::external_body]
pub struct ExChaCha20Rng(rand_chacha::ChaCha20Rng);

/// Relies on rand_core's `SeedableRng::seed_from_u64`: it builds a
/// deterministic generator from the seed and does not panic.
#[verifier::external_body]
pub fn rng_from_seed(seed: u64) -> (r: rand_chacha::ChaCha20Rng) {
    <rand_chacha::ChaCha20Rng as rand::SeedableRng>::seed_from_u64(seed)
}

/// Relies on rand's `RngExt::random_range` over `0..n`: it panics only on
/// an empty range and returns a value of the range.
#[verifier::external_body]
pub fn rng_below(rng: &mut rand_chacha::ChaCha20Rng, n: u64) -> (r: u64)
    requires
        n >= 1,
    ensures
        r < n,
{
    rand::RngExt::random_range(rng, 0..n)
}

/// Relies on rand's `RngExt::random_ratio`: it panics only when the ratio
/// `num / den` is no probability, and returns a Bernoulli draw.
#[verifier::external_body]
pub fn rng_ratio(rng: &mut rand_chacha::ChaCha20Rng, num: u32, den: u32) -> (r: bool)
    requires
        den >= 1,
        num <= den,
{
    rand::RngExt::random_ratio(rng, num, den)
}

/// Sample `k` distinct cells from `0 .. n` without replacement.
pub fn pick_seeds(rng: &mut rand_chacha::ChaCha20Rng, n: usize, k: usize) -> (r: Vec<usize>)
    requires
        1 <= k <= n,
        n <= 1_000_000,
    ensures
        r@.len() == k,
        forall|j: int| 0 <= j < k ==> #[trigger] r@[j] < n,
        forall|j1: int, j2: int| 0 <= j1 < j2 < k ==> #[trigger] r@[j1] != #[trigger] r@[j2],
{
    let mut pool: Vec<usize> = Vec::new();
    let mut i: usize = 0;
    while i < n
        invariant
            i <= n,
            pool@.len() == i,
            forall|j: int| 0 <= j < i ==> #[trigger] pool@[j] == j,
        decreases n - i,
    {
        pool.push(i);
        i = i + 1;
    }
    let mut out: Vec<usize> = Vec::new();
    let mut taken: usize = 0;
    while taken < k
        invariant
            taken <= k,
            k <= n,
            pool@.len() == n - taken,
            out@.len() == taken,
            forall|j: int| 0 <= j < pool@.len() ==> #[trigger] pool@[j] < n,
            forall|j: int| 0 <= j < out@.len() ==> #[trigger] out@[j] < n,
            forall|j1: int, j2: int|
                0 <= j1 < j2 < out@.len() ==> #[trigger] out@[j1] != #[trigger] out@[j2],
            forall|j1: int, j2: int|
                0 <= j1 < out@.len() && 0 <= j2 < pool@.len() ==> #[trigger] out@[j1]
                    != #[trigger] pool@[j2],
            forall|j1: int, j2: int|
                0 <= j1 < j2 < pool@.len() ==> #[trigger] pool@[j1] != #[trigger] pool@[j2],
        decreases k - taken,
    {
        let idx64 = rng_below(rng, pool.len() as u64);
        let idx = idx64 as usize;
        let ghost pool_before = pool@;
        let picked = pool.swap_remove(idx);
        proof {
            assert(picked == pool_before[idx as int]);
            assert forall|j: int| 0 <= j < pool@.len() implies exists|j2: int|
                0 <= j2 < pool_before.len() && j2 != idx && pool_before[j2] == #[trigger] pool@[j] by {
                if j == idx && idx < pool@.len() {
                    assert(pool_before[pool_before.len() - 1] == pool@[j]);
                } else {
                    assert(pool_before[j] == pool@[j]);
                }
            }
        }
        out.push(picked);
        proof {
            assert forall|j1: int, j2: int|
                0 <= j1 < out@.len() && 0 <= j2 < pool@.len() implies #[trigger] out@[j1]
                    != #[trigger] pool@[j2] by {
                let o2 = choose|o2: int|
                    0 <= o2 < pool_before.len() && o2 != idx && pool_before[o2] == pool@[j2];
                if j1 == out@.len() - 1 {
                    assert(out@[j1] == pool_before[idx as int]);
                }
            }
            assert forall|j1: int, j2: int|
                0 <= j1 < j2 < pool@.len() implies #[trigger] pool@[j1] != #[trigger] pool@[j2] by {
                if j1 == idx && idx < pool@.len() {
                    assert(pool@[j1] == pool_before[pool_before.len() - 1]);
                    assert(pool@[j2] == pool_before[j2]);
                    assert(j2 < pool_before.len() - 1);
                } else if j2 == idx && idx < pool@.len() {
                    assert(pool@[j2] == pool_before[pool_before.len() - 1]);
                    assert(pool@[j1] == pool_before[j1]);
                    assert(j1 < pool_before.len() - 1);
                } else {
                    assert(pool@[j1] == pool_before[j1]);
                    assert(pool@[j2] == pool_before[j2]);
                }
            }
        }
        taken = taken + 1;
    }
    out
}

} // verus!
