//! Centroid initialization: a seedable generator and a partial
//! Fisher-Yates shuffle that draws `k` distinct row indices from the
//! pixel population, so every run starts from `k` distinct points and
//! fits are reproducible from the seed.

use vstd::prelude::*;

verus! {

/// A small linear-congruential generator. It is deterministic in its
/// seed, which is what makes fits reproducible.
pub struct Lcg {
    pub state: u64,
}

impl Lcg {
    /// Starts the generator from a caller-chosen seed.
    pub fn new(seed: u64) -> (r: Lcg)
        ensures
            r.state == seed,
    {
        Lcg { state: seed }
    }

    /// Advances the generator and returns the next raw word.
    fn next(&mut self) -> (r: u64) {
        let s = ((self.state as u128) * 6364136223846793005u128 + 1442695040888963407u128);
        let out = #[verifier::truncate] (s as u64);
        self.state = out;
        out
    }

    /// Draws a value below `bound`.
    fn next_below(&mut self, bound: u64) -> (r: u64)
        requires
            bound >= 1,
        ensures
            r < bound,
    {
        self.next() % bound
    }
}

/// Some entry among the first `k` of `s` holds the value `v`.
pub open spec fn holds_value(s: Seq<usize>, k: int, v: int) -> bool {
    exists|t: int| 0 <= t < k && #[trigger] s[t] == v
}

/// The first `k` entries of `idx` are pairwise distinct values below `n`.
pub open spec fn distinct_below(idx: Seq<usize>, k: int, n: int) -> bool {
    &&& forall|t: int| 0 <= t < k ==> #[trigger] idx[t] < n
    &&& forall|t1: int, t2: int| 0 <= t1 < t2 < k ==> idx[t1] != idx[t2]
}

/// Samples `k` distinct row indices from `0..n` by a partial
/// Fisher-Yates shuffle driven by `rng`.
pub fn sample_indices(rng: &mut Lcg, k: usize, n: usize) -> (r: Vec<usize>)
    requires
        1 <= k <= n,
    ensures
        r@.len() == k,
        distinct_below(r@, k as int, n as int),
        k == n ==> forall|v: int| 0 <= v < n ==> #[trigger] holds_value(r@, k as int, v),
{
    let mut idx: Vec<usize> = Vec::new();
    let mut i: usize = 0;
    while i < n
        invariant
            0 <= i <= n,
            idx@.len() == i,
            forall|t: int| 0 <= t < i ==> #[trigger] idx@[t] == t,
        decreases n - i,
    {
        idx.push(i);
        i = i + 1;
    }
    proof {
        assert forall|v: int| 0 <= v < n implies #[trigger] holds_value(idx@, n as int, v) by {
            assert(idx@[v] == v);
        }
    }
    let mut t: usize = 0;
    while t < k
        invariant
            1 <= k <= n,
            0 <= t <= k,
            idx@.len() == n,
            forall|u: int| 0 <= u < n ==> #[trigger] idx@[u] < n,
            forall|u1: int, u2: int| 0 <= u1 < u2 < n ==> idx@[u1] != idx@[u2],
            forall|v: int| 0 <= v < n ==> #[trigger] holds_value(idx@, n as int, v),
        decreases k - t,
    {
        let rest: u64 = (n - t) as u64;
        let off = rng.next_below(rest);
        let j: usize = t + (off as usize);
        let ghost before = idx@;
        let a = idx[t];
        let b = idx[j];
        idx[t] = b;
        idx[j] = a;
        proof {
            assert forall|v: int| 0 <= v < n implies #[trigger] holds_value(idx@, n as int, v) by {
                assert(holds_value(before, n as int, v));
                let u0 = choose|u0: int| 0 <= u0 < n && #[trigger] before[u0] == v;
                if u0 == t as int {
                    assert(idx@[j as int] == v);
                } else if u0 == j as int {
                    assert(idx@[t as int] == v);
                } else {
                    assert(idx@[u0] == v);
                }
            }
        }
        t = t + 1;
    }
    let mut r: Vec<usize> = Vec::new();
    let mut s: usize = 0;
    while s < k
        invariant
            k <= n,
            idx@.len() == n,
            forall|u: int| 0 <= u < n ==> #[trigger] idx@[u] < n,
            forall|u1: int, u2: int| 0 <= u1 < u2 < n ==> idx@[u1] != idx@[u2],
            forall|v: int| 0 <= v < n ==> #[trigger] holds_value(idx@, n as int, v),
            0 <= s <= k,
            r@.len() == s,
            forall|u: int| 0 <= u < s ==> #[trigger] r@[u] == idx@[u],
        decreases k - s,
    {
        r.push(idx[s]);
        s = s + 1;
    }
    proof {
        if k == n {
            assert forall|v: int| 0 <= v < n implies #[trigger] holds_value(r@, k as int, v) by {
                assert(holds_value(idx@, n as int, v));
                let u = choose|u: int| 0 <= u < n && #[trigger] idx@[u] == v;
                assert(r@[u] == v);
            }
        }
    }
    r
}

} // verus!
