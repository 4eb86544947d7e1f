//! Per-cluster statistics of an assignment, and the centroid update
//! step: every cluster that received pixels gets the exact mean of their
//! channels; an empty cluster keeps its previous centroid.

use vstd::prelude::*;

use crate::assign::all_wf;
use crate::centroid::Centroid;
use crate::matrix::MAX_PIXELS;
use crate::matrix::Pixel;
use crate::matrix::PixelMatrix;

verus! {

/// An assignment vector as a sequence of mathematical integers.
pub open spec fn as_ints(a: Seq<usize>) -> Seq<int> {
    a.map_values(|u: usize| u as int)
}

/// How many of the first `n` rows are assigned to cluster `j`.
pub open spec fn count_upto(a: Seq<int>, j: int, n: int) -> int
    decreases n,
{
    if n <= 0 {
        0
    } else {
        count_upto(a, j, n - 1) + if a[n - 1] == j {
            1int
        } else {
            0int
        }
    }
}

/// Size of cluster `j` under assignment `a`.
pub open spec fn cluster_count(a: Seq<int>, j: int) -> int {
    count_upto(a, j, a.len() as int)
}

/// Channel-`ch` sum over the first `n` rows assigned to cluster `j`.
pub open spec fn sum_upto(rows: Seq<Pixel>, a: Seq<int>, j: int, ch: int, n: int) -> int
    decreases n,
{
    if n <= 0 {
        0
    } else {
        sum_upto(rows, a, j, ch, n - 1) + if a[n - 1] == j {
            rows[n - 1].ch(ch)
        } else {
            0int
        }
    }
}

/// Channel-`ch` sum of the pixels assigned to cluster `j`.
pub open spec fn cluster_sum(rows: Seq<Pixel>, a: Seq<int>, j: int, ch: int) -> int {
    sum_upto(rows, a, j, ch, a.len() as int)
}

/// Centroid `c` is exactly the arithmetic mean of the pixels assigned
/// to cluster `j`, carried as channel sums over the cluster size.
pub open spec fn mean_entry(c: Centroid, rows: Seq<Pixel>, a: Seq<int>, j: int) -> bool {
    &&& c.den == cluster_count(a, j)
    &&& c.num(0) == cluster_sum(rows, a, j, 0)
    &&& c.num(1) == cluster_sum(rows, a, j, 1)
    &&& c.num(2) == cluster_sum(rows, a, j, 2)
}

/// Entry `j` of the centroid set is the exact mean of cluster `j`.
pub open spec fn is_exact_mean_of(cs: Seq<Centroid>, rows: Seq<Pixel>, a: Seq<int>, j: int) -> bool {
    mean_entry(cs[j], rows, a, j)
}

/// A prefix count never decreases as the prefix grows, and never drops
/// below zero.
pub proof fn lemma_count_mono(a: Seq<int>, j: int, n1: int, n2: int)
    requires
        0 <= n1 <= n2 <= a.len(),
    ensures
        0 <= count_upto(a, j, n1) <= count_upto(a, j, n2),
    decreases n1 + n2,
{
    if n1 > 0 {
        lemma_count_mono(a, j, n1 - 1, n1 - 1);
    }
    if n2 > n1 {
        lemma_count_mono(a, j, n1, n2 - 1);
    }
}

/// A cluster holding at least one row has a positive size.
pub proof fn lemma_member_count(a: Seq<int>, j: int, i: int)
    requires
        0 <= i < a.len(),
        a[i] == j,
    ensures
        cluster_count(a, j) >= 1,
{
    lemma_count_mono(a, j, i, i);
    assert(count_upto(a, j, i + 1) == count_upto(a, j, i) + 1);
    lemma_count_mono(a, j, i + 1, a.len() as int);
}

/// A cluster of positive size holds at least one row.
pub proof fn lemma_count_member(a: Seq<int>, j: int, n: int)
    requires
        0 <= n <= a.len(),
        count_upto(a, j, n) >= 1,
    ensures
        exists|i: int| 0 <= i < n && #[trigger] a[i] == j,
    decreases n,
{
    if n > 0 {
        if a[n - 1] == j {
            assert(0 <= n - 1 < n && a[n - 1] == j);
        } else {
            lemma_count_member(a, j, n - 1);
        }
    }
}

/// Channel-`ch` sum of the first `n` rows, over the whole population.
pub open spec fn total_upto(rows: Seq<Pixel>, ch: int, n: int) -> int
    decreases n,
{
    if n <= 0 {
        0
    } else {
        total_upto(rows, ch, n - 1) + rows[n - 1].ch(ch)
    }
}

/// Channel-`ch` sum of the whole pixel population.
pub open spec fn channel_total(rows: Seq<Pixel>, ch: int) -> int {
    total_upto(rows, ch, rows.len() as int)
}

/// Under the all-zero assignment, cluster 0 holds every row: its size is
/// the population size and its sums are the population totals.
pub proof fn lemma_all_zero_stats(rows: Seq<Pixel>, a: Seq<int>, ch: int, n: int)
    requires
        a.len() == rows.len(),
        0 <= n <= rows.len(),
        forall|i: int| 0 <= i < a.len() ==> #[trigger] a[i] == 0,
    ensures
        count_upto(a, 0, n) == n,
        sum_upto(rows, a, 0, ch, n) == total_upto(rows, ch, n),
    decreases n,
{
    if n > 0 {
        lemma_all_zero_stats(rows, a, ch, n - 1);
    }
}

/// In a cluster whose pixels all carry one color, the exact mean is that
/// color: the channel sums are the cluster size times the color's
/// channels, so the centroid sits exactly on the color and narrowing by
/// truncation returns it unchanged.
pub proof fn lemma_pure_cluster_exact(
    rows: Seq<Pixel>,
    a: Seq<int>,
    j: int,
    v: Pixel,
    c: Centroid,
)
    requires
        a.len() == rows.len(),
        forall|i: int| 0 <= i < rows.len() && a[i] == j ==> #[trigger] rows[i] == v,
        cluster_count(a, j) >= 1,
        c.den == cluster_count(a, j),
        c.num(0) == cluster_sum(rows, a, j, 0),
        c.num(1) == cluster_sum(rows, a, j, 1),
        c.num(2) == cluster_sum(rows, a, j, 2),
    ensures
        c.num(0) == v.ch(0) * c.den,
        c.num(1) == v.ch(1) * c.den,
        c.num(2) == v.ch(2) * c.den,
        c.byte_of(0) == v.ch(0),
        c.byte_of(1) == v.ch(1),
        c.byte_of(2) == v.ch(2),
{
    lemma_pure_prefix(rows, a, j, v, 0, rows.len() as int);
    lemma_pure_prefix(rows, a, j, v, 1, rows.len() as int);
    lemma_pure_prefix(rows, a, j, v, 2, rows.len() as int);
    let d = c.den as int;
    assert forall|ch: int| 0 <= ch < 3 implies (v.ch(ch) * d) / d == v.ch(ch) by {
        vstd::arithmetic::div_mod::lemma_div_by_multiple(v.ch(ch), d);
    }
    assert(c.byte_of(0) == (v.ch(0) * d) / d);
    assert(c.byte_of(1) == (v.ch(1) * d) / d);
    assert(c.byte_of(2) == (v.ch(2) * d) / d);
}

/// Prefix form of the single-color sum: over the first `n` rows, the
/// channel sum of cluster `j` is its prefix count times the color's
/// channel.
proof fn lemma_pure_prefix(rows: Seq<Pixel>, a: Seq<int>, j: int, v: Pixel, ch: int, n: int)
    requires
        a.len() == rows.len(),
        0 <= n <= rows.len(),
        forall|i: int| 0 <= i < rows.len() && a[i] == j ==> #[trigger] rows[i] == v,
    ensures
        sum_upto(rows, a, j, ch, n) == v.ch(ch) * count_upto(a, j, n),
    decreases n,
{
    if n > 0 {
        lemma_pure_prefix(rows, a, j, v, ch, n - 1);
        let c0 = count_upto(a, j, n - 1);
        if a[n - 1] == j {
            assert(v.ch(ch) * (c0 + 1) == v.ch(ch) * c0 + v.ch(ch)) by (nonlinear_arith);
        }
    }
}

/// Cluster sizes and sums stay within the byte-value envelope: a prefix
/// count is at most the prefix length, and a prefix sum at most 255
/// times the prefix count.
proof fn lemma_stats_bounds(rows: Seq<Pixel>, a: Seq<int>, j: int, ch: int, n: int)
    requires
        a.len() == rows.len(),
        0 <= n <= rows.len(),
    ensures
        0 <= count_upto(a, j, n) <= n,
        0 <= sum_upto(rows, a, j, ch, n) <= 255 * count_upto(a, j, n),
    decreases n,
{
    if n > 0 {
        lemma_stats_bounds(rows, a, j, ch, n - 1);
    }
}

/// Recomputes all centroids from an assignment: a cluster that received
/// at least one pixel becomes the exact mean of its pixels; an empty
/// cluster keeps its previous centroid, so no cluster ever collapses.
pub fn update_centroids(m: &PixelMatrix, a: &Vec<usize>, prev: &Vec<Centroid>) -> (r: Vec<Centroid>)
    requires
        m.wf(),
        a@.len() == m.rows@.len(),
        forall|i: int| 0 <= i < a@.len() ==> #[trigger] a@[i] < prev@.len(),
        all_wf(prev@),
        prev@.len() >= 1,
    ensures
        r@.len() == prev@.len(),
        all_wf(r@),
        forall|j: int|
            0 <= j < r@.len() && cluster_count(as_ints(a@), j) == 0 ==> #[trigger] r@[j] == prev@[j],
        forall|j: int|
            0 <= j < r@.len() && cluster_count(as_ints(a@), j) >= 1 ==> #[trigger] is_exact_mean_of(
                r@,
                m.rows@,
                as_ints(a@),
                j,
            ),
{
    let k = prev.len();
    let n = m.rows.len();
    let am = Ghost(as_ints(a@));
    let mut counts: Vec<u64> = Vec::new();
    let mut sr: Vec<u64> = Vec::new();
    let mut sg: Vec<u64> = Vec::new();
    let mut sb: Vec<u64> = Vec::new();
    let mut j: usize = 0;
    while j < k
        invariant
            0 <= j <= k,
            counts@.len() == j,
            sr@.len() == j,
            sg@.len() == j,
            sb@.len() == j,
            forall|t: int| 0 <= t < j ==> #[trigger] counts@[t] == 0,
            forall|t: int| 0 <= t < j ==> #[trigger] sr@[t] == 0,
            forall|t: int| 0 <= t < j ==> #[trigger] sg@[t] == 0,
            forall|t: int| 0 <= t < j ==> #[trigger] sb@[t] == 0,
        decreases k - j,
    {
        counts.push(0);
        sr.push(0);
        sg.push(0);
        sb.push(0);
        j = j + 1;
    }
    let mut i: usize = 0;
    while i < n
        invariant
            m.wf(),
            am@ == as_ints(a@),
            n == m.rows@.len(),
            a@.len() == n,
            n <= MAX_PIXELS,
            forall|t: int| 0 <= t < a@.len() ==> #[trigger] a@[t] < k,
            0 <= i <= n,
            counts@.len() == k && sr@.len() == k && sg@.len() == k && sb@.len() == k,
            forall|t: int| 0 <= t < k ==> #[trigger] counts@[t] == count_upto(am@, t, i as int),
            forall|t: int| 0 <= t < k ==> #[trigger] sr@[t] == sum_upto(m.rows@, am@, t, 0, i as int),
            forall|t: int| 0 <= t < k ==> #[trigger] sg@[t] == sum_upto(m.rows@, am@, t, 1, i as int),
            forall|t: int| 0 <= t < k ==> #[trigger] sb@[t] == sum_upto(m.rows@, am@, t, 2, i as int),
            forall|t: int| 0 <= t < k ==> #[trigger] counts@[t] <= i,
            forall|t: int| 0 <= t < k ==> #[trigger] sr@[t] <= 255 * counts@[t],
            forall|t: int| 0 <= t < k ==> #[trigger] sg@[t] <= 255 * counts@[t],
            forall|t: int| 0 <= t < k ==> #[trigger] sb@[t] <= 255 * counts@[t],
        decreases n - i,
    {
        let ji = a[i];
        let p = m.rows[i];
        proof {
            assert(am@[i as int] == ji as int);
            assert(counts@[ji as int] <= i);
            assert(255 * (counts@[ji as int] + 1) == 255 * counts@[ji as int] + 255);
        }
        counts[ji] = counts[ji] + 1;
        sr[ji] = sr[ji] + (p.r as u64);
        sg[ji] = sg[ji] + (p.g as u64);
        sb[ji] = sb[ji] + (p.b as u64);
        i = i + 1;
        proof {
            assert forall|t: int| 0 <= t < k implies #[trigger] counts@[t] == count_upto(
                am@,
                t,
                i as int,
            ) by {
                assert(count_upto(am@, t, i as int) == count_upto(am@, t, i as int - 1) + if am@[i
                    as int - 1] == t {
                    1int
                } else {
                    0int
                });
            }
            assert forall|t: int|
                0 <= t < k implies #[trigger] sr@[t] == sum_upto(m.rows@, am@, t, 0, i as int)
                && #[trigger] sg@[t] == sum_upto(m.rows@, am@, t, 1, i as int) && #[trigger] sb@[t]
                == sum_upto(m.rows@, am@, t, 2, i as int) by {
                assert(sum_upto(m.rows@, am@, t, 0, i as int) == sum_upto(
                    m.rows@,
                    am@,
                    t,
                    0,
                    i as int - 1,
                ) + if am@[i as int - 1] == t {
                    m.rows@[i as int - 1].ch(0)
                } else {
                    0int
                });
                assert(sum_upto(m.rows@, am@, t, 1, i as int) == sum_upto(
                    m.rows@,
                    am@,
                    t,
                    1,
                    i as int - 1,
                ) + if am@[i as int - 1] == t {
                    m.rows@[i as int - 1].ch(1)
                } else {
                    0int
                });
                assert(sum_upto(m.rows@, am@, t, 2, i as int) == sum_upto(
                    m.rows@,
                    am@,
                    t,
                    2,
                    i as int - 1,
                ) + if am@[i as int - 1] == t {
                    m.rows@[i as int - 1].ch(2)
                } else {
                    0int
                });
            }
        }
    }
    let mut r: Vec<Centroid> = Vec::new();
    let mut j2: usize = 0;
    while j2 < k
        invariant
            am@ == as_ints(a@),
            a@.len() == m.rows@.len(),
            prev@.len() == k,
            all_wf(prev@),
            n == m.rows@.len() && n <= MAX_PIXELS,
            counts@.len() == k && sr@.len() == k && sg@.len() == k && sb@.len() == k,
            forall|t: int| 0 <= t < k ==> #[trigger] counts@[t] == cluster_count(am@, t),
            forall|t: int| 0 <= t < k ==> #[trigger] sr@[t] == cluster_sum(m.rows@, am@, t, 0),
            forall|t: int| 0 <= t < k ==> #[trigger] sg@[t] == cluster_sum(m.rows@, am@, t, 1),
            forall|t: int| 0 <= t < k ==> #[trigger] sb@[t] == cluster_sum(m.rows@, am@, t, 2),
            forall|t: int| 0 <= t < k ==> #[trigger] counts@[t] <= n,
            forall|t: int| 0 <= t < k ==> #[trigger] sr@[t] <= 255 * counts@[t],
            forall|t: int| 0 <= t < k ==> #[trigger] sg@[t] <= 255 * counts@[t],
            forall|t: int| 0 <= t < k ==> #[trigger] sb@[t] <= 255 * counts@[t],
            0 <= j2 <= k,
            r@.len() == j2,
            all_wf(r@),
            forall|t: int|
                0 <= t < j2 && cluster_count(am@, t) == 0 ==> #[trigger] r@[t] == prev@[t],
            forall|t: int|
                0 <= t < j2 && cluster_count(am@, t) >= 1 ==> mean_entry(
                    #[trigger] r@[t],
                    m.rows@,
                    am@,
                    t,
                ),
        decreases k - j2,
    {
        let c = counts[j2];
        if c == 0 {
            r.push(prev[j2]);
        } else {
            let nc = Centroid { nr: sr[j2], ng: sg[j2], nb: sb[j2], den: c };
            proof {
                assert(nc.wf());
            }
            r.push(nc);
        }
        j2 = j2 + 1;
    }
    r
}

} // verus!
