//! Nearest-centroid assignment: for each pixel row, the centroid index
//! minimizing squared Euclidean distance, ties broken toward the lowest
//! index.

use vstd::prelude::*;

use crate::centroid::Centroid;
use crate::centroid::dist_le;
use crate::centroid::dist_lt;
use crate::centroid::lemma_dist_lt_le_trans;
use crate::centroid::lemma_sqd_num_bounds;
use crate::centroid::lemma_val_eq_same_order;
use crate::centroid::dist_lt_exec;
use crate::centroid::sqd_num;
use crate::matrix::Pixel;
use crate::matrix::PixelMatrix;

verus! {

/// Every centroid of the set is well formed.
pub open spec fn all_wf(cs: Seq<Centroid>) -> bool {
    forall|j: int| 0 <= j < cs.len() ==> (#[trigger] cs[j]).wf()
}

/// Index `i` names the nearest centroid to pixel `p` under the
/// lowest-index tie-break: no centroid is strictly closer, and every
/// centroid of a lower index is strictly farther.
pub open spec fn is_nearest(cs: Seq<Centroid>, p: Pixel, i: int) -> bool {
    &&& 0 <= i < cs.len()
    &&& forall|j: int| 0 <= j < cs.len() ==> #[trigger] dist_le(p, cs[i], cs[j])
    &&& forall|j: int| 0 <= j < i ==> #[trigger] dist_lt(p, cs[i], cs[j])
}

/// The nearest index among the first `n` centroids, with the
/// lowest-index tie-break.
pub open spec fn nearest_upto(cs: Seq<Centroid>, p: Pixel, n: int) -> int
    decreases n,
{
    if n <= 1 {
        0
    } else {
        let b = nearest_upto(cs, p, n - 1);
        if dist_lt(p, cs[n - 1], cs[b]) {
            n - 1
        } else {
            b
        }
    }
}

/// The nearest centroid index to `p` in the whole set.
pub open spec fn nearest_idx(cs: Seq<Centroid>, p: Pixel) -> int {
    nearest_upto(cs, p, cs.len() as int)
}

/// The assignment the set induces on a row sequence: row `i` goes to its
/// nearest centroid.
pub open spec fn spec_assignment(cs: Seq<Centroid>, rows: Seq<Pixel>) -> Seq<int> {
    Seq::new(rows.len(), |i: int| nearest_idx(cs, rows[i]))
}

/// Comparing a centroid with itself is never strict, so `dist_le` is
/// reflexive and `dist_lt` irreflexive.
proof fn lemma_dist_refl(p: Pixel, a: Centroid)
    ensures
        dist_le(p, a, a),
        !dist_lt(p, a, a),
{
}

/// `nearest_upto` names a nearest centroid among the first `n`.
proof fn lemma_nearest_upto_is_nearest(cs: Seq<Centroid>, p: Pixel, n: int)
    requires
        all_wf(cs),
        1 <= n <= cs.len(),
    ensures
        0 <= nearest_upto(cs, p, n) < n,
        forall|j: int| 0 <= j < n ==> #[trigger] dist_le(p, cs[nearest_upto(cs, p, n)], cs[j]),
        forall|j: int|
            0 <= j < nearest_upto(cs, p, n) ==> #[trigger] dist_lt(p, cs[nearest_upto(cs, p, n)], cs[j]),
    decreases n,
{
    let b = nearest_upto(cs, p, n);
    if n == 1 {
        lemma_dist_refl(p, cs[0]);
        assert(dist_le(p, cs[b], cs[0]));
    } else {
        let b0 = nearest_upto(cs, p, n - 1);
        lemma_nearest_upto_is_nearest(cs, p, n - 1);
        if dist_lt(p, cs[n - 1], cs[b0]) {
            assert(b == n - 1);
            assert forall|j: int| 0 <= j < b implies #[trigger] dist_lt(p, cs[b], cs[j]) by {
                lemma_dist_lt_le_trans(p, cs[n - 1], cs[b0], cs[j]);
            }
            assert forall|j: int| 0 <= j < n implies #[trigger] dist_le(p, cs[b], cs[j]) by {
                if j == n - 1 {
                    lemma_dist_refl(p, cs[b]);
                } else {
                    assert(dist_lt(p, cs[b], cs[j]));
                }
            }
        } else {
            assert(b == b0);
            assert forall|j: int| 0 <= j < n implies #[trigger] dist_le(p, cs[b], cs[j]) by {
                if j == n - 1 {
                    assert(dist_le(p, cs[b], cs[n - 1]));
                } else {
                    assert(dist_le(p, cs[b], cs[j]));
                }
            }
        }
    }
}

/// The nearest index satisfies `is_nearest`.
pub proof fn lemma_nearest_idx_is_nearest(cs: Seq<Centroid>, p: Pixel)
    requires
        all_wf(cs),
        cs.len() >= 1,
    ensures
        is_nearest(cs, p, nearest_idx(cs, p)),
{
    lemma_nearest_upto_is_nearest(cs, p, cs.len() as int);
}

/// Only one index can be nearest: the tie-break pins the assignment
/// down completely.
pub proof fn lemma_nearest_unique(cs: Seq<Centroid>, p: Pixel, i1: int, i2: int)
    requires
        is_nearest(cs, p, i1),
        is_nearest(cs, p, i2),
    ensures
        i1 == i2,
{
    if i1 < i2 {
        assert(dist_lt(p, cs[i2], cs[i1]));
        assert(dist_le(p, cs[i1], cs[i2]));
    } else if i2 < i1 {
        assert(dist_lt(p, cs[i1], cs[i2]));
        assert(dist_le(p, cs[i2], cs[i1]));
    }
}

/// With a single centroid every pixel is assigned to index 0.
pub proof fn lemma_single_centroid_assignment(cs: Seq<Centroid>, p: Pixel, i: int)
    requires
        cs.len() == 1,
        is_nearest(cs, p, i),
    ensures
        i == 0,
{
}

/// If some centroid sits exactly on the pixel, the assigned centroid
/// also sits exactly on it: zero distances are preserved by the
/// assignment, whichever index wins.
pub proof fn lemma_zero_distance_nearest(cs: Seq<Centroid>, p: Pixel, i: int, w: int)
    requires
        all_wf(cs),
        is_nearest(cs, p, i),
        0 <= w < cs.len(),
        sqd_num(p, cs[w]) == 0,
    ensures
        sqd_num(p, cs[i]) == 0,
{
    lemma_sqd_num_bounds(p, cs[i]);
    lemma_sqd_num_bounds(p, cs[w]);
    assert(dist_le(p, cs[i], cs[w]));
    let si = sqd_num(p, cs[i]);
    let (di, dw) = (cs[i].den * cs[i].den, cs[w].den * cs[w].den);
    assert(si == 0) by (nonlinear_arith)
        requires
            si * dw <= 0 * di,
            si >= 0,
            cs[w].den >= 1,
            dw == cs[w].den * cs[w].den,
    ;
}

/// A pixel that some centroid matches exactly is reproduced exactly by
/// reconstruction: its assigned centroid also matches it, so narrowing
/// that centroid's channels to bytes returns the pixel's own channels.
pub proof fn lemma_exact_match_preserved(cs: Seq<Centroid>, p: Pixel, i: int, w: int)
    requires
        all_wf(cs),
        is_nearest(cs, p, i),
        0 <= w < cs.len(),
        sqd_num(p, cs[w]) == 0,
    ensures
        cs[i].byte_of(0) == p.ch(0),
        cs[i].byte_of(1) == p.ch(1),
        cs[i].byte_of(2) == p.ch(2),
{
    lemma_zero_distance_nearest(cs, p, i, w);
    crate::centroid::lemma_zero_distance_exact_color(p, cs[i]);
}

/// Two assignment vectors that both satisfy the nearest-centroid
/// contract for the same centroid set and rows are identical: `predict`
/// is deterministic, and repeated calls agree.
pub proof fn lemma_assignment_deterministic(
    cs: Seq<Centroid>,
    rows: Seq<Pixel>,
    a1: Seq<usize>,
    a2: Seq<usize>,
)
    requires
        a1.len() == rows.len(),
        a2.len() == rows.len(),
        forall|i: int| 0 <= i < rows.len() ==> is_nearest(cs, rows[i], #[trigger] a1[i] as int),
        forall|i: int| 0 <= i < rows.len() ==> is_nearest(cs, rows[i], #[trigger] a2[i] as int),
    ensures
        a1 == a2,
{
    assert forall|i: int| 0 <= i < rows.len() implies a1[i] == a2[i] by {
        lemma_nearest_unique(cs, rows[i], a1[i] as int, a2[i] as int);
    }
    assert(a1 =~= a2);
}

/// Replacing a centroid set by a channel-value-equal one leaves every
/// pixel's nearest index unchanged.
pub proof fn lemma_val_eq_same_nearest(cs1: Seq<Centroid>, cs2: Seq<Centroid>, p: Pixel, i: int)
    requires
        all_wf(cs1),
        all_wf(cs2),
        cs1.len() == cs2.len(),
        forall|j: int| 0 <= j < cs1.len() ==> (#[trigger] cs1[j]).val_eq(cs2[j]),
        is_nearest(cs1, p, i),
    ensures
        is_nearest(cs2, p, i),
{
    assert forall|j: int| 0 <= j < cs2.len() implies #[trigger] dist_le(p, cs2[i], cs2[j]) by {
        lemma_val_eq_same_order(p, cs1[i], cs1[j], cs2[i], cs2[j]);
    }
    assert forall|j: int| 0 <= j < i implies #[trigger] dist_lt(p, cs2[i], cs2[j]) by {
        lemma_val_eq_same_order(p, cs1[i], cs1[j], cs2[i], cs2[j]);
    }
}

/// Finds the nearest centroid to one pixel.
fn nearest_one(cs: &Vec<Centroid>, p: &Pixel) -> (i: usize)
    requires
        all_wf(cs@),
        cs@.len() >= 1,
    ensures
        is_nearest(cs@, *p, i as int),
{
    let mut best: usize = 0;
    let mut t: usize = 1;
    proof {
        lemma_dist_refl(*p, cs@[0]);
    }
    while t < cs.len()
        invariant
            all_wf(cs@),
            1 <= t <= cs@.len(),
            0 <= best < t,
            forall|j: int| 0 <= j < t ==> #[trigger] dist_le(*p, cs@[best as int], cs@[j]),
            forall|j: int| 0 <= j < best ==> #[trigger] dist_lt(*p, cs@[best as int], cs@[j]),
        decreases cs@.len() - t,
    {
        if dist_lt_exec(p, &cs[t], &cs[best]) {
            proof {
                assert forall|j: int| 0 <= j < t implies #[trigger] dist_lt(*p, cs@[t as int], cs@[j]) by {
                    lemma_dist_lt_le_trans(*p, cs@[t as int], cs@[best as int], cs@[j]);
                }
                assert forall|j: int| 0 <= j < t + 1 implies #[trigger] dist_le(*p, cs@[t as int], cs@[j]) by {
                    if j == t {
                        lemma_dist_refl(*p, cs@[t as int]);
                    } else {
                        assert(dist_lt(*p, cs@[t as int], cs@[j]));
                    }
                }
            }
            best = t;
        } else {
            proof {
                assert forall|j: int| 0 <= j < t + 1 implies #[trigger] dist_le(*p, cs@[best as int], cs@[j]) by {
                    if j == t {
                        assert(dist_le(*p, cs@[best as int], cs@[t as int]));
                    } else {
                        assert(dist_le(*p, cs@[best as int], cs@[j]));
                    }
                }
            }
        }
        t = t + 1;
    }
    best
}

/// Assigns every row of the matrix to its nearest centroid. The result
/// is the unique assignment vector under the lowest-index tie-break.
pub fn assign_all(cs: &Vec<Centroid>, m: &PixelMatrix) -> (a: Vec<usize>)
    requires
        all_wf(cs@),
        cs@.len() >= 1,
    ensures
        a@.len() == m.rows@.len(),
        forall|i: int| 0 <= i < a@.len() ==> is_nearest(cs@, m.rows@[i], #[trigger] a@[i] as int),
        forall|i: int| 0 <= i < a@.len() ==> #[trigger] a@[i] < cs@.len(),
    {
    let n = m.rows.len();
    let mut a: Vec<usize> = Vec::new();
    let mut i: usize = 0;
    while i < n
        invariant
            all_wf(cs@),
            cs@.len() >= 1,
            n == m.rows@.len(),
            0 <= i <= n,
            a@.len() == i,
            forall|t: int| 0 <= t < i ==> is_nearest(cs@, m.rows@[t], #[trigger] a@[t] as int),
            forall|t: int| 0 <= t < i ==> #[trigger] a@[t] < cs@.len(),
        decreases n - i,
    {
        let idx = nearest_one(cs, &m.rows[i]);
        a.push(idx);
        i = i + 1;
    }
    a
}

} // verus!
