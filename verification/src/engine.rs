//! The k-means engine: Lloyd's algorithm over the pixel matrix.
//!
//! `train` alternates nearest-centroid assignment with the exact-mean
//! update until no centroid moves (the movement tolerance is zero: with
//! exact rational centroids, "below tolerance" is exact equality of the
//! channel values) or the iteration cap is reached. A cluster that
//! receives no pixels keeps its previous centroid, so `k` stays constant
//! for the whole run. Ties in distance go to the lowest centroid index.

use vstd::prelude::*;

use crate::KmError;
use crate::assign::all_wf;
use crate::assign::assign_all;
use crate::assign::is_nearest;
use crate::assign::lemma_nearest_idx_is_nearest;
use crate::assign::lemma_nearest_unique;
use crate::assign::lemma_val_eq_same_nearest;
use crate::assign::nearest_idx;
use crate::assign::spec_assignment;
use crate::centroid::Centroid;
use crate::centroid::sqd_num;
use crate::centroid::val_eq_exec;
use crate::cluster::as_ints;
use crate::cluster::channel_total;
use crate::cluster::cluster_count;
use crate::cluster::lemma_all_zero_stats;
use crate::cluster::lemma_member_count;
use crate::cluster::mean_entry;
use crate::cluster::update_centroids;
use crate::init::Lcg;
use crate::init::sample_indices;
use crate::matrix::Pixel;
use crate::matrix::PixelMatrix;

verus! {

/// Iteration cap of the fit loop: training stops here even if the
/// centroids are still moving.
pub const MAX_ITERS: u32 = 100;

/// The three phases of an engine's life. `Fitting` is only ever held
/// while `train` runs; a failed `train` leaves the engine `Unfit`.
#[derive(Clone, Copy, Debug, PartialEq, Eq, Structural)]
pub enum EngineState {
    Unfit,
    Fitting,
    Fit,
}

/// `cs` is a fixed point of Lloyd's algorithm on `rows`: under the
/// assignment that `cs` itself induces, every non-empty cluster's
/// centroid is exactly the arithmetic mean of its assigned pixels.
pub open spec fn fixed_point(cs: Seq<Centroid>, rows: Seq<Pixel>) -> bool {
    forall|j: int|
        0 <= j < cs.len() && cluster_count(spec_assignment(cs, rows), j) >= 1 ==> mean_entry(
            #[trigger] cs[j],
            rows,
            spec_assignment(cs, rows),
            j,
        )
}

/// `cs_new` is the outcome of one assign-update pass from `prev` on
/// `rows`: under the assignment `prev` induces, every non-empty
/// cluster's entry in `cs_new` is the exact mean of its pixels, and
/// every empty cluster's entry is carried over from `prev` unchanged.
pub open spec fn is_update_of(cs_new: Seq<Centroid>, prev: Seq<Centroid>, rows: Seq<Pixel>) -> bool {
    &&& prev.len() == cs_new.len()
    &&& all_wf(prev)
    &&& forall|j: int|
        0 <= j < cs_new.len() && cluster_count(spec_assignment(prev, rows), j) >= 1 ==> mean_entry(
            #[trigger] cs_new[j],
            rows,
            spec_assignment(prev, rows),
            j,
        )
    &&& forall|j: int|
        0 <= j < cs_new.len() && cluster_count(spec_assignment(prev, rows), j) == 0 ==> (
        #[trigger] cs_new[j]) == prev[j]
}

/// The set came out of a genuine assign-update pass on `rows` from some
/// well-formed predecessor set: no centroid table that skips the
/// clustering work can satisfy this.
pub open spec fn from_update_pass(cs_new: Seq<Centroid>, rows: Seq<Pixel>) -> bool {
    exists|prev: Seq<Centroid>| #[trigger] is_update_of(cs_new, prev, rows)
}

/// Some centroid of the set sits exactly on pixel `p`.
pub open spec fn has_exact_match(cs: Seq<Centroid>, p: Pixel) -> bool {
    exists|j: int| 0 <= j < cs.len() && #[trigger] sqd_num(p, cs[j]) == 0
}

/// Every pixel of the population has a centroid sitting exactly on it.
/// With one cluster per pixel this holds from initialization on, and
/// training preserves it, so every pixel is reproduced exactly.
pub open spec fn exact_cover(cs: Seq<Centroid>, rows: Seq<Pixel>) -> bool {
    forall|i: int| 0 <= i < rows.len() ==> has_exact_match(cs, #[trigger] rows[i])
}

/// The k-means engine. It owns the centroid set; the pixel matrix is
/// only ever borrowed and never mutated.
pub struct KMeansEngine {
    pub k: usize,
    pub state: EngineState,
    pub centroids: Vec<Centroid>,
    pub converged: bool,
    pub iterations: u32,
    pub seed: u64,
}

impl KMeansEngine {
    /// A fitted engine carries exactly `k` well-formed centroids, and
    /// only a fitted engine can be marked converged.
    pub open spec fn wf(self) -> bool {
        &&& self.k >= 1
        &&& (self.state == EngineState::Fit ==> self.centroids@.len() == self.k && all_wf(
            self.centroids@,
        ))
        &&& (self.converged ==> self.state == EngineState::Fit)
    }

    /// A fresh, unfitted engine for `k` clusters, with a fixed default
    /// seed for the initializer.
    pub fn new(k: usize) -> (r: KMeansEngine)
        requires
            k >= 1,
        ensures
            r.wf(),
            r.k == k,
            r.state == EngineState::Unfit,
            !r.converged,
            r.iterations == 0,
            r.centroids@.len() == 0,
            r.seed == 0x9E3779B97F4A7C15u64,
    {
        KMeansEngine {
            k,
            state: EngineState::Unfit,
            centroids: Vec::new(),
            converged: false,
            iterations: 0,
            seed: 0x9E3779B97F4A7C15u64,
        }
    }

    /// Like `new`, with a caller-chosen seed, so fits are reproducible.
    pub fn with_seed(k: usize, seed: u64) -> (r: KMeansEngine)
        requires
            k >= 1,
        ensures
            r.wf(),
            r.k == k,
            r.state == EngineState::Unfit,
            !r.converged,
            r.iterations == 0,
            r.centroids@.len() == 0,
            r.seed == seed,
    {
        KMeansEngine {
            k,
            state: EngineState::Unfit,
            centroids: Vec::new(),
            converged: false,
            iterations: 0,
            seed,
        }
    }

    /// Fits the engine to the matrix by Lloyd's algorithm.
    ///
    /// Fails with `InsufficientDataError` exactly when the matrix has
    /// fewer rows than clusters, and then leaves the engine untouched in
    /// `Unfit`. On success the engine is `Fit`; if it converged, the
    /// retained centroid set is a fixed point of the algorithm. With
    /// `k == 1` it always converges within two iterations to the exact
    /// mean color of the whole image, and with one cluster per pixel it
    /// converges in a single iteration with a centroid sitting exactly
    /// on every pixel.
    pub fn train(&mut self, m: &PixelMatrix) -> (r: Result<(), KmError>)
        requires
            old(self).wf(),
            old(self).state == EngineState::Unfit,
            m.wf(),
        ensures
            final(self).k == old(self).k,
            final(self).seed == old(self).seed,
            final(self).wf(),
            match r {
                Ok(()) => {
                    &&& m.spec_len() >= old(self).k
                    &&& final(self).state == EngineState::Fit
                    &&& final(self).centroids@.len() == old(self).k
                    &&& all_wf(final(self).centroids@)
                    &&& 1 <= final(self).iterations <= MAX_ITERS
                    &&& (!final(self).converged ==> final(self).iterations == MAX_ITERS)
                    &&& from_update_pass(final(self).centroids@, m.rows@)
                    &&& (final(self).converged ==> fixed_point(final(self).centroids@, m.rows@))
                    &&& (old(self).k == m.spec_len() ==> final(self).converged
                        && final(self).iterations == 1
                        && exact_cover(final(self).centroids@, m.rows@))
                    &&& (old(self).k == 1 ==> final(self).converged && final(self).iterations <= 2
                        && final(self).centroids@[0].den == m.spec_len()
                        && final(self).centroids@[0].num(0) == channel_total(m.rows@, 0)
                        && final(self).centroids@[0].num(1) == channel_total(m.rows@, 1)
                        && final(self).centroids@[0].num(2) == channel_total(m.rows@, 2))
                },
                Err(e) => {
                    &&& e == KmError::InsufficientDataError
                    &&& m.spec_len() < old(self).k
                    &&& *final(self) == *old(self)
                },
            },
    {
        let n = m.rows.len();
        let k = self.k;
        if n < k {
            return Err(KmError::InsufficientDataError);
        }
        self.state = EngineState::Fitting;
        let mut rng = Lcg::new(self.seed);
        let picks = sample_indices(&mut rng, k, n);
        let mut cs: Vec<Centroid> = Vec::new();
        let mut t: usize = 0;
        while t < k
            invariant
                picks@.len() == k,
                forall|u: int| 0 <= u < k ==> #[trigger] picks@[u] < n,
                n == m.rows@.len(),
                0 <= t <= k,
                cs@.len() == t,
                all_wf(cs@),
                forall|u: int|
                    0 <= u < t ==> #[trigger] cs@[u] == Centroid::spec_from_pixel(
                        m.rows@[picks@[u] as int],
                    ),
            decreases k - t,
        {
            cs.push(Centroid::from_pixel(m.rows[picks[t]]));
            t = t + 1;
        }
        proof {
            if k == n {
                assert forall|i: int| 0 <= i < n implies has_exact_match(
                    cs@,
                    #[trigger] m.rows@[i],
                ) by {
                    assert(crate::init::holds_value(picks@, k as int, i));
                    let u = choose|u: int| 0 <= u < k && #[trigger] picks@[u] == i;
                    let p = m.rows@[i];
                    assert(cs@[u] == Centroid::spec_from_pixel(p));
                    crate::centroid::lemma_from_pixel_zero(p);
                    assert(sqd_num(p, cs@[u]) == 0);
                }
            }
        }
        let mut converged: bool = false;
        let mut iters: u32 = 0;
        while iters < MAX_ITERS && !converged
            invariant
                m.wf(),
                n == m.rows@.len(),
                1 <= k <= n,
                cs@.len() == k,
                all_wf(cs@),
                0 <= iters <= MAX_ITERS,
                converged ==> iters >= 1,
                iters >= 1 ==> from_update_pass(cs@, m.rows@),
                converged ==> fixed_point(cs@, m.rows@),
                k == 1 && iters >= 1 ==> cs@[0].den == n && cs@[0].num(0) == channel_total(
                    m.rows@,
                    0,
                ) && cs@[0].num(1) == channel_total(m.rows@, 1) && cs@[0].num(2) == channel_total(
                    m.rows@,
                    2,
                ),
                k == 1 && iters >= 2 ==> converged,
                k == 1 ==> iters <= 2,
                k == n ==> exact_cover(cs@, m.rows@),
                k == n && iters >= 1 ==> converged,
                k == n ==> iters <= 1,
            decreases MAX_ITERS - iters,
        {
            let a = assign_all(&cs, m);
            let new_cs = update_centroids(m, &a, &cs);
            proof {
                assert forall|j: int|
                    0 <= j < new_cs@.len() && cluster_count(as_ints(a@), j) >= 1 implies mean_entry(
                    #[trigger] new_cs@[j],
                    m.rows@,
                    as_ints(a@),
                    j,
                ) by {
                    assert(crate::cluster::is_exact_mean_of(new_cs@, m.rows@, as_ints(a@), j));
                }
                assert forall|i: int| 0 <= i < m.rows@.len() implies as_ints(a@)[i]
                    == #[trigger] spec_assignment(cs@, m.rows@)[i] by {
                    lemma_nearest_idx_is_nearest(cs@, m.rows@[i]);
                    lemma_nearest_unique(
                        cs@,
                        m.rows@[i],
                        a@[i] as int,
                        nearest_idx(cs@, m.rows@[i]),
                    );
                }
                assert(as_ints(a@) =~= spec_assignment(cs@, m.rows@));
                assert forall|j: int|
                    0 <= j < new_cs@.len() && cluster_count(spec_assignment(cs@, m.rows@), j)
                        == 0 implies (#[trigger] new_cs@[j]) == cs@[j] by {
                    assert(cluster_count(as_ints(a@), j) == 0);
                }
                assert(is_update_of(new_cs@, cs@, m.rows@));
                assert(from_update_pass(new_cs@, m.rows@));
                if k == n {
                    lemma_exact_cover_step(cs@, new_cs@, m.rows@, a@);
                }
                if k == 1 {
                    assert forall|i: int| 0 <= i < as_ints(a@).len() implies #[trigger] as_ints(
                        a@,
                    )[i] == 0 by {
                        assert(a@[i] < 1);
                    }
                    lemma_all_zero_stats(m.rows@, as_ints(a@), 0, n as int);
                    lemma_all_zero_stats(m.rows@, as_ints(a@), 1, n as int);
                    lemma_all_zero_stats(m.rows@, as_ints(a@), 2, n as int);
                    assert(cluster_count(as_ints(a@), 0) == n);
                    assert(crate::cluster::is_exact_mean_of(new_cs@, m.rows@, as_ints(a@), 0));
                    assert(mean_entry(new_cs@[0], m.rows@, as_ints(a@), 0));
                }
            }
            let same = all_val_eq(&new_cs, &cs);
            proof {
                if k == n {
                    assert(same);
                }
                if same {
                    lemma_step_fixed_point(cs@, new_cs@, m.rows@, a@);
                }
            }
            if same {
                converged = true;
            }
            cs = new_cs;
            iters = iters + 1;
        }
        proof {
            if k == 1 && !converged {
                assert(iters >= 2);
                assert(false);
            }
            if k == n && !converged {
                assert(iters == MAX_ITERS);
                assert(false);
            }
        }
        self.centroids = cs;
        self.converged = converged;
        self.iterations = iters;
        self.state = EngineState::Fit;
        Ok(())
    }

    /// Assigns every row of `matrix` to its nearest stored centroid,
    /// ties to the lowest index. Valid only once the engine is fitted;
    /// the engine itself is never mutated, so repeated calls agree.
    pub fn predict(&self, matrix: &PixelMatrix) -> (r: Result<Vec<usize>, KmError>)
        requires
            self.wf(),
        ensures
            match r {
                Ok(a) => {
                    &&& self.state == EngineState::Fit
                    &&& a@.len() == matrix.spec_len()
                    &&& forall|i: int|
                        0 <= i < a@.len() ==> is_nearest(
                            self.centroids@,
                            matrix.rows@[i],
                            #[trigger] a@[i] as int,
                        )
                    &&& forall|i: int| 0 <= i < a@.len() ==> #[trigger] a@[i] < self.k
                },
                Err(e) => {
                    &&& e == KmError::NotFittedError
                    &&& self.state != EngineState::Fit
                },
            },
    {
        if !matches!(self.state, EngineState::Fit) {
            return Err(KmError::NotFittedError);
        }
        Ok(assign_all(&self.centroids, matrix))
    }

    /// The learned centroid set. Valid only once the engine is fitted.
    pub fn centroids(&self) -> (r: Result<&Vec<Centroid>, KmError>)
        requires
            self.wf(),
        ensures
            match r {
                Ok(cs) => {
                    &&& self.state == EngineState::Fit
                    &&& cs@ == self.centroids@
                    &&& cs@.len() == self.k
                    &&& all_wf(cs@)
                },
                Err(e) => {
                    &&& e == KmError::NotFittedError
                    &&& self.state != EngineState::Fit
                },
            },
    {
        if !matches!(self.state, EngineState::Fit) {
            return Err(KmError::NotFittedError);
        }
        Ok(&self.centroids)
    }
}

/// Decides whether two centroid sets are channel-value equal throughout,
/// that is, whether the maximum centroid movement is exactly zero.
fn all_val_eq(xs: &Vec<Centroid>, ys: &Vec<Centroid>) -> (r: bool)
    requires
        xs@.len() == ys@.len(),
        all_wf(xs@),
        all_wf(ys@),
    ensures
        r == forall|j: int| 0 <= j < xs@.len() ==> (#[trigger] xs@[j]).val_eq(ys@[j]),
{
    let mut j: usize = 0;
    while j < xs.len()
        invariant
            xs@.len() == ys@.len(),
            all_wf(xs@),
            all_wf(ys@),
            0 <= j <= xs@.len(),
            forall|t: int| 0 <= t < j ==> (#[trigger] xs@[t]).val_eq(ys@[t]),
        decreases xs@.len() - j,
    {
        if !val_eq_exec(&xs[j], &ys[j]) {
            return false;
        }
        j = j + 1;
    }
    true
}

/// The update step preserves an exact cover: if every pixel had a
/// centroid sitting exactly on it, each cluster's pixels all carry one
/// color, so the recomputed mean sits exactly on that color again, and
/// frozen empty clusters do not move at all. Moreover, every pixel's
/// own assigned centroid then sits exactly on it.
proof fn lemma_exact_cover_step(
    cs_old: Seq<Centroid>,
    cs_new: Seq<Centroid>,
    rows: Seq<Pixel>,
    a: Seq<usize>,
)
    requires
        all_wf(cs_old),
        all_wf(cs_new),
        cs_old.len() == cs_new.len(),
        cs_old.len() >= 1,
        a.len() == rows.len(),
        forall|i: int| 0 <= i < a.len() ==> is_nearest(cs_old, rows[i], #[trigger] a[i] as int),
        forall|j: int|
            0 <= j < cs_new.len() && cluster_count(as_ints(a), j) == 0 ==> #[trigger] cs_new[j]
                == cs_old[j],
        forall|j: int|
            0 <= j < cs_new.len() && cluster_count(as_ints(a), j) >= 1 ==> mean_entry(
                #[trigger] cs_new[j],
                rows,
                as_ints(a),
                j,
            ),
        exact_cover(cs_old, rows),
    ensures
        exact_cover(cs_new, rows),
        forall|i: int|
            0 <= i < rows.len() ==> sqd_num(#[trigger] rows[i], cs_new[a[i] as int]) == 0,
        forall|j: int| 0 <= j < cs_new.len() ==> (#[trigger] cs_new[j]).val_eq(cs_old[j]),
{
    assert forall|i: int| 0 <= i < rows.len() implies sqd_num(
        #[trigger] rows[i],
        cs_new[a[i] as int],
    ) == 0 by {
        let j = a[i] as int;
        let w = choose|w: int| 0 <= w < cs_old.len() && #[trigger] sqd_num(rows[i], cs_old[w])
            == 0;
        crate::assign::lemma_zero_distance_nearest(cs_old, rows[i], j, w);
        crate::centroid::lemma_zero_distance_exact_color(rows[i], cs_old[j]);
        assert forall|t: int| 0 <= t < rows.len() && as_ints(a)[t] == j implies #[trigger] rows[t]
            == rows[i] by {
            let wt = choose|wt: int|
                0 <= wt < cs_old.len() && #[trigger] sqd_num(rows[t], cs_old[wt]) == 0;
            crate::assign::lemma_zero_distance_nearest(cs_old, rows[t], j, wt);
            crate::centroid::lemma_zero_distance_exact_color(rows[t], cs_old[j]);
            let d = cs_old[j].den as int;
            assert(rows[t].ch(0) == rows[i].ch(0) && rows[t].ch(1) == rows[i].ch(1) && rows[t].ch(
                2,
            ) == rows[i].ch(2)) by (nonlinear_arith)
                requires
                    d >= 1,
                    rows[t].ch(0) * d == rows[i].ch(0) * d,
                    rows[t].ch(1) * d == rows[i].ch(1) * d,
                    rows[t].ch(2) * d == rows[i].ch(2) * d,
            ;
            assert(rows[t].r == rows[i].r && rows[t].g == rows[i].g && rows[t].b == rows[i].b);
        }
        lemma_member_count(as_ints(a), j, i);
        crate::cluster::lemma_pure_cluster_exact(rows, as_ints(a), j, rows[i], cs_new[j]);
        assert(rows[i].ch(0) * cs_new[j].den - cs_new[j].num(0) == 0);
        assert(rows[i].ch(1) * cs_new[j].den - cs_new[j].num(1) == 0);
        assert(rows[i].ch(2) * cs_new[j].den - cs_new[j].num(2) == 0);
    }
    assert forall|i: int| 0 <= i < rows.len() implies has_exact_match(
        cs_new,
        #[trigger] rows[i],
    ) by {
        assert((a[i] as int) < cs_new.len() && sqd_num(rows[i], cs_new[a[i] as int]) == 0);
    }
    assert forall|j: int| 0 <= j < cs_new.len() implies (#[trigger] cs_new[j]).val_eq(
        cs_old[j],
    ) by {
        if cluster_count(as_ints(a), j) == 0 {
            assert(cs_new[j] == cs_old[j]);
            assert forall|ch: int| 0 <= ch < 3 implies #[trigger] (cs_new[j].num(ch)
                * cs_old[j].den) == cs_old[j].num(ch) * cs_new[j].den by {
            }
        } else {
            assert(as_ints(a).len() == rows.len());
            crate::cluster::lemma_count_mono(as_ints(a), j, rows.len() as int, rows.len() as int);
            crate::cluster::lemma_count_member(as_ints(a), j, rows.len() as int);
            let i = choose|i: int| 0 <= i < rows.len() && #[trigger] as_ints(a)[i] == j;
            let p = rows[i];
            let w = choose|w: int| 0 <= w < cs_old.len() && #[trigger] sqd_num(p, cs_old[w]) == 0;
            crate::assign::lemma_zero_distance_nearest(cs_old, p, j, w);
            crate::centroid::lemma_zero_distance_exact_color(p, cs_old[j]);
            crate::centroid::lemma_zero_distance_exact_color(p, cs_new[j]);
            assert forall|ch: int| 0 <= ch < 3 implies #[trigger] (cs_new[j].num(ch)
                * cs_old[j].den) == cs_old[j].num(ch) * cs_new[j].den by {
                assert(cs_new[j].num(ch) * cs_old[j].den == cs_old[j].num(ch) * cs_new[j].den)
                    by (nonlinear_arith)
                    requires
                        cs_new[j].num(ch) == p.ch(ch) * cs_new[j].den,
                        cs_old[j].num(ch) == p.ch(ch) * cs_old[j].den,
                ;
            }
        }
    }
}

/// When an update leaves every centroid's channel values unchanged, the
/// assignment that produced it is also the assignment the new set
/// induces, so the new set is a fixed point of the algorithm.
proof fn lemma_step_fixed_point(
    cs_old: Seq<Centroid>,
    cs_new: Seq<Centroid>,
    rows: Seq<Pixel>,
    a: Seq<usize>,
)
    requires
        all_wf(cs_old),
        all_wf(cs_new),
        cs_old.len() == cs_new.len(),
        cs_old.len() >= 1,
        a.len() == rows.len(),
        forall|i: int| 0 <= i < a.len() ==> is_nearest(cs_old, rows[i], #[trigger] a[i] as int),
        forall|j: int| 0 <= j < cs_new.len() ==> (#[trigger] cs_new[j]).val_eq(cs_old[j]),
        forall|j: int|
            0 <= j < cs_new.len() && cluster_count(as_ints(a), j) >= 1 ==> mean_entry(
                #[trigger] cs_new[j],
                rows,
                as_ints(a),
                j,
            ),
    ensures
        fixed_point(cs_new, rows),
        as_ints(a) == spec_assignment(cs_new, rows),
{
    assert forall|j: int| 0 <= j < cs_old.len() implies (#[trigger] cs_old[j]).val_eq(
        cs_new[j],
    ) by {
        assert(cs_new[j].val_eq(cs_old[j]));
        assert forall|ch: int| 0 <= ch < 3 implies #[trigger] (cs_old[j].num(ch) * cs_new[j].den)
            == cs_new[j].num(ch) * cs_old[j].den by {
            assert(cs_new[j].num(ch) * cs_old[j].den == cs_old[j].num(ch) * cs_new[j].den);
        }
    }
    assert forall|i: int| 0 <= i < a.len() implies as_ints(a)[i] == #[trigger] spec_assignment(
        cs_new,
        rows,
    )[i] by {
        lemma_val_eq_same_nearest(cs_old, cs_new, rows[i], a[i] as int);
        lemma_nearest_idx_is_nearest(cs_new, rows[i]);
        lemma_nearest_unique(cs_new, rows[i], a[i] as int, nearest_idx(cs_new, rows[i]));
    }
    assert(as_ints(a) =~= spec_assignment(cs_new, rows));
}

} // verus!

