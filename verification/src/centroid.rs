//! Centroids as exact rationals, and the squared-Euclidean distance order.
//!
//! A centroid channel is a per-cluster channel sum over the cluster size,
//! so the mean of the assigned pixels is carried without rounding error.
//! Distances from a pixel to two centroids are compared by
//! cross-multiplying with the squared denominators, which keeps every
//! comparison exact in integer arithmetic.

use vstd::prelude::*;

use crate::matrix::MAX_PIXELS;
use crate::matrix::Pixel;

verus! {

/// One representative color: channel `j` has the exact value
/// `num(j) / den`. After a fit, `num(j)` is the channel sum of the
/// cluster's pixels and `den` is the cluster size.
#[derive(Clone, Copy, Debug, PartialEq, Eq, Structural)]
pub struct Centroid {
    pub nr: u64,
    pub ng: u64,
    pub nb: u64,
    pub den: u64,
}

impl Centroid {
    /// Numerator of channel `j`, as a mathematical integer.
    pub open spec fn num(self, j: int) -> int {
        if j == 0 {
            self.nr as int
        } else if j == 1 {
            self.ng as int
        } else {
            self.nb as int
        }
    }

    /// A centroid is well formed when its denominator is a cluster size
    /// within the pixel-count bound and every channel value lies in the
    /// byte range `[0, 255]`.
    pub open spec fn wf(self) -> bool {
        &&& 1 <= self.den <= MAX_PIXELS
        &&& self.nr <= 255 * self.den
        &&& self.ng <= 255 * self.den
        &&& self.nb <= 255 * self.den
    }

    /// The exact channel values of `self` and `other` coincide, channel
    /// by channel; that is, the Euclidean movement between them is zero.
    pub open spec fn val_eq(self, other: Centroid) -> bool {
        forall|j: int|
            0 <= j < 3 ==> #[trigger] (self.num(j) * other.den) == other.num(j) * self.den
    }

    /// Channel `j` narrowed to a byte by truncation.
    pub open spec fn byte_of(self, j: int) -> int {
        self.num(j) / self.den as int
    }

    /// A centroid whose channels are exactly the pixel's channels.
    pub open spec fn spec_from_pixel(p: Pixel) -> Centroid {
        Centroid { nr: p.r as u64, ng: p.g as u64, nb: p.b as u64, den: 1u64 }
    }

    /// Builds the centroid sitting exactly on pixel `p`.
    pub fn from_pixel(p: Pixel) -> (c: Centroid)
        ensures
            c == Centroid::spec_from_pixel(p),
            c.wf(),
    {
        Centroid { nr: p.r as u64, ng: p.g as u64, nb: p.b as u64, den: 1u64 }
    }
}

/// `den * 255`, the largest numerator a well-formed centroid can carry,
/// is at most this bound.
pub open spec fn max_num() -> int {
    255 * MAX_PIXELS as int
}

/// Numerator of the squared Euclidean distance between pixel `p` and
/// centroid `c`, scaled by `c.den * c.den`: the exact squared distance is
/// `sqd_num(p, c) / (c.den * c.den)`.
pub open spec fn sqd_num(p: Pixel, c: Centroid) -> int {
    (p.ch(0) * c.den - c.num(0)) * (p.ch(0) * c.den - c.num(0)) + (p.ch(1) * c.den - c.num(1)) * (
    p.ch(1) * c.den - c.num(1)) + (p.ch(2) * c.den - c.num(2)) * (p.ch(2) * c.den - c.num(2))
}

/// Pixel `p` is at most as far from `a` as from `b`, compared exactly by
/// cross-multiplication with the squared denominators.
pub open spec fn dist_le(p: Pixel, a: Centroid, b: Centroid) -> bool {
    sqd_num(p, a) * (b.den * b.den) <= sqd_num(p, b) * (a.den * a.den)
}

/// Pixel `p` is strictly closer to `a` than to `b`.
pub open spec fn dist_lt(p: Pixel, a: Centroid, b: Centroid) -> bool {
    sqd_num(p, a) * (b.den * b.den) < sqd_num(p, b) * (a.den * a.den)
}

/// The distance numerator is a sum of squares, hence nonnegative, and
/// bounded for well-formed centroids.
pub proof fn lemma_sqd_num_bounds(p: Pixel, c: Centroid)
    requires
        c.wf(),
    ensures
        0 <= sqd_num(p, c),
        sqd_num(p, c) <= 3 * (max_num() * max_num()),
{
    assert forall|j: int| 0 <= j < 3 implies 0 <= #[trigger] (p.ch(j) * c.den - c.num(j)) * (p.ch(
        j,
    ) * c.den - c.num(j)) <= max_num() * max_num() by {
        let d = p.ch(j) * c.den - c.num(j);
        assert(0 <= p.ch(j) <= 255);
        assert(0 <= c.num(j) <= 255 * c.den);
        assert(-(255 * c.den) <= d <= 255 * c.den) by (nonlinear_arith)
            requires
                0 <= p.ch(j) <= 255,
                0 <= c.num(j) <= 255 * c.den,
                d == p.ch(j) * c.den - c.num(j),
                c.den >= 1,
        ;
        assert(0 <= d * d <= (255 * c.den) * (255 * c.den)) by (nonlinear_arith)
            requires
                -(255 * c.den) <= d <= 255 * c.den,
        ;
        assert((255 * c.den) * (255 * c.den) <= max_num() * max_num()) by (nonlinear_arith)
            requires
                1 <= c.den <= MAX_PIXELS,
                max_num() == 255 * MAX_PIXELS as int,
        ;
    }
}

/// Chains a strict and a non-strict distance comparison: if `p` is
/// strictly closer to `a` than to `b`, and at most as far from `b` as
/// from `c`, it is strictly closer to `a` than to `c`.
pub proof fn lemma_dist_lt_le_trans(p: Pixel, a: Centroid, b: Centroid, c: Centroid)
    requires
        a.wf(),
        b.wf(),
        c.wf(),
        dist_lt(p, a, b),
        dist_le(p, b, c),
    ensures
        dist_lt(p, a, c),
{
    let (sa, sb, sc) = (sqd_num(p, a), sqd_num(p, b), sqd_num(p, c));
    let (da, db, dc) = (a.den * a.den, b.den * b.den, c.den * c.den);
    lemma_sqd_num_bounds(p, a);
    lemma_sqd_num_bounds(p, b);
    lemma_sqd_num_bounds(p, c);
    assert(da >= 1 && db >= 1 && dc >= 1) by (nonlinear_arith)
        requires
            a.den >= 1 && b.den >= 1 && c.den >= 1,
            da == a.den * a.den && db == b.den * b.den && dc == c.den * c.den,
    ;
    assert(sa * dc < sc * da) by (nonlinear_arith)
        requires
            sa * db < sb * da,
            sb * dc <= sc * db,
            da >= 1,
            db >= 1,
            dc >= 1,
            sa >= 0,
            sb >= 0,
            sc >= 0,
    ;
}

/// Two value-equal centroids stand in the same distance relation to any
/// pixel: the cross-multiplied distance numerators agree exactly.
pub proof fn lemma_val_eq_same_sqd(p: Pixel, c: Centroid, d: Centroid)
    requires
        c.wf(),
        d.wf(),
        c.val_eq(d),
    ensures
        sqd_num(p, c) * (d.den * d.den) == sqd_num(p, d) * (c.den * c.den),
{
    assert forall|j: int| 0 <= j < 3 implies #[trigger] ((p.ch(j) * c.den - c.num(j)) * (p.ch(j)
        * c.den - c.num(j))) * (d.den * d.den) == ((p.ch(j) * d.den - d.num(j)) * (p.ch(j) * d.den
        - d.num(j))) * (c.den * c.den) by {
        assert(c.num(j) * d.den == d.num(j) * c.den);
        assert(((p.ch(j) * c.den - c.num(j)) * (p.ch(j) * c.den - c.num(j))) * (d.den * d.den) == ((
        p.ch(j) * d.den - d.num(j)) * (p.ch(j) * d.den - d.num(j))) * (c.den * c.den))
            by (nonlinear_arith)
            requires
                c.num(j) * d.den == d.num(j) * c.den,
        ;
    }
    let e0 = p.ch(0) * c.den - c.num(0);
    let e1 = p.ch(1) * c.den - c.num(1);
    let e2 = p.ch(2) * c.den - c.num(2);
    let f0 = p.ch(0) * d.den - d.num(0);
    let f1 = p.ch(1) * d.den - d.num(1);
    let f2 = p.ch(2) * d.den - d.num(2);
    assert(sqd_num(p, c) == e0 * e0 + e1 * e1 + e2 * e2);
    assert(sqd_num(p, d) == f0 * f0 + f1 * f1 + f2 * f2);
    assert((e0 * e0 + e1 * e1 + e2 * e2) * (d.den * d.den) == (e0 * e0) * (d.den * d.den) + (e1
        * e1) * (d.den * d.den) + (e2 * e2) * (d.den * d.den)) by (nonlinear_arith);
    assert((f0 * f0 + f1 * f1 + f2 * f2) * (c.den * c.den) == (f0 * f0) * (c.den * c.den) + (f1
        * f1) * (c.den * c.den) + (f2 * f2) * (c.den * c.den)) by (nonlinear_arith);
}

/// Replacing both centroids of a comparison by value-equal ones keeps
/// the comparison's truth value.
pub proof fn lemma_val_eq_same_order(p: Pixel, a: Centroid, b: Centroid, a2: Centroid, b2: Centroid)
    requires
        a.wf(),
        b.wf(),
        a2.wf(),
        b2.wf(),
        a.val_eq(a2),
        b.val_eq(b2),
    ensures
        dist_le(p, a, b) == dist_le(p, a2, b2),
        dist_lt(p, a, b) == dist_lt(p, a2, b2),
{
    lemma_val_eq_same_sqd(p, a, a2);
    lemma_val_eq_same_sqd(p, b, b2);
    let (sa, sb, sa2, sb2) = (sqd_num(p, a), sqd_num(p, b), sqd_num(p, a2), sqd_num(p, b2));
    let (da, db, da2, db2) = (a.den * a.den, b.den * b.den, a2.den * a2.den, b2.den * b2.den);
    assert(da >= 1 && db >= 1 && da2 >= 1 && db2 >= 1) by (nonlinear_arith)
        requires
            a.den >= 1 && b.den >= 1 && a2.den >= 1 && b2.den >= 1,
            da == a.den * a.den && db == b.den * b.den && da2 == a2.den * a2.den && db2 == b2.den
                * b2.den,
    ;
    assert((sa * db <= sb * da) == (sa2 * db2 <= sb2 * da2) && (sa * db < sb * da) == (sa2 * db2
        < sb2 * da2)) by (nonlinear_arith)
        requires
            sa * da2 == sa2 * da,
            sb * db2 == sb2 * db,
            da >= 1,
            db >= 1,
            da2 >= 1,
            db2 >= 1,
    ;
}

/// The centroid built from a pixel sits at distance zero from it.
pub proof fn lemma_from_pixel_zero(p: Pixel)
    ensures
        sqd_num(p, Centroid::spec_from_pixel(p)) == 0,
{
    let c = Centroid::spec_from_pixel(p);
    assert forall|j: int| 0 <= j < 3 implies #[trigger] (p.ch(j) * c.den) == c.num(j) by {
        assert(p.ch(j) * 1 == p.ch(j)) by (nonlinear_arith);
    }
    assert(p.ch(0) * c.den - c.num(0) == 0);
    assert(p.ch(1) * c.den - c.num(1) == 0);
    assert(p.ch(2) * c.den - c.num(2) == 0);
}

/// A centroid at distance zero from a pixel sits exactly on it: every
/// channel value equals the pixel's channel, and narrowing by truncation
/// reproduces the pixel's bytes unchanged.
pub proof fn lemma_zero_distance_exact_color(p: Pixel, c: Centroid)
    requires
        c.wf(),
        sqd_num(p, c) == 0,
    ensures
        c.num(0) == p.ch(0) * c.den,
        c.num(1) == p.ch(1) * c.den,
        c.num(2) == p.ch(2) * c.den,
        c.byte_of(0) == p.ch(0),
        c.byte_of(1) == p.ch(1),
        c.byte_of(2) == p.ch(2),
{
    assert forall|j: int| 0 <= j < 3 implies c.num(j) == p.ch(j) * c.den by {
        let d0 = p.ch(0) * c.den - c.num(0);
        let d1 = p.ch(1) * c.den - c.num(1);
        let d2 = p.ch(2) * c.den - c.num(2);
        assert(d0 == 0 && d1 == 0 && d2 == 0) by (nonlinear_arith)
            requires
                d0 * d0 + d1 * d1 + d2 * d2 == 0,
        ;
    }
    let d = c.den as int;
    assert forall|j: int| 0 <= j < 3 implies (p.ch(j) * d) / d == p.ch(j) by {
        vstd::arithmetic::div_mod::lemma_div_by_multiple(p.ch(j), d);
    }
    assert(c.byte_of(0) == (p.ch(0) * d) / d);
    assert(c.byte_of(1) == (p.ch(1) * d) / d);
    assert(c.byte_of(2) == (p.ch(2) * d) / d);
}

/// Computes `sqd_num(p, c)` exactly in 128-bit arithmetic.
fn sqd_num_exec(p: &Pixel, c: &Centroid) -> (r: u128)
    requires
        c.wf(),
    ensures
        r == sqd_num(*p, *c),
        r <= 3 * (max_num() * max_num()),
{
    proof {
        lemma_sqd_num_bounds(*p, *c);
        assert(p.r as int * c.den as int <= 255 * c.den as int && p.g as int * c.den as int <= 255
            * c.den as int && p.b as int * c.den as int <= 255 * c.den as int)
            by (nonlinear_arith)
            requires
                p.r <= 255 && p.g <= 255 && p.b <= 255,
                c.den >= 1,
        ;
        assert(255 * c.den as int <= max_num()) by (nonlinear_arith)
            requires
                1 <= c.den <= MAX_PIXELS,
                max_num() == 255 * MAX_PIXELS as int,
        ;
        assert(max_num() < u64::MAX);
    }
    let d = c.den;
    let tr = (p.r as u64) * d;
    let tg = (p.g as u64) * d;
    let tb = (p.b as u64) * d;
    let dr: u64 = if tr >= c.nr {
        tr - c.nr
    } else {
        c.nr - tr
    };
    let dg: u64 = if tg >= c.ng {
        tg - c.ng
    } else {
        c.ng - tg
    };
    let db: u64 = if tb >= c.nb {
        tb - c.nb
    } else {
        c.nb - tb
    };
    proof {
        assert((dr as int) * (dr as int) == (p.ch(0) * c.den - c.num(0)) * (p.ch(0) * c.den - c.num(
            0,
        ))) by (nonlinear_arith)
            requires
                dr as int == if p.ch(0) * c.den >= c.num(0) {
                    p.ch(0) * c.den - c.num(0)
                } else {
                    c.num(0) - p.ch(0) * c.den
                },
        ;
        assert((dg as int) * (dg as int) == (p.ch(1) * c.den - c.num(1)) * (p.ch(1) * c.den - c.num(
            1,
        ))) by (nonlinear_arith)
            requires
                dg as int == if p.ch(1) * c.den >= c.num(1) {
                    p.ch(1) * c.den - c.num(1)
                } else {
                    c.num(1) - p.ch(1) * c.den
                },
        ;
        assert((db as int) * (db as int) == (p.ch(2) * c.den - c.num(2)) * (p.ch(2) * c.den - c.num(
            2,
        ))) by (nonlinear_arith)
            requires
                db as int == if p.ch(2) * c.den >= c.num(2) {
                    p.ch(2) * c.den - c.num(2)
                } else {
                    c.num(2) - p.ch(2) * c.den
                },
        ;
        assert(dr as int * dr as int <= max_num() * max_num() && dg as int * dg as int <= max_num()
            * max_num() && db as int * db as int <= max_num() * max_num()) by (nonlinear_arith)
            requires
                0 <= dr as int <= max_num(),
                0 <= dg as int <= max_num(),
                0 <= db as int <= max_num(),
        ;
        assert(3 * (max_num() * max_num()) <= u128::MAX) by (nonlinear_arith);
    }
    (dr as u128) * (dr as u128) + (dg as u128) * (dg as u128) + (db as u128) * (db as u128)
}

/// Decides `dist_lt(p, a, b)` exactly: cross-multiplies the distance
/// numerators by the squared denominators in 128-bit arithmetic.
pub fn dist_lt_exec(p: &Pixel, a: &Centroid, b: &Centroid) -> (r: bool)
    requires
        a.wf(),
        b.wf(),
    ensures
        r == dist_lt(*p, *a, *b),
{
    proof {
        assert(a.den as int * a.den as int <= MAX_PIXELS as int * MAX_PIXELS as int && b.den as int
            * b.den as int <= MAX_PIXELS as int * MAX_PIXELS as int) by (nonlinear_arith)
            requires
                1 <= a.den <= MAX_PIXELS,
                1 <= b.den <= MAX_PIXELS,
        ;
        assert(MAX_PIXELS as int * MAX_PIXELS as int <= u128::MAX);
    }
    let sa = sqd_num_exec(p, a);
    let sb = sqd_num_exec(p, b);
    let da = (a.den as u128) * (a.den as u128);
    let db = (b.den as u128) * (b.den as u128);
    proof {
        assert(sa as int * db as int <= (3 * (max_num() * max_num())) * (MAX_PIXELS as int
            * MAX_PIXELS as int) && sb as int * da as int <= (3 * (max_num() * max_num())) * (
        MAX_PIXELS as int * MAX_PIXELS as int)) by (nonlinear_arith)
            requires
                0 <= sa as int <= 3 * (max_num() * max_num()),
                0 <= sb as int <= 3 * (max_num() * max_num()),
                0 <= da as int <= MAX_PIXELS as int * MAX_PIXELS as int,
                0 <= db as int <= MAX_PIXELS as int * MAX_PIXELS as int,
        ;
        assert((3 * (max_num() * max_num())) * (MAX_PIXELS as int * MAX_PIXELS as int)
            <= u128::MAX) by (nonlinear_arith);
    }
    sa * db < sb * da
}

/// Decides exact value equality of two centroids, channel by channel.
pub fn val_eq_exec(a: &Centroid, b: &Centroid) -> (r: bool)
    requires
        a.wf(),
        b.wf(),
    ensures
        r == a.val_eq(*b),
{
    proof {
        assert(a.nr as int * b.den as int <= max_num() * MAX_PIXELS as int && a.ng as int
            * b.den as int <= max_num() * MAX_PIXELS as int && a.nb as int * b.den as int
            <= max_num() * MAX_PIXELS as int && b.nr as int * a.den as int <= max_num()
            * MAX_PIXELS as int && b.ng as int * a.den as int <= max_num() * MAX_PIXELS as int
            && b.nb as int * a.den as int <= max_num() * MAX_PIXELS as int) by (nonlinear_arith)
            requires
                0 <= a.nr as int <= max_num(),
                0 <= a.ng as int <= max_num(),
                0 <= a.nb as int <= max_num(),
                0 <= b.nr as int <= max_num(),
                0 <= b.ng as int <= max_num(),
                0 <= b.nb as int <= max_num(),
                1 <= a.den <= MAX_PIXELS,
                1 <= b.den <= MAX_PIXELS,
                255 * a.den <= max_num(),
                255 * b.den <= max_num(),
        ;
        assert(max_num() * MAX_PIXELS as int <= u128::MAX) by (nonlinear_arith);
    }
    let r = (a.nr as u128) * (b.den as u128) == (b.nr as u128) * (a.den as u128) && (a.ng as u128)
        * (b.den as u128) == (b.ng as u128) * (a.den as u128) && (a.nb as u128) * (b.den as u128)
        == (b.nb as u128) * (a.den as u128);
    proof {
        if r {
            assert forall|j: int| 0 <= j < 3 implies #[trigger] (a.num(j) * b.den) == b.num(j)
                * a.den by {
                assert(a.num(0) * b.den == b.num(0) * a.den);
                assert(a.num(1) * b.den == b.num(1) * a.den);
                assert(a.num(2) * b.den == b.num(2) * a.den);
            }
        } else {
            if a.val_eq(*b) {
                assert(a.num(0) * b.den == b.num(0) * a.den);
                assert(a.num(1) * b.den == b.num(1) * a.den);
                assert(a.num(2) * b.den == b.num(2) * a.den);
            }
        }
    }
    r
}

} // verus!
