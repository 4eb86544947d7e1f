//! Image reconstruction: every pixel takes its assigned centroid's
//! color, narrowed to bytes by truncation, in a buffer of three bytes
//! per pixel.

use vstd::prelude::*;

use crate::KmError;
use crate::assign::all_wf;
use crate::centroid::Centroid;
use crate::matrix::MAX_PIXELS;

verus! {

/// Byte `t` of the reconstructed buffer: channel `t % 3` of the
/// centroid assigned to pixel `t / 3`, narrowed by truncation.
pub open spec fn recon_byte(assignment: Seq<usize>, centroids: Seq<Centroid>, t: int) -> int {
    centroids[assignment[t / 3] as int].byte_of(t % 3)
}

/// Rebuilds an output channel buffer from an assignment vector and a
/// centroid set.
pub struct ImageReconstructor {}

impl ImageReconstructor {
    /// Produces the compressed channel buffer: pixel `i` carries the
    /// color of centroid `assignment[i]`, each channel narrowed by
    /// truncation (centroids are means of byte values, so every channel
    /// already lies in the byte range). Fails with `IndexError` exactly
    /// when the assignment length does not match the dimensions or some
    /// assignment entry is out of range.
    pub fn build(
        width: u32,
        height: u32,
        assignment: &Vec<usize>,
        centroids: &Vec<Centroid>,
    ) -> (r: Result<Vec<u8>, KmError>)
        requires
            all_wf(centroids@),
            width as int * height as int <= MAX_PIXELS,
        ensures
            match r {
                Ok(bytes) => {
                    &&& assignment@.len() == width as int * height as int
                    &&& forall|i: int|
                        0 <= i < assignment@.len() ==> #[trigger] assignment@[i] < centroids@.len()
                    &&& bytes@.len() == 3 * assignment@.len()
                    &&& forall|t: int|
                        0 <= t < bytes@.len() ==> #[trigger] bytes@[t] == recon_byte(
                            assignment@,
                            centroids@,
                            t,
                        )
                },
                Err(e) => {
                    &&& e == KmError::IndexError
                    &&& (assignment@.len() != width as int * height as int || exists|i: int|
                        0 <= i < assignment@.len() && #[trigger] assignment@[i]
                            >= centroids@.len())
                },
            },
    {
        let expected: u64 = (width as u64) * (height as u64);
        if (assignment.len() as u64) != expected {
            return Err(KmError::IndexError);
        }
        let n = assignment.len();
        let k = centroids.len();
        let mut out: Vec<u8> = Vec::new();
        let mut i: usize = 0;
        while i < n
            invariant
                all_wf(centroids@),
                centroids@.len() == k,
                assignment@.len() == n,
                n <= MAX_PIXELS,
                0 <= i <= n,
                out@.len() == 3 * i,
                forall|t: int| 0 <= t < i ==> #[trigger] assignment@[t] < k,
                forall|t: int|
                    0 <= t < 3 * i ==> #[trigger] out@[t] == recon_byte(assignment@, centroids@, t),
            decreases n - i,
        {
            let ji = assignment[i];
            if ji >= k {
                proof {
                    assert(0 <= i < assignment@.len() && assignment@[i as int] >= centroids@.len());
                }
                return Err(KmError::IndexError);
            }
            let c = centroids[ji];
            proof {
                lemma_channel_byte(c);
            }
            out.push((c.nr / c.den) as u8);
            out.push((c.ng / c.den) as u8);
            out.push((c.nb / c.den) as u8);
            proof {
                let i0 = i as int;
                assert forall|t: int| 0 <= t < 3 * i0 + 3 implies #[trigger] out@[t] == recon_byte(
                    assignment@,
                    centroids@,
                    t,
                ) by {
                    if t >= 3 * i0 {
                        assert(t / 3 == i0 && (t % 3 == 0 || t % 3 == 1 || t % 3 == 2));
                    }
                }
            }
            i = i + 1;
        }
        Ok(out)
    }
}

/// A well-formed centroid's channels truncate to bytes: each quotient
/// lies in `[0, 255]` and equals the centroid's `byte_of` value.
proof fn lemma_channel_byte(c: Centroid)
    requires
        c.wf(),
    ensures
        0 <= c.nr as int / c.den as int <= 255,
        0 <= c.ng as int / c.den as int <= 255,
        0 <= c.nb as int / c.den as int <= 255,
        c.byte_of(0) == c.nr as int / c.den as int,
        c.byte_of(1) == c.ng as int / c.den as int,
        c.byte_of(2) == c.nb as int / c.den as int,
{
    let d = c.den as int;
    vstd::arithmetic::div_mod::lemma_div_by_multiple(255, d);
    assert(255 * d / d == 255);
    vstd::arithmetic::div_mod::lemma_div_is_ordered(c.nr as int, 255 * d, d);
    vstd::arithmetic::div_mod::lemma_div_is_ordered(c.ng as int, 255 * d, d);
    vstd::arithmetic::div_mod::lemma_div_is_ordered(c.nb as int, 255 * d, d);
    vstd::arithmetic::div_mod::lemma_div_pos_is_pos(c.nr as int, d);
    vstd::arithmetic::div_mod::lemma_div_pos_is_pos(c.ng as int, d);
    vstd::arithmetic::div_mod::lemma_div_pos_is_pos(c.nb as int, d);
}

} // verus!
