//! The pixel matrix: a dense, row-major table with one row per pixel and
//! one column per color channel, built from and serialized back to a raw
//! byte buffer.

use vstd::prelude::*;

use crate::KmError;

verus! {

/// Largest pixel count a matrix may hold. Distance comparisons between
/// exact rational centroids cross-multiply by squared cluster sizes, and
/// this bound keeps every such product inside 128-bit arithmetic.
pub const MAX_PIXELS: u64 = 134217728;

/// One pixel: three 8-bit channel values in raster order.
#[derive(Clone, Copy, Debug, PartialEq, Eq, Structural)]
pub struct Pixel {
    pub r: u8,
    pub g: u8,
    pub b: u8,
}

impl Pixel {
    /// Channel `j` of this pixel, as a mathematical integer.
    pub open spec fn ch(self, j: int) -> int {
        if j == 0 {
            self.r as int
        } else if j == 1 {
            self.g as int
        } else {
            self.b as int
        }
    }
}

/// N rows by 3 columns of channel values, row order equal to pixel order
/// in raster scan. Built once from a decoded image and never mutated.
pub struct PixelMatrix {
    pub width: u32,
    pub height: u32,
    pub rows: Vec<Pixel>,
}

impl PixelMatrix {
    /// The matrix shape agrees with its declared dimensions and fits the
    /// library's pixel-count bound.
    pub open spec fn wf(self) -> bool {
        &&& self.rows@.len() == self.width as int * self.height as int
        &&& self.rows@.len() <= MAX_PIXELS
    }

    /// Number of pixel rows.
    pub open spec fn spec_len(self) -> int {
        self.rows@.len() as int
    }

    /// Builds a matrix from a raw channel buffer, three bytes per pixel.
    /// Fails exactly when the buffer length does not equal
    /// `width * height * 3`.
    pub fn build(width: u32, height: u32, bytes: &Vec<u8>) -> (r: Result<PixelMatrix, KmError>)
        requires
            width as int * height as int <= MAX_PIXELS,
        ensures
            match r {
                Ok(m) => {
                    &&& bytes@.len() == width as int * height as int * 3
                    &&& m.wf()
                    &&& m.width == width
                    &&& m.height == height
                    &&& m.rows@.len() == width as int * height as int
                    &&& forall|i: int|
                        0 <= i < m.rows@.len() ==> #[trigger] m.rows@[i] == (Pixel {
                            r: bytes@[3 * i],
                            g: bytes@[3 * i + 1],
                            b: bytes@[3 * i + 2],
                        })
                },
                Err(e) => {
                    &&& e == KmError::ShapeError
                    &&& bytes@.len() != width as int * height as int * 3
                },
            },
    {
        let n: u64 = (width as u64) * (height as u64);
        if (bytes.len() as u64 as u128) != (n as u128) * 3 {
            return Err(KmError::ShapeError);
        }
        let count: usize = n as usize;
        let mut rows: Vec<Pixel> = Vec::new();
        let mut i: usize = 0;
        while i < count
            invariant
                0 <= i <= count,
                count <= MAX_PIXELS,
                count == width as int * height as int,
                bytes@.len() == count * 3,
                rows@.len() == i,
                forall|t: int|
                    0 <= t < i ==> #[trigger] rows@[t] == (Pixel {
                        r: bytes@[3 * t],
                        g: bytes@[3 * t + 1],
                        b: bytes@[3 * t + 2],
                    }),
            decreases count - i,
        {
            let px = Pixel { r: bytes[3 * i], g: bytes[3 * i + 1], b: bytes[3 * i + 2] };
            rows.push(px);
            i = i + 1;
        }
        Ok(PixelMatrix { width, height, rows })
    }

    /// Number of pixel rows, executable form.
    pub fn len(&self) -> (r: usize)
        ensures
            r == self.spec_len(),
    {
        self.rows.len()
    }

    /// Serializes the matrix back to a raw channel buffer, the inverse
    /// of `build`: three bytes per pixel, raster order.
    pub fn to_bytes(&self) -> (r: Vec<u8>)
        requires
            self.wf(),
        ensures
            r@.len() == 3 * self.rows@.len(),
            forall|t: int| 0 <= t < r@.len() ==> #[trigger] r@[t] == pixel_byte(self.rows@, t),
    {
        let n = self.rows.len();
        let mut out: Vec<u8> = Vec::new();
        let mut i: usize = 0;
        while i < n
            invariant
                n == self.rows@.len(),
                n <= MAX_PIXELS,
                0 <= i <= n,
                out@.len() == 3 * i,
                forall|t: int| 0 <= t < 3 * i ==> #[trigger] out@[t] == pixel_byte(self.rows@, t),
            decreases n - i,
        {
            let p = self.rows[i];
            out.push(p.r);
            out.push(p.g);
            out.push(p.b);
            proof {
                let i0 = i as int;
                assert forall|t: int| 0 <= t < 3 * i0 + 3 implies #[trigger] out@[t] == pixel_byte(
                    self.rows@,
                    t,
                ) by {
                    if t >= 3 * i0 {
                        assert(t / 3 == i0 && (t % 3 == 0 || t % 3 == 1 || t % 3 == 2));
                    }
                }
            }
            i = i + 1;
        }
        out
    }
}

/// Byte `t` of a serialized pixel table: channel `t % 3` of pixel
/// `t / 3`.
pub open spec fn pixel_byte(rows: Seq<Pixel>, t: int) -> int {
    rows[t / 3].ch(t % 3)
}

/// Serialization inverts construction: a matrix built from a channel
/// buffer serializes back to that buffer, byte for byte.
pub proof fn lemma_matrix_round_trip(bytes: Seq<u8>, rows: Seq<Pixel>)
    requires
        bytes.len() == 3 * rows.len(),
        forall|i: int|
            0 <= i < rows.len() ==> #[trigger] rows[i] == (Pixel {
                r: bytes[3 * i],
                g: bytes[3 * i + 1],
                b: bytes[3 * i + 2],
            }),
    ensures
        forall|t: int| 0 <= t < bytes.len() ==> #[trigger] pixel_byte(rows, t) == bytes[t],
{
    assert forall|t: int| 0 <= t < bytes.len() implies #[trigger] pixel_byte(rows, t)
        == bytes[t] by {
        let i = t / 3;
        assert(t == 3 * i + t % 3 && 0 <= t % 3 < 3);
        assert(rows[i] == (Pixel { r: bytes[3 * i], g: bytes[3 * i + 1], b: bytes[3 * i + 2] }));
    }
}

} // verus!
