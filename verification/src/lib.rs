//! Color quantization by k-means clustering in RGB space.
//!
//! An image is a dense matrix of pixels, one row per pixel and one column
//! per channel. A k-means engine fits `k` representative colors (centroids)
//! to the pixel population, assigns every pixel to its nearest centroid
//! under squared Euclidean distance, and the reconstructor rebuilds an
//! output byte buffer in which each pixel carries its centroid's color.
//!
//! Centroid channels are exact rationals (a channel sum over a cluster
//! size), so cluster means carry no rounding error.

use vstd::prelude::*;

mod assign;
mod centroid;
mod cluster;
mod engine;
mod init;
mod matrix;
mod reconstruct;

pub use assign::all_wf;
pub use assign::is_nearest;
pub use assign::lemma_assignment_deterministic;
pub use assign::lemma_exact_match_preserved;
pub use assign::lemma_nearest_unique;
pub use assign::lemma_single_centroid_assignment;
pub use assign::lemma_zero_distance_nearest;
pub use assign::nearest_idx;
pub use assign::spec_assignment;
pub use centroid::Centroid;
pub use centroid::dist_le;
pub use centroid::dist_lt;
pub use centroid::lemma_zero_distance_exact_color;
pub use centroid::sqd_num;
pub use cluster::channel_total;
pub use cluster::cluster_count;
pub use cluster::cluster_sum;
pub use cluster::is_exact_mean_of;
pub use cluster::lemma_pure_cluster_exact;
pub use cluster::mean_entry;
pub use engine::EngineState;
pub use engine::KMeansEngine;
pub use engine::MAX_ITERS;
pub use engine::exact_cover;
pub use engine::has_exact_match;
pub use engine::fixed_point;
pub use engine::from_update_pass;
pub use engine::is_update_of;
pub use matrix::MAX_PIXELS;
pub use matrix::Pixel;
pub use matrix::lemma_matrix_round_trip;
pub use matrix::pixel_byte;
pub use matrix::PixelMatrix;
pub use reconstruct::ImageReconstructor;
pub use reconstruct::recon_byte;

verus! {

/// The failures the library reports. All are deterministic input-validation
/// errors; none leaves a value half-changed.
#[derive(Clone, Copy, Debug, PartialEq, Eq, Structural)]
pub enum KmError {
    /// A byte buffer's length does not match the declared dimensions.
    ShapeError,
    /// Fewer pixels than requested clusters.
    InsufficientDataError,
    /// `predict` or `centroids` called before a successful `train`.
    NotFittedError,
    /// An assignment entry is out of range, or the assignment vector's
    /// length does not match the declared dimensions.
    IndexError,
}

} // verus!
