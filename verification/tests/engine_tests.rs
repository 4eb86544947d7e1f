use color_kmeans::Centroid;
use color_kmeans::EngineState;
use color_kmeans::ImageReconstructor;
use color_kmeans::KMeansEngine;
use color_kmeans::KmError;
use color_kmeans::PixelMatrix;

fn byte_channels(c: &Centroid) -> (u64, u64, u64) {
    (c.nr / c.den, c.ng / c.den, c.nb / c.den)
}

#[test]
fn build_rejects_wrong_length() {
    let bytes: Vec<u8> = vec![1, 2, 3, 4, 5];
    let r = PixelMatrix::build(2, 1, &bytes);
    assert!(matches!(r, Err(KmError::ShapeError)));
}

#[test]
fn build_widens_bytes_in_raster_order() {
    let bytes: Vec<u8> = vec![1, 2, 3, 4, 5, 6];
    let m = PixelMatrix::build(2, 1, &bytes).unwrap();
    assert_eq!(m.len(), 2);
    assert_eq!((m.rows[0].r, m.rows[0].g, m.rows[0].b), (1, 2, 3));
    assert_eq!((m.rows[1].r, m.rows[1].g, m.rows[1].b), (4, 5, 6));
}

#[test]
fn matrix_serializes_back_to_its_buffer() {
    let bytes: Vec<u8> = vec![9, 8, 7, 6, 5, 4, 3, 2, 1, 0, 255, 128];
    let m = PixelMatrix::build(2, 2, &bytes).unwrap();
    assert_eq!(m.to_bytes(), bytes);
}

#[test]
fn train_with_too_many_clusters_fails_and_stays_unfit() {
    let bytes: Vec<u8> = vec![0, 0, 0, 255, 255, 255];
    let m = PixelMatrix::build(2, 1, &bytes).unwrap();
    let mut e = KMeansEngine::new(3);
    let r = e.train(&m);
    assert!(matches!(r, Err(KmError::InsufficientDataError)));
    assert_eq!(e.state, EngineState::Unfit);
    assert!(!e.converged);
    assert!(matches!(e.predict(&m), Err(KmError::NotFittedError)));
    assert!(matches!(e.centroids(), Err(KmError::NotFittedError)));
}

#[test]
fn empty_image_cannot_be_trained() {
    let bytes: Vec<u8> = Vec::new();
    let m = PixelMatrix::build(0, 0, &bytes).unwrap();
    assert_eq!(m.len(), 0);
    let mut e = KMeansEngine::new(1);
    assert!(matches!(e.train(&m), Err(KmError::InsufficientDataError)));
}

#[test]
fn two_pixel_two_clusters_recovers_both_colors() {
    let bytes: Vec<u8> = vec![0, 0, 0, 255, 255, 255];
    let m = PixelMatrix::build(2, 1, &bytes).unwrap();
    let mut e = KMeansEngine::new(2);
    e.train(&m).unwrap();
    assert!(e.converged);
    assert_eq!(e.iterations, 1);
    let cs = e.centroids().unwrap();
    assert_eq!(cs.len(), 2);
    let mut got: Vec<(u64, u64, u64)> = cs.iter().map(byte_channels).collect();
    got.sort();
    assert_eq!(got, vec![(0, 0, 0), (255, 255, 255)]);
    let a = e.predict(&m).unwrap();
    let out = ImageReconstructor::build(2, 1, &a, cs).unwrap();
    assert_eq!(out, bytes);
}

#[test]
fn four_pixel_single_cluster_exact_mean() {
    let bytes: Vec<u8> = vec![0, 0, 0, 0, 0, 0, 10, 10, 10, 255, 255, 255];
    let m = PixelMatrix::build(4, 1, &bytes).unwrap();
    let mut e = KMeansEngine::new(1);
    e.train(&m).unwrap();
    assert!(e.converged);
    assert!(e.iterations <= 2);
    let cs = e.centroids().unwrap();
    assert_eq!(cs.len(), 1);
    assert_eq!(cs[0].den, 4);
    assert_eq!((cs[0].nr, cs[0].ng, cs[0].nb), (265, 265, 265));
    let mean = cs[0].nr as f64 / cs[0].den as f64;
    assert_eq!(mean, 66.25);
}

#[test]
fn single_cluster_is_mean_of_whole_image_and_all_assigned_to_it() {
    let bytes: Vec<u8> = vec![10, 20, 30, 40, 50, 60, 70, 80, 95];
    let m = PixelMatrix::build(3, 1, &bytes).unwrap();
    let mut e = KMeansEngine::new(1);
    e.train(&m).unwrap();
    assert!(e.converged);
    assert!(e.iterations <= 2);
    let cs = e.centroids().unwrap();
    assert_eq!(cs[0].den, 3);
    assert_eq!((cs[0].nr, cs[0].ng, cs[0].nb), (120, 150, 185));
    let a = e.predict(&m).unwrap();
    assert_eq!(a, vec![0, 0, 0]);
}

#[test]
fn predict_twice_yields_identical_assignments() {
    let bytes: Vec<u8> = vec![
        0, 0, 0, 10, 0, 0, 0, 10, 0, 200, 200, 200, 210, 200, 190, 255, 255, 255,
    ];
    let m = PixelMatrix::build(6, 1, &bytes).unwrap();
    let mut e = KMeansEngine::new(2);
    let seed_before = e.seed;
    e.train(&m).unwrap();
    assert!(e.iterations >= 1);
    assert!(!e.converged || e.iterations <= 100);
    assert_eq!(e.seed, seed_before);
    let a1 = e.predict(&m).unwrap();
    let a2 = e.predict(&m).unwrap();
    assert_eq!(a1, a2);
    assert_eq!(e.state, EngineState::Fit);
}

#[test]
fn one_cluster_per_pixel_reproduces_the_image() {
    let bytes: Vec<u8> = vec![0, 0, 0, 50, 60, 70, 120, 130, 140, 250, 240, 230];
    let m = PixelMatrix::build(2, 2, &bytes).unwrap();
    let mut e = KMeansEngine::new(4);
    e.train(&m).unwrap();
    assert!(e.converged);
    assert_eq!(e.iterations, 1);
    let cs = e.centroids().unwrap();
    assert_eq!(cs.len(), 4);
    let a = e.predict(&m).unwrap();
    let out = ImageReconstructor::build(2, 2, &a, cs).unwrap();
    assert_eq!(out, bytes);
}

#[test]
fn one_cluster_per_pixel_with_duplicate_colors() {
    // Two pixels share a color: ties freeze one cluster, yet every pixel
    // still has a centroid sitting exactly on it.
    let bytes: Vec<u8> = vec![5, 5, 5, 5, 5, 5, 9, 9, 9];
    let m = PixelMatrix::build(3, 1, &bytes).unwrap();
    let mut e = KMeansEngine::new(3);
    e.train(&m).unwrap();
    assert!(e.converged);
    assert_eq!(e.iterations, 1);
    let a = e.predict(&m).unwrap();
    let out = ImageReconstructor::build(3, 1, &a, e.centroids().unwrap()).unwrap();
    assert_eq!(out, bytes);
}

#[test]
fn predict_accepts_a_different_matrix() {
    let train_bytes: Vec<u8> = vec![0, 0, 0, 255, 255, 255];
    let m = PixelMatrix::build(2, 1, &train_bytes).unwrap();
    let mut e = KMeansEngine::new(2);
    e.train(&m).unwrap();
    let other_bytes: Vec<u8> = vec![10, 10, 10, 250, 250, 250, 0, 0, 0];
    let other = PixelMatrix::build(3, 1, &other_bytes).unwrap();
    let a = e.predict(&other).unwrap();
    assert_eq!(a.len(), 3);
    // Dark pixels go with the dark centroid, bright with the bright one.
    assert_eq!(a[0], a[2]);
    assert_ne!(a[0], a[1]);
}

#[test]
fn round_trip_when_each_color_gets_its_own_cluster() {
    let bytes: Vec<u8> = vec![
        10, 20, 30, 10, 20, 30, 10, 20, 30, 200, 210, 220, 200, 210, 220, 200, 210, 220,
    ];
    let m = PixelMatrix::build(6, 1, &bytes).unwrap();
    let mut found = false;
    for seed in 0..32u64 {
        let mut e = KMeansEngine::with_seed(2, seed);
        e.train(&m).unwrap();
        if !e.converged {
            continue;
        }
        let cs = e.centroids().unwrap();
        let mut got: Vec<(u64, u64, u64)> = cs.iter().map(byte_channels).collect();
        got.sort();
        if got == vec![(10, 20, 30), (200, 210, 220)] {
            // Each color sits on its own cluster: the round trip must be exact.
            let a = e.predict(&m).unwrap();
            let out = ImageReconstructor::build(6, 1, &a, cs).unwrap();
            assert_eq!(out, bytes);
            found = true;
        }
    }
    assert!(found);
}

#[test]
fn equidistant_pixel_goes_to_lowest_index() {
    let e = KMeansEngine {
        k: 2,
        state: EngineState::Fit,
        centroids: vec![
            Centroid { nr: 0, ng: 0, nb: 0, den: 1 },
            Centroid { nr: 100, ng: 0, nb: 0, den: 1 },
        ],
        converged: false,
        iterations: 0,
        seed: 0,
    };
    let bytes: Vec<u8> = vec![50, 0, 0];
    let m = PixelMatrix::build(1, 1, &bytes).unwrap();
    let a = e.predict(&m).unwrap();
    assert_eq!(a, vec![0]);
}

#[test]
fn converged_fit_is_a_fixed_point_of_the_update() {
    let bytes: Vec<u8> = vec![
        0, 0, 0, 4, 4, 4, 8, 8, 8, 100, 100, 100, 104, 104, 104, 200, 200, 200, 204, 204, 204,
        208, 208, 208,
    ];
    let m = PixelMatrix::build(8, 1, &bytes).unwrap();
    let mut e = KMeansEngine::new(3);
    e.train(&m).unwrap();
    assert!(e.converged);
    let cs = e.centroids().unwrap().clone();
    let a = e.predict(&m).unwrap();
    for j in 0..cs.len() {
        let mut count: u64 = 0;
        let mut sums: (u64, u64, u64) = (0, 0, 0);
        for i in 0..a.len() {
            if a[i] == j {
                count += 1;
                sums.0 += m.rows[i].r as u64;
                sums.1 += m.rows[i].g as u64;
                sums.2 += m.rows[i].b as u64;
            }
        }
        if count > 0 {
            assert_eq!(cs[j].den, count);
            assert_eq!((cs[j].nr, cs[j].ng, cs[j].nb), sums);
        }
    }
}

#[test]
fn same_seed_same_fit() {
    let bytes: Vec<u8> = vec![0, 0, 0, 30, 40, 50, 90, 90, 90, 250, 250, 250];
    let m = PixelMatrix::build(4, 1, &bytes).unwrap();
    let mut e1 = KMeansEngine::with_seed(2, 7);
    let mut e2 = KMeansEngine::with_seed(2, 7);
    e1.train(&m).unwrap();
    e2.train(&m).unwrap();
    assert_eq!(e1.centroids().unwrap(), e2.centroids().unwrap());
    assert_eq!(e1.predict(&m).unwrap(), e2.predict(&m).unwrap());
}

#[test]
fn reconstruct_rejects_out_of_range_assignment() {
    let cs = vec![Centroid { nr: 1, ng: 2, nb: 3, den: 1 }];
    let a: Vec<usize> = vec![0, 1];
    let r = ImageReconstructor::build(2, 1, &a, &cs);
    assert!(matches!(r, Err(KmError::IndexError)));
}

#[test]
fn reconstruct_rejects_wrong_assignment_length() {
    let cs = vec![Centroid { nr: 1, ng: 2, nb: 3, den: 1 }];
    let a: Vec<usize> = vec![0];
    let r = ImageReconstructor::build(2, 1, &a, &cs);
    assert!(matches!(r, Err(KmError::IndexError)));
}

#[test]
fn reconstruct_truncates_channel_means() {
    // 5/2 = 2.5 and 7/3 = 2.33... both truncate to 2; 255/1 stays 255.
    let cs = vec![Centroid { nr: 5, ng: 7, nb: 255, den: 1 }];
    let cs2 = vec![Centroid { nr: 5, ng: 7, nb: 255, den: 2 }];
    let a: Vec<usize> = vec![0];
    let out = ImageReconstructor::build(1, 1, &a, &cs).unwrap();
    assert_eq!(out, vec![5, 7, 255]);
    let out2 = ImageReconstructor::build(1, 1, &a, &cs2).unwrap();
    assert_eq!(out2, vec![2, 3, 127]);
}
