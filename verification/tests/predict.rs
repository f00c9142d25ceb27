//! Spatial predictors and colour decorrelation.

use utvideo::fourcc::Predictor;
use utvideo::predict::{apply, forward, forward_decorrelate_rgb, inverse_decorrelate_rgb};

fn round_trip(pred: Predictor, w: usize, h: usize, slices: usize) {
    // Synthesise a deterministic plane and verify forward / inverse round-trip.
    let mut plane: Vec<u8> = (0..w * h).map(|i| ((i * 17 + 3) & 0xff) as u8).collect();
    let residuals = forward(pred, &plane, w, h, slices);
    let mut decoded = vec![0u8; w * h];
    apply(pred, &mut decoded, w, h, slices, &residuals);
    if decoded != plane {
        for (i, (a, b)) in decoded.iter().zip(plane.iter()).enumerate() {
            if a != b {
                panic!("plane mismatch at {} ({} vs {}) for {:?}", i, a, b, pred);
            }
        }
    }
    plane[0] = plane[0].wrapping_add(0);
    let _ = plane;
}

#[test]
fn left_round_trip_single_slice() {
    round_trip(Predictor::Left, 16, 16, 1);
}

#[test]
fn left_round_trip_multi_slice() {
    round_trip(Predictor::Left, 16, 16, 4);
}

#[test]
fn none_round_trip() {
    round_trip(Predictor::Identity, 16, 16, 1);
    round_trip(Predictor::Identity, 16, 16, 8);
}

#[test]
fn gradient_round_trip_various_slices() {
    for slices in [1, 2, 4, 8] {
        round_trip(Predictor::Gradient, 16, 16, slices);
    }
}

#[test]
fn median_round_trip_various_slices() {
    for slices in [1, 2, 4, 8] {
        round_trip(Predictor::Median, 16, 16, slices);
    }
}

#[test]
fn rgb_decorrelation_round_trip() {
    let g: Vec<u8> = (0..256).map(|x| x as u8).collect();
    let mut b: Vec<u8> = (0..256).map(|x| ((x * 7) & 0xff) as u8).collect();
    let mut r: Vec<u8> = (0..256).map(|x| ((x * 13) & 0xff) as u8).collect();
    let b0 = b.clone();
    let r0 = r.clone();
    forward_decorrelate_rgb(&g, &mut b, &mut r);
    inverse_decorrelate_rgb(&g, &mut b, &mut r);
    assert_eq!(b, b0);
    assert_eq!(r, r0);
}

#[test]
fn left_first_pixel_seed_128_per_slice() {
    let plane = vec![0u8; 16 * 16];
    let residuals = forward(Predictor::Left, &plane, 16, 16, 1);
    assert_eq!(residuals.len(), 1);
    assert_eq!(residuals[0][0], 128);
    for &r in &residuals[0][1..] {
        assert_eq!(r, 0);
    }
}
