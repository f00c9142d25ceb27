//! Encoding a whole frame, and the lengths of its codes.

use utvideo::encoder::{build_lengths, encode_frame, EncodedFrame, PlaneInput};
use utvideo::fourcc::{Fourcc, Predictor};

#[test]
fn build_lengths_simple_two_symbol_histogram() {
    let mut counts = [0u64; 256];
    counts[0] = 100;
    counts[128] = 100;
    let lengths = build_lengths(&counts, 16).unwrap();
    assert_eq!(lengths[0], 1);
    assert_eq!(lengths[128], 1);
}

#[test]
fn encode_plane_solid_constant_uly0() {
    // A solid Y=128 plane under predictor=Left collapses to:
    //   first sample residual = 128 - 128 = 0; 255 zeros after.
    // i.e. all 256 residuals are 0, single-symbol-zero plane.
    let frame = EncodedFrame {
        fourcc: Fourcc::Uly0,
        width: 16,
        height: 16,
        predictor: Predictor::Left,
        num_slices: 1,
        planes: vec![
            PlaneInput {
                samples: vec![128u8; 256],
            },
            PlaneInput {
                samples: vec![128u8; 64],
            },
            PlaneInput {
                samples: vec![128u8; 64],
            },
        ],
    };
    let bytes = encode_frame(&frame).unwrap();
    // Each plane has 256-byte descriptor + 4-byte single end offset (0)
    // + 0 slice bytes; 3 planes; + 4 bytes frame_info.
    assert_eq!(bytes.len(), 3 * (256 + 4) + 4);
}
