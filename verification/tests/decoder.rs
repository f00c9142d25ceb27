//! Decoding a whole frame.

use utvideo::decoder::decode_frame;
use utvideo::encoder::{encode_frame, EncodedFrame, PlaneInput};
use utvideo::fourcc::{Extradata, Fourcc, Predictor, StreamConfig};

fn cfg_for(fc: Fourcc, w: u32, h: u32, slices: usize) -> StreamConfig {
    let flags = 0x0000_0001 | (((slices as u32 - 1) & 0xff) << 24);
    let extradata = Extradata {
        encoder_version: 0x0100_00f0,
        source_format_tag: *b"YV12",
        frame_info_size: 4,
        flags,
    };
    StreamConfig::new(fc, w, h, extradata).unwrap()
}

#[test]
fn decode_synthesised_uly0_constant_frame() {
    // Build a constant 16×16 ULY0 plane via the encoder and roundtrip.
    let cfg = cfg_for(Fourcc::Uly0, 16, 16, 1);
    let y = vec![123u8; 16 * 16];
    let u = vec![64u8; 8 * 8];
    let v = vec![200u8; 8 * 8];
    let frame = EncodedFrame {
        fourcc: cfg.fourcc,
        width: 16,
        height: 16,
        predictor: Predictor::Left,
        num_slices: 1,
        planes: vec![
            PlaneInput { samples: y.clone() },
            PlaneInput { samples: u.clone() },
            PlaneInput { samples: v.clone() },
        ],
    };
    let bytes = encode_frame(&frame).unwrap();
    let decoded = decode_frame(&cfg, &bytes).unwrap();
    assert_eq!(decoded.fourcc, Fourcc::Uly0);
    assert_eq!(decoded.predictor, Predictor::Left);
    assert_eq!(decoded.planes.len(), 3);
    assert_eq!(decoded.planes[0].samples, y);
    assert_eq!(decoded.planes[1].samples, u);
    assert_eq!(decoded.planes[2].samples, v);
}
