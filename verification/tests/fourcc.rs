//! Identification: four-character codes, extradata and predictor bits.

use utvideo::fourcc::{Extradata, Fourcc, Predictor};
use utvideo::Error;

#[test]
fn fourcc_round_trip_all_five() {
    for code in [b"ULY0", b"ULY2", b"ULY4", b"ULRG", b"ULRA"] {
        let f = Fourcc::from_bytes(*code).unwrap();
        assert_eq!(f.as_bytes(), code);
    }
}

#[test]
fn fourcc_unknown_rejected() {
    assert!(matches!(
        Fourcc::from_bytes(*b"ULZZ"),
        Err(Error::UnknownFourcc(_))
    ));
}

#[test]
fn plane_count_per_fourcc() {
    assert_eq!(Fourcc::Uly0.plane_count(), 3);
    assert_eq!(Fourcc::Uly2.plane_count(), 3);
    assert_eq!(Fourcc::Uly4.plane_count(), 3);
    assert_eq!(Fourcc::Ulrg.plane_count(), 3);
    assert_eq!(Fourcc::Ulra.plane_count(), 4);
}

#[test]
fn plane_dim_subsampling() {
    // ULY0 16×16: Y 16×16, U/V 8×8.
    assert_eq!(Fourcc::Uly0.plane_dim(0, 16, 16), (16, 16));
    assert_eq!(Fourcc::Uly0.plane_dim(1, 16, 16), (8, 8));
    assert_eq!(Fourcc::Uly0.plane_dim(2, 16, 16), (8, 8));
    // ULY2 16×16: Y 16×16, U/V 8×16.
    assert_eq!(Fourcc::Uly2.plane_dim(0, 16, 16), (16, 16));
    assert_eq!(Fourcc::Uly2.plane_dim(1, 16, 16), (8, 16));
    // ULY4 16×16: all 16×16.
    assert_eq!(Fourcc::Uly4.plane_dim(2, 16, 16), (16, 16));
    // ULRG/ULRA all planes are full-size.
    assert_eq!(Fourcc::Ulra.plane_dim(3, 16, 16), (16, 16));
}

#[test]
fn dim_constraints_match_spec() {
    assert!(Fourcc::Uly0.validate_dims(15, 16).is_err());
    assert!(Fourcc::Uly0.validate_dims(16, 15).is_err());
    assert!(Fourcc::Uly0.validate_dims(16, 16).is_ok());
    assert!(Fourcc::Uly2.validate_dims(15, 17).is_err());
    assert!(Fourcc::Uly2.validate_dims(16, 17).is_ok());
    assert!(Fourcc::Uly4.validate_dims(15, 15).is_ok());
    assert!(Fourcc::Ulrg.validate_dims(15, 15).is_ok());
    assert!(Fourcc::Ulra.validate_dims(15, 15).is_ok());
}

#[test]
fn extradata_parse_ffmpeg_uly0_fixture() {
    let raw = [
        0xf0, 0x00, 0x00, 0x01, 0x59, 0x56, 0x31, 0x32, 0x04, 0x00, 0x00, 0x00, 0x01, 0x00,
        0x00, 0x00,
    ];
    let ed = Extradata::parse(&raw).unwrap();
    assert_eq!(ed.encoder_version, 0x0100_00f0);
    assert_eq!(&ed.source_format_tag, b"YV12");
    assert_eq!(ed.frame_info_size, 4);
    assert_eq!(ed.flags, 0x0000_0001);
    assert_eq!(ed.num_slices(), 1);
}

#[test]
fn extradata_slice_count_decoded() {
    let raw = [
        0xf0, 0x00, 0x00, 0x01, 0x59, 0x56, 0x31, 0x32, 0x04, 0x00, 0x00, 0x00, 0x01, 0x00,
        0x00, 0x03,
    ];
    let ed = Extradata::parse(&raw).unwrap();
    assert_eq!(ed.num_slices(), 4);
}

#[test]
fn extradata_rejects_bad_frame_info_size() {
    let mut raw = [
        0xf0, 0x00, 0x00, 0x01, 0x59, 0x56, 0x31, 0x32, 0x04, 0x00, 0x00, 0x00, 0x01, 0x00,
        0x00, 0x00,
    ];
    raw[8] = 8; // frame_info_size = 8
    assert!(matches!(
        Extradata::parse(&raw),
        Err(Error::InvalidFrameInfoSize(8))
    ));
}

#[test]
fn extradata_rejects_huffman_clear() {
    let raw = [
        0xf0, 0x00, 0x00, 0x01, 0x59, 0x56, 0x31, 0x32, 0x04, 0x00, 0x00, 0x00, 0x00, 0x00,
        0x00, 0x00,
    ];
    assert!(matches!(
        Extradata::parse(&raw),
        Err(Error::HuffmanBitClear)
    ));
}

#[test]
fn extradata_rejects_interlaced() {
    let raw = [
        0xf0, 0x00, 0x00, 0x01, 0x59, 0x56, 0x31, 0x32, 0x04, 0x00, 0x00, 0x00, 0x01, 0x08,
        0x00, 0x00,
    ];
    assert!(matches!(
        Extradata::parse(&raw),
        Err(Error::InterlacedNotSupported)
    ));
}

#[test]
fn extradata_rejects_truncated() {
    assert!(matches!(
        Extradata::parse(&[0; 8]),
        Err(Error::ExtradataTruncated { len: 8 })
    ));
}

#[test]
fn predictor_round_trip_via_frame_info() {
    for p in [
        Predictor::Identity,
        Predictor::Left,
        Predictor::Gradient,
        Predictor::Median,
    ] {
        assert_eq!(Predictor::from_frame_info(p.as_frame_info_bits()), p);
    }
}

#[test]
fn predictor_ignores_other_bits() {
    assert_eq!(Predictor::from_frame_info(0xffff_ffff), Predictor::Median);
    assert_eq!(Predictor::from_frame_info(0x1234_5101), Predictor::Left);
}

#[test]
fn ffmpeg_source_format_tag_pinned_per_spec01_t1() {
    assert_eq!(&Fourcc::Uly0.ffmpeg_source_format_tag(), b"YV12");
    assert_eq!(&Fourcc::Uly2.ffmpeg_source_format_tag(), b"YUY2");
    assert_eq!(&Fourcc::Uly4.ffmpeg_source_format_tag(), b"YV24");
    assert_eq!(
        Fourcc::Ulrg.ffmpeg_source_format_tag(),
        [0x00, 0x00, 0x01, 0x18]
    );
    assert_eq!(
        Fourcc::Ulra.ffmpeg_source_format_tag(),
        [0x00, 0x00, 0x02, 0x18]
    );
}

#[test]
fn extradata_ffmpeg_for_builder_matches_spec01_t1_uly0() {
    let ed = Extradata::ffmpeg_for(Fourcc::Uly0, 1).unwrap();
    assert_eq!(
        ed.to_bytes(),
        [
            0xf0, 0x00, 0x00, 0x01, 0x59, 0x56, 0x31, 0x32, 0x04, 0x00, 0x00, 0x00, 0x01, 0x00,
            0x00, 0x00,
        ]
    );
    assert_eq!(ed.num_slices(), 1);
}

#[test]
fn extradata_ffmpeg_for_builder_matches_spec01_t1_uly2() {
    let ed = Extradata::ffmpeg_for(Fourcc::Uly2, 1).unwrap();
    assert_eq!(
        ed.to_bytes(),
        [
            0xf0, 0x00, 0x00, 0x01, 0x59, 0x55, 0x59, 0x32, 0x04, 0x00, 0x00, 0x00, 0x01, 0x00,
            0x00, 0x00,
        ]
    );
}

#[test]
fn extradata_ffmpeg_for_builder_matches_spec01_t1_uly4() {
    let ed = Extradata::ffmpeg_for(Fourcc::Uly4, 1).unwrap();
    assert_eq!(
        ed.to_bytes(),
        [
            0xf0, 0x00, 0x00, 0x01, 0x59, 0x56, 0x32, 0x34, 0x04, 0x00, 0x00, 0x00, 0x01, 0x00,
            0x00, 0x00,
        ]
    );
}

#[test]
fn extradata_ffmpeg_for_builder_matches_spec01_t1_ulrg() {
    let ed = Extradata::ffmpeg_for(Fourcc::Ulrg, 1).unwrap();
    assert_eq!(
        ed.to_bytes(),
        [
            0xf0, 0x00, 0x00, 0x01, 0x00, 0x00, 0x01, 0x18, 0x04, 0x00, 0x00, 0x00, 0x01, 0x00,
            0x00, 0x00,
        ]
    );
}

#[test]
fn extradata_ffmpeg_for_builder_matches_spec01_t1_ulra() {
    let ed = Extradata::ffmpeg_for(Fourcc::Ulra, 1).unwrap();
    assert_eq!(
        ed.to_bytes(),
        [
            0xf0, 0x00, 0x00, 0x01, 0x00, 0x00, 0x02, 0x18, 0x04, 0x00, 0x00, 0x00, 0x01, 0x00,
            0x00, 0x00,
        ]
    );
}

#[test]
fn extradata_ffmpeg_for_encodes_slice_count_high_byte() {
    let ed = Extradata::ffmpeg_for(Fourcc::Uly0, 4).unwrap();
    assert_eq!(ed.num_slices(), 4);
    assert_eq!((ed.flags >> 24) & 0xff, 0x03);

    // Slice count 256 → flags top byte 0xff (the maximum).
    let ed = Extradata::ffmpeg_for(Fourcc::Uly4, 256).unwrap();
    assert_eq!(ed.num_slices(), 256);
    assert_eq!((ed.flags >> 24) & 0xff, 0xff);
}

#[test]
fn extradata_ffmpeg_for_rejects_out_of_range_slices() {
    assert!(matches!(
        Extradata::ffmpeg_for(Fourcc::Uly0, 0),
        Err(Error::InvalidSliceCount)
    ));
    assert!(matches!(
        Extradata::ffmpeg_for(Fourcc::Uly0, 257),
        Err(Error::InvalidSliceCount)
    ));
}

#[test]
fn extradata_ffmpeg_for_round_trips_through_parse() {
    // Parsing what was built gives back an equal Extradata for every
    // FOURCC at slice counts 1, 16, 256.
    for &fc in &[
        Fourcc::Uly0,
        Fourcc::Uly2,
        Fourcc::Uly4,
        Fourcc::Ulrg,
        Fourcc::Ulra,
    ] {
        for &slices in &[1usize, 16, 256] {
            let ed = Extradata::ffmpeg_for(fc, slices).unwrap();
            let bytes = ed.to_bytes();
            let parsed = Extradata::parse(&bytes).unwrap();
            assert_eq!(parsed, ed, "round-trip fc={fc:?} slices={slices}");
        }
    }
}
