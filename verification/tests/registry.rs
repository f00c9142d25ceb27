//! Stream parameters, padded planes and sessions.

use utvideo::decoder::decode_frame;
use utvideo::encoder::{encode_frame, EncodedFrame, PlaneInput};
use utvideo::fourcc::{Extradata, Fourcc, Predictor, StreamConfig};
use utvideo::registry::{
    build_encoder_config, build_stream_config, claimed_tags, configure, fourcc_from_pixel_layout,
    fourcc_from_tag, fourcc_tag, is_addressable, is_measurable, repack_plane, repack_planes, tag_bytes,
    ConfigError, DecoderSession, EncoderSession, FrameError, PixelLayout, SessionError,
    StridedPlane, CODEC_ID_STR,
};
use utvideo::Error;

fn extradata() -> [u8; 16] {
    Extradata::ffmpeg_for(Fourcc::Uly4, 2).unwrap().to_bytes()
}

fn config() -> StreamConfig {
    configure(Fourcc::Uly4, 4, 4, &extradata()).unwrap()
}

fn samples(seed: u8) -> Vec<u8> {
    (0..16u8).map(|i| i.wrapping_mul(seed)).collect()
}

fn padded(samples: &[u8], width: usize, stride: usize) -> StridedPlane {
    let mut data = Vec::new();
    for row in samples.chunks(width) {
        data.extend_from_slice(row);
        data.extend(vec![0xee; stride - width]);
    }
    StridedPlane { stride, data }
}

fn frame_planes() -> Vec<StridedPlane> {
    vec![
        padded(&samples(3), 4, 4),
        padded(&samples(5), 4, 7),
        padded(&samples(7), 4, 5),
    ]
}

fn never(_: &[u8], _: &[u8]) -> bool {
    false
}

#[test]
fn tags_are_in_upper_case() {
    assert_eq!(tag_bytes(b"ulrg"), *b"ULRG");
    assert_eq!(tag_bytes(b"Ul{0"), *b"UL{0");
    assert_eq!(tag_bytes(&[0x60, 0x61, 0x7a, 0x7b]), [0x60, 0x41, 0x5a, 0x7b]);
    assert_eq!(fourcc_tag(Fourcc::Ulra), *b"ULRA");
}

#[test]
fn codec_claims_its_five_codes() {
    assert_eq!(CODEC_ID_STR, "utvideo");
    assert_eq!(
        claimed_tags(),
        vec![*b"ULRG", *b"ULRA", *b"ULY0", *b"ULY2", *b"ULY4"]
    );
    for tag in claimed_tags() {
        assert_eq!(*fourcc_from_tag(Some(tag)).unwrap().as_bytes(), tag);
    }
    assert_eq!(fourcc_from_tag(Some(*b"ULH0")), None);
    assert_eq!(fourcc_from_tag(None), None);
}

#[test]
fn pixel_layouts_name_codes() {
    assert_eq!(
        fourcc_from_pixel_layout(PixelLayout::Yuv420),
        Some(Fourcc::Uly0)
    );
    assert_eq!(
        fourcc_from_pixel_layout(PixelLayout::Yuv422),
        Some(Fourcc::Uly2)
    );
    assert_eq!(
        fourcc_from_pixel_layout(PixelLayout::Yuv444),
        Some(Fourcc::Uly4)
    );
    assert_eq!(fourcc_from_pixel_layout(PixelLayout::Other), None);
}

#[test]
fn decoder_configuration_waits_for_all_parts() {
    let tag = Some(*b"ULY4");
    let x = extradata();
    assert_eq!(build_stream_config(None, Some(4), Some(4), &x), Ok(None));
    assert_eq!(build_stream_config(tag, None, Some(4), &x), Ok(None));
    assert_eq!(build_stream_config(tag, Some(4), None, &x), Ok(None));
    assert_eq!(build_stream_config(tag, Some(4), Some(4), &[]), Ok(None));
    assert_eq!(
        build_stream_config(tag, Some(4), Some(4), &x),
        Ok(Some(config()))
    );
    assert_eq!(
        build_stream_config(tag, Some(4), Some(4), &x[..9]),
        Err(Error::ExtradataTruncated { len: 9 })
    );
}

#[test]
fn encoder_configuration_prefers_the_tag() {
    let c = build_encoder_config(
        Some(*b"ULY0"),
        Some(PixelLayout::Yuv444),
        Some(4),
        Some(6),
        &[],
    )
    .unwrap();
    assert_eq!(c.fourcc, Fourcc::Uly0);
    assert_eq!((c.width, c.height, c.num_slices()), (4, 6, 1));
    assert_eq!(
        c.extradata,
        Extradata::ffmpeg_for(Fourcc::Uly0, 1).unwrap()
    );
    let c = build_encoder_config(
        None,
        Some(PixelLayout::Yuv444),
        Some(4),
        Some(4),
        &extradata(),
    )
    .unwrap();
    assert_eq!(c, config());
}

#[test]
fn encoder_configuration_errors() {
    assert_eq!(
        build_encoder_config(None, None, Some(4), Some(4), &[]),
        Err(ConfigError::NoFormat)
    );
    assert_eq!(
        build_encoder_config(None, Some(PixelLayout::Other), Some(4), Some(4), &[]),
        Err(ConfigError::UnmappedFormat)
    );
    assert_eq!(
        build_encoder_config(Some(*b"ULRG"), None, Some(4), None, &[]),
        Err(ConfigError::NoDimensions)
    );
    assert!(matches!(
        build_encoder_config(Some(*b"ULY0"), None, Some(3), Some(4), &[]),
        Err(ConfigError::Codec(Error::DimensionConstraint(_)))
    ));
}

#[test]
fn padding_is_taken_out() {
    let want = samples(5);
    assert_eq!(repack_plane(&padded(&want, 4, 4), 0, 4, 4), Ok(want.clone()));
    assert_eq!(repack_plane(&padded(&want, 4, 9), 0, 4, 4), Ok(want));
}

#[test]
fn bad_planes_are_named() {
    let plane = |stride: usize, n: usize| StridedPlane {
        stride,
        data: vec![0; n],
    };
    assert_eq!(
        repack_plane(&plane(4, 15), 2, 4, 4),
        Err(FrameError::TooShort {
            plane: 2,
            got: 15,
            expected: 16
        })
    );
    assert_eq!(
        repack_plane(&plane(6, 22), 1, 4, 4),
        Err(FrameError::PaddedTooShort {
            plane: 1,
            got: 22,
            expected: 24
        })
    );
    assert_eq!(
        repack_plane(&plane(3, 99), 0, 4, 4),
        Err(FrameError::StrideTooSmall {
            plane: 0,
            stride: 3,
            width: 4
        })
    );
    let got = repack_planes(&config(), &frame_planes()[..2]);
    assert!(matches!(
        got,
        Err(FrameError::PlaneCount {
            expected: 3,
            got: 2
        })
    ));
}

#[test]
fn sessions_carry_a_frame_through() {
    let mut enc = EncoderSession::new(config());
    assert_eq!(enc.receive_packet(), Err(SessionError::NeedMore));
    enc.send_frame(&frame_planes(), never).unwrap();
    assert_eq!(
        enc.send_frame(&frame_planes(), never),
        Err(FrameError::Busy)
    );
    let packet = enc.receive_packet().unwrap();
    let direct = EncodedFrame {
        fourcc: Fourcc::Uly4,
        width: 4,
        height: 4,
        predictor: Predictor::Gradient,
        num_slices: 2,
        planes: vec![
            PlaneInput {
                samples: samples(3),
            },
            PlaneInput {
                samples: samples(5),
            },
            PlaneInput {
                samples: samples(7),
            },
        ],
    };
    assert_eq!(packet, encode_frame(&direct).unwrap());
    enc.flush();
    assert_eq!(enc.receive_packet(), Err(SessionError::Eof));

    let mut dec = DecoderSession::new(Some(config()));
    assert_eq!(dec.receive_frame(), Err(SessionError::NeedMore));
    dec.send_packet(&packet).unwrap();
    assert_eq!(dec.send_packet(&packet), Err(SessionError::Busy));
    dec.flush();
    let frame = dec.receive_frame().unwrap();
    assert_eq!(frame, decode_frame(&config(), &packet).unwrap());
    assert_eq!(frame.planes[0].samples, samples(3));
    assert_eq!(frame.planes[2].samples, samples(7));
    assert_eq!(dec.receive_frame(), Err(SessionError::Eof));
}

#[test]
fn encoder_session_keeps_waiting_after_a_bad_frame() {
    let mut enc = EncoderSession::new(config());
    assert!(enc.send_frame(&frame_planes()[1..], never).is_err());
    assert_eq!(enc.receive_packet(), Err(SessionError::NeedMore));
    enc.send_frame(&frame_planes(), never).unwrap();
    assert!(enc.receive_packet().is_ok());
}

#[test]
fn encoder_session_asks_which_predictor_is_better() {
    let mut enc = EncoderSession::new(config());
    enc.send_frame(&frame_planes(), |_: &[u8], _: &[u8]| true)
        .unwrap();
    let packet = enc.receive_packet().unwrap();
    let frame = decode_frame(&config(), &packet).unwrap();
    assert_eq!(frame.predictor, Predictor::Identity);
}

#[test]
fn decoder_session_needs_a_configuration() {
    let mut dec = DecoderSession::new(None);
    dec.send_packet(&[1, 2, 3]).unwrap();
    assert_eq!(dec.receive_frame(), Err(SessionError::NotConfigured));
    assert_eq!(dec.receive_frame(), Err(SessionError::NeedMore));
    assert!(dec.configure(Fourcc::Uly4, 4, 4, &[]).is_err());
    dec.configure(Fourcc::Uly4, 4, 4, &extradata()).unwrap();
    dec.send_packet(&[1, 2, 3]).unwrap();
    assert_eq!(
        dec.receive_frame(),
        Err(SessionError::Codec(Error::MissingFrameInfo))
    );
}

#[test]
fn addressability_follows_the_machine() {
    assert!(is_addressable(&config(), 1000));
    assert!(is_addressable(&config(), usize::MAX / 8));
    assert!(!is_addressable(&config(), usize::MAX / 8 + 1));
}

#[test]
fn encoder_parameters_configure_a_decoder() {
    for tag in claimed_tags() {
        let c = build_encoder_config(Some(tag), None, Some(6), Some(4), &[]).unwrap();
        let back = build_stream_config(
            Some(fourcc_tag(c.fourcc)),
            Some(c.width),
            Some(c.height),
            &c.extradata.to_bytes(),
        );
        assert_eq!(back, Ok(Some(c)));
    }
}

#[test]
fn refused_frames_say_why() {
    let cfg = config();
    let text = |e: FrameError| e.message(&cfg);
    assert_eq!(
        text(FrameError::PlaneCount {
            expected: 3,
            got: 12
        }),
        "oxideav-utvideo: encoder expected 3 planes for FourCC Uly4, got 12"
    );
    assert_eq!(
        text(FrameError::TooShort {
            plane: 1,
            got: 15,
            expected: 16
        }),
        "oxideav-utvideo: plane 1 has 15 bytes, expected 16 (4x4)"
    );
    assert_eq!(
        text(FrameError::PaddedTooShort {
            plane: 2,
            got: 0,
            expected: u128::MAX
        }),
        format!(
            "oxideav-utvideo: plane 2 has 0 bytes, expected at least stride*height = {}",
            u128::MAX
        )
    );
    assert_eq!(
        text(FrameError::StrideTooSmall {
            plane: 0,
            stride: 3,
            width: 4
        }),
        "oxideav-utvideo: plane 0 stride 3 is below plane width 4"
    );
    assert_eq!(
        text(FrameError::Busy),
        "oxideav-utvideo: receive_packet must be called before sending another frame"
    );
    assert_eq!(
        text(FrameError::Codec(Error::InvalidSliceCount)),
        "oxideav-utvideo: oxideav-utvideo: num_slices out of range (must be 1..=256 per spec/01 §4.4.3)"
    );
}

#[test]
fn refused_parameters_say_why() {
    assert_eq!(
        ConfigError::UnmappedFormat.message("Rgb24"),
        "oxideav-utvideo: encoder cannot derive FourCC from pixel format Rgb24 — \
         set CodecParameters::tag to a Ut Video FourCC (ULRG/ULRA/ULY0/ULY2/ULY4)"
    );
    assert_eq!(
        ConfigError::NoFormat.message(""),
        "oxideav-utvideo: encoder needs CodecParameters::tag or pixel_format"
    );
    assert_eq!(
        ConfigError::NoDimensions.message(""),
        "oxideav-utvideo: encoder needs CodecParameters::width / height"
    );
    assert_eq!(
        ConfigError::Codec(Error::HuffmanBitClear).message(""),
        format!("oxideav-utvideo: {}", Error::HuffmanBitClear.message())
    );
    assert_eq!(SessionError::Eof.message(), None);
    assert_eq!(SessionError::NeedMore.message(), None);
    assert_eq!(
        SessionError::Busy.message().unwrap(),
        "oxideav-utvideo: receive_frame must be called before sending another packet"
    );
    assert_eq!(
        SessionError::NotConfigured.message().unwrap(),
        "oxideav-utvideo: stream config not configured"
    );
}

#[test]
fn names_are_those_of_the_variants() {
    for tag in claimed_tags() {
        let f = fourcc_from_tag(Some(tag)).unwrap();
        assert_eq!(f.name(), format!("{f:?}"));
    }
    assert!(is_measurable(&config()));
}
