//! One input for each error, its category and its text.

use utvideo::decoder::{decode_frame, decode_frame_strict};
use utvideo::encoder::{build_lengths, encode_frame, pack_slice, EncodedFrame, PlaneInput};
use utvideo::fourcc::{Extradata, Fourcc, Predictor, StreamConfig};
use utvideo::huffman::HuffmanTable;
use utvideo::inspect::peek_frame;
use utvideo::{Error, ErrorCategory};

fn config(slices: usize) -> StreamConfig {
    let x = Extradata::ffmpeg_for(Fourcc::Uly4, slices).unwrap();
    StreamConfig::new(Fourcc::Uly4, 4, 4, x).unwrap()
}

fn ramp() -> Vec<u8> {
    (0..16u8).map(|i| i * 3).collect()
}

fn frame(slices: usize) -> EncodedFrame {
    EncodedFrame {
        fourcc: Fourcc::Uly4,
        width: 4,
        height: 4,
        predictor: Predictor::Identity,
        num_slices: slices,
        planes: vec![
            PlaneInput { samples: ramp() },
            PlaneInput { samples: ramp() },
            PlaneInput { samples: ramp() },
        ],
    }
}

fn expect(e: Error, category: ErrorCategory, text: &str) {
    assert_eq!(e.category(), category);
    assert_eq!(
        e.is_malformed_stream(),
        category == ErrorCategory::MalformedStream
    );
    assert_eq!(e.is_api_misuse(), category == ErrorCategory::ApiMisuse);
    assert_eq!(e.is_unsupported(), category == ErrorCategory::Unsupported);
    assert_eq!(e.is_stream_shape(), category == ErrorCategory::StreamShape);
    assert_eq!(e.message(), format!("oxideav-utvideo: {text}"));
}

#[test]
fn unknown_fourcc_names_the_bytes() {
    let e = Fourcc::from_bytes([0x55, 0x4c, 0x0a, 0xff]).unwrap_err();
    assert_eq!(e, Error::UnknownFourcc([0x55, 0x4c, 0x0a, 0xff]));
    expect(e, ErrorCategory::StreamShape, "unknown FourCC 554c0aff");
}

#[test]
fn short_extradata_names_its_length() {
    let e = Extradata::parse(&[0; 15]).unwrap_err();
    assert_eq!(e, Error::ExtradataTruncated { len: 15 });
    expect(
        e,
        ErrorCategory::StreamShape,
        "extradata too short (15 bytes; require >= 16)",
    );
}

#[test]
fn frame_info_size_is_named() {
    let mut raw = Extradata::ffmpeg_for(Fourcc::Uly0, 1).unwrap().to_bytes();
    raw[9] = 1;
    let e = Extradata::parse(&raw).unwrap_err();
    assert_eq!(e, Error::InvalidFrameInfoSize(260));
    expect(
        e,
        ErrorCategory::StreamShape,
        "extradata frame_info_size != 4 (260)",
    );
}

#[test]
fn raw_mode_and_interlaced_are_unsupported() {
    let mut raw = Extradata::ffmpeg_for(Fourcc::Uly0, 1).unwrap().to_bytes();
    raw[12] = 0;
    let e = Extradata::parse(&raw).unwrap_err();
    assert_eq!(e, Error::HuffmanBitClear);
    expect(
        e,
        ErrorCategory::Unsupported,
        "extradata flags Huffman bit clear (raw slice mode unsupported)",
    );
    raw[12] = 1;
    raw[13] = 8;
    let e = Extradata::parse(&raw).unwrap_err();
    assert_eq!(e, Error::InterlacedNotSupported);
    assert_eq!(e.category(), ErrorCategory::Unsupported);
}

#[test]
fn slice_count_is_an_api_error() {
    let e = Extradata::ffmpeg_for(Fourcc::Uly0, 300).unwrap_err();
    expect(
        e,
        ErrorCategory::ApiMisuse,
        "num_slices out of range (must be 1..=256 per spec/01 §4.4.3)",
    );
}

#[test]
fn encoder_rejects_bad_slice_counts() {
    for n in [0usize, 257] {
        let e = encode_frame(&frame(n)).unwrap_err();
        assert_eq!(e, Error::InvalidSliceCount);
    }
}

#[test]
fn dimension_constraints_say_which() {
    let e = Fourcc::Uly0.validate_dims(15, 16).unwrap_err();
    assert!(matches!(e, Error::DimensionConstraint(_)));
    assert_eq!(e.category(), ErrorCategory::StreamShape);
    assert!(e
        .message()
        .starts_with("oxideav-utvideo: dimension constraint violated: "));
    assert!(Fourcc::Uly4.validate_dims(0, 4).is_err());
    assert!(Fourcc::Uly4.validate_dims(4, 0).is_err());
}

#[test]
fn truncated_chunk_names_offset_and_lengths() {
    let bytes = encode_frame(&frame(1)).unwrap();
    let e = decode_frame(&config(1), &bytes[..100]).unwrap_err();
    assert_eq!(
        e,
        Error::ChunkTooShort {
            offset: 0,
            needed: 256,
            have: 96
        }
    );
    expect(
        e,
        ErrorCategory::MalformedStream,
        "chunk truncated at offset 0 (need 256, have 96)",
    );
}

#[test]
fn trailing_bytes_are_rejected() {
    let mut bytes = encode_frame(&frame(1)).unwrap();
    let end = bytes.len();
    bytes.extend_from_slice(&[0; 4]);
    let e = decode_frame(&config(1), &bytes).unwrap_err();
    assert_eq!(
        e,
        Error::ChunkTooShort {
            offset: end - 4,
            needed: 4,
            have: 0
        }
    );
}

#[test]
fn slice_offsets_must_grow_in_whole_words() {
    let bytes = encode_frame(&frame(2)).unwrap();
    let mut down = bytes.clone();
    down[260..264].copy_from_slice(&0u32.to_le_bytes());
    let e = decode_frame(&config(2), &down).unwrap_err();
    expect(
        e,
        ErrorCategory::MalformedStream,
        "non-monotonic slice end offsets",
    );
    let mut odd = bytes;
    odd[256..260].copy_from_slice(&3u32.to_le_bytes());
    let e = decode_frame(&config(2), &odd).unwrap_err();
    expect(
        e,
        ErrorCategory::MalformedStream,
        "slice byte-length 3 not a multiple of 4",
    );
}

#[test]
fn missing_frame_info_is_malformed() {
    let e = decode_frame(&config(1), &[1, 2, 3]).unwrap_err();
    expect(
        e,
        ErrorCategory::MalformedStream,
        "chunk missing trailing frame_info dword",
    );
}

#[test]
fn descriptors_must_be_complete() {
    let mut d = [255u8; 256];
    d[3] = 1;
    let e = HuffmanTable::build(&d).unwrap_err();
    expect(
        e,
        ErrorCategory::MalformedStream,
        "Huffman code-length descriptor violates Kraft equality",
    );
    d[3] = 0;
    d[4] = 0;
    let e = HuffmanTable::build(&d).unwrap_err();
    expect(
        e,
        ErrorCategory::MalformedStream,
        "multiple code_length=0 sentinels",
    );
}

#[test]
fn descriptor_without_symbols_is_rejected() {
    assert_eq!(
        HuffmanTable::build(&[255u8; 256]).unwrap_err(),
        Error::KraftViolation
    );
}

#[test]
fn over_full_descriptor_is_rejected() {
    let mut d = [255u8; 256];
    d[1] = 1;
    d[2] = 1;
    d[3] = 1;
    assert_eq!(HuffmanTable::build(&d).unwrap_err(), Error::KraftViolation);
}

#[test]
fn residual_without_code_cannot_be_packed() {
    let mut d = [255u8; 256];
    d[0] = 1;
    d[1] = 1;
    let t = HuffmanTable::build(&d).unwrap();
    let e = pack_slice(&t, &[0, 1, 9]).unwrap_err();
    assert_eq!(e, Error::HuffmanDecodeFailure { bit_position: 0 });
    expect(
        e,
        ErrorCategory::MalformedStream,
        "Huffman bit-prefix unmatched at bit 0",
    );
}

#[test]
fn short_slice_data_is_reported_with_progress() {
    let mut d = [255u8; 256];
    d[0] = 1;
    d[1] = 1;
    let t = HuffmanTable::build(&d).unwrap();
    let e = t.decode_slice(&[0xff; 4], 40).unwrap_err();
    assert_eq!(
        e,
        Error::SliceTruncated {
            bit_position: 32,
            expected_pixels: 40,
            decoded: 32
        }
    );
    expect(
        e,
        ErrorCategory::MalformedStream,
        "slice truncated at bit 32 (decoded 32/40 pixels)",
    );
}

#[test]
fn strict_decoder_locates_set_padding() {
    let bytes = encode_frame(&frame(3)).unwrap();
    let layout = peek_frame(&config(3), &bytes).unwrap();
    let last = layout.planes[1].slices[1].end - 4;
    let mut bad = bytes.clone();
    bad[last] |= 1;
    assert_eq!(
        decode_frame(&config(3), &bad).unwrap().planes[1].samples,
        ramp()
    );
    let e = decode_frame_strict(&config(3), &bad).unwrap_err();
    let slice_bits = 8 * (layout.planes[1].slices[1].end - layout.planes[1].slices[1].start);
    assert_eq!(
        e,
        Error::NonZeroPadding {
            plane: 1,
            slice: 1,
            bit_position: slice_bits - 1
        }
    );
    expect(
        e,
        ErrorCategory::MalformedStream,
        &format!(
            "non-zero slice padding in plane 1 slice 1 at bit {}",
            slice_bits - 1
        ),
    );
}

#[test]
fn plane_sizes_are_checked() {
    let mut f = frame(1);
    f.planes[1].samples.pop();
    let e = encode_frame(&f).unwrap_err();
    assert_eq!(
        e,
        Error::EncoderPlaneSizeMismatch {
            plane: 1,
            expected: 16,
            got: 15
        }
    );
    expect(
        e,
        ErrorCategory::ApiMisuse,
        "encoder plane 1 size mismatch (expected 16, got 15)",
    );
}

#[test]
fn histogram_beyond_the_limit_is_refused() {
    let counts = [1u64; 256];
    let e = build_lengths(&counts, 7).unwrap_err();
    expect(
        e,
        ErrorCategory::ApiMisuse,
        "invalid input: encoder histogram exceeds length-limited Huffman alphabet capacity",
    );
    assert_eq!(build_lengths(&counts, 8).unwrap(), vec![8u8; 256]);
}

#[test]
fn remaining_texts() {
    expect(
        Error::UnsupportedPrediction(7),
        ErrorCategory::Unsupported,
        "prediction mode 7 not supported in this build",
    );
    expect(
        Error::InvalidInput("why"),
        ErrorCategory::ApiMisuse,
        "invalid input: why",
    );
}

#[test]
fn oversize_dimensions_do_not_hide_a_short_payload() {
    let x = Extradata::ffmpeg_for(Fourcc::Uly4, 1).unwrap();
    let cfg = StreamConfig::new(Fourcc::Uly4, u32::MAX, u32::MAX, x).unwrap();
    assert_eq!(decode_frame(&cfg, &[1, 2, 3]), Err(Error::MissingFrameInfo));
    assert_eq!(
        decode_frame_strict(&cfg, &[0; 20]),
        Err(Error::ChunkTooShort {
            offset: 0,
            needed: 256,
            have: 16
        })
    );
}
