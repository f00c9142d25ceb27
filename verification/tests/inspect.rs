//! Reading the layout of a frame without decoding it.

use utvideo::decoder::decode_frame;
use utvideo::encoder::{encode_frame, EncodedFrame, PlaneInput};
use utvideo::fourcc::{Extradata, Fourcc, Predictor, StreamConfig};
use utvideo::inspect::{peek_frame, peek_frame_info};
use utvideo::Error;

fn cfg_for(fc: Fourcc, w: u32, h: u32, slices: usize) -> StreamConfig {
    let extradata = Extradata::ffmpeg_for(fc, slices).unwrap();
    StreamConfig::new(fc, w, h, extradata).unwrap()
}

fn encoded_for(fc: Fourcc, w: u32, h: u32, slices: usize, pred: Predictor) -> Vec<u8> {
    let plane_count = fc.plane_count();
    let mut planes = Vec::with_capacity(plane_count);
    for idx in 0..plane_count {
        let (pw, ph) = fc.plane_dim(idx, w, h);
        // Mildly non-trivial content to avoid the single-symbol
        // collapse on every test; xorshift seeded by plane index.
        let mut state = 0x1234_5678u32 ^ (idx as u32).wrapping_mul(0x9E37_79B9);
        let mut samples = Vec::with_capacity((pw * ph) as usize);
        for _ in 0..(pw * ph) {
            state ^= state << 13;
            state ^= state >> 17;
            state ^= state << 5;
            samples.push((state & 0xff) as u8);
        }
        planes.push(PlaneInput { samples });
    }
    let frame = EncodedFrame {
        fourcc: fc,
        width: w,
        height: h,
        predictor: pred,
        num_slices: slices,
        planes,
    };
    encode_frame(&frame).unwrap()
}

#[test]
fn peek_frame_info_recovers_predictor_from_trailing_dword() {
    for &pred in &[
        Predictor::Identity,
        Predictor::Left,
        Predictor::Gradient,
        Predictor::Median,
    ] {
        let bytes = encoded_for(Fourcc::Uly2, 16, 16, 1, pred);
        let (frame_info, recovered) = peek_frame_info(&bytes).unwrap();
        assert_eq!(recovered, pred);
        assert_eq!((frame_info >> 8) & 0x3, pred.as_frame_info_bits() >> 8);
    }
}

#[test]
fn peek_frame_info_rejects_short_buffer() {
    for short in &[&[][..], &[1u8][..], &[1, 2, 3][..]] {
        let r = peek_frame_info(short);
        assert!(matches!(r, Err(Error::MissingFrameInfo)));
    }
}

#[test]
fn peek_frame_layout_round_trips_every_fourcc_single_slice() {
    for &fc in &[
        Fourcc::Ulrg,
        Fourcc::Ulra,
        Fourcc::Uly0,
        Fourcc::Uly2,
        Fourcc::Uly4,
    ] {
        let (w, h) = (16, 16);
        let cfg = cfg_for(fc, w, h, 1);
        let bytes = encoded_for(fc, w, h, 1, Predictor::Left);
        let layout = peek_frame(&cfg, &bytes).unwrap();
        // Plane count matches FOURCC.
        assert_eq!(layout.planes.len(), fc.plane_count());
        // Total-size identity: Σ plane_total_size + 4 == payload len.
        assert_eq!(layout.total_size(), bytes.len());
        // num_slices matches.
        assert_eq!(layout.num_slices, 1);
        for (i, p) in layout.planes.iter().enumerate() {
            assert_eq!(p.plane_idx, i);
            let (pw, ph) = fc.plane_dim(i, w, h);
            assert_eq!(p.width, pw);
            assert_eq!(p.height, ph);
            assert_eq!(p.slices.len(), 1);
            // Slice extents are non-empty for these high-entropy planes.
            assert!(!p.slices[0].is_empty());
            // Slice ends on a 4-byte boundary.
            assert_eq!(p.slices[0].end.saturating_sub(p.slice_data_start) % 4, 0);
            // Wire-byte ordering: descriptor < end_offsets < slice_data.
            assert!(p.descriptor_start < p.end_offsets_start);
            assert!(p.end_offsets_start < p.slice_data_start);
            assert!(p.slice_data_start <= p.slices[0].start);
        }
    }
}

#[test]
fn peek_frame_layout_round_trips_multi_slice() {
    let fc = Fourcc::Uly4;
    let (w, h) = (32, 32);
    let cfg = cfg_for(fc, w, h, 4);
    let bytes = encoded_for(fc, w, h, 4, Predictor::Gradient);
    let layout = peek_frame(&cfg, &bytes).unwrap();
    assert_eq!(layout.num_slices, 4);
    assert_eq!(layout.predictor, Predictor::Gradient);
    for p in &layout.planes {
        assert_eq!(p.slices.len(), 4);
        // Slices are contiguous: end_n == start_{n+1}.
        for w in p.slices.windows(2) {
            assert_eq!(w[0].end, w[1].start);
        }
        // First slice starts at slice_data_start.
        assert_eq!(p.slices[0].start, p.slice_data_start);
    }
    // Total-size identity holds for multi-slice frames too.
    assert_eq!(layout.total_size(), bytes.len());
}

#[test]
fn peek_frame_layout_matches_decode_frame_predictor_and_frame_info() {
    for &fc in &[Fourcc::Ulrg, Fourcc::Uly2, Fourcc::Uly4] {
        for &pred in &[
            Predictor::Identity,
            Predictor::Left,
            Predictor::Gradient,
            Predictor::Median,
        ] {
            let cfg = cfg_for(fc, 16, 16, 1);
            let bytes = encoded_for(fc, 16, 16, 1, pred);
            let layout = peek_frame(&cfg, &bytes).unwrap();
            let decoded = decode_frame(&cfg, &bytes).unwrap();
            assert_eq!(layout.predictor, decoded.predictor);
            assert_eq!(layout.frame_info, decoded.frame_info);
        }
    }
}

#[test]
fn peek_frame_detects_single_symbol_descriptor() {
    let fc = Fourcc::Uly4;
    let (w, h) = (16, 16);
    let cfg = cfg_for(fc, w, h, 1);
    let planes = vec![
        PlaneInput {
            samples: vec![42u8; (w * h) as usize],
        },
        PlaneInput {
            samples: vec![137u8; (w * h) as usize],
        },
        PlaneInput {
            samples: vec![200u8; (w * h) as usize],
        },
    ];
    let frame = EncodedFrame {
        fourcc: fc,
        width: w,
        height: h,
        predictor: Predictor::Identity,
        num_slices: 1,
        planes,
    };
    let bytes = encode_frame(&frame).unwrap();
    let layout = peek_frame(&cfg, &bytes).unwrap();
    // Every plane is single-symbol -> empty slice + flag set.
    for p in &layout.planes {
        assert!(p.is_single_symbol);
        assert_eq!(p.slice_data_total(), 0);
        assert!(p.slices[0].is_empty());
    }
    assert_eq!(layout.total_size(), 3 * (256 + 4) + 4);
}

#[test]
fn peek_frame_rejects_missing_frame_info() {
    let cfg = cfg_for(Fourcc::Uly2, 16, 16, 1);
    for short in &[&[][..], &[1u8, 2, 3][..]] {
        let r = peek_frame(&cfg, short);
        assert!(matches!(r, Err(Error::MissingFrameInfo)));
    }
}

#[test]
fn peek_frame_rejects_chunk_too_short_for_descriptor() {
    let cfg = cfg_for(Fourcc::Uly2, 16, 16, 1);
    // Buffer is 16 bytes; 4 reserved for frame_info, leaving 12
    // bytes — fewer than the 256-byte descriptor of plane 0.
    let payload = vec![0u8; 16];
    let r = peek_frame(&cfg, &payload);
    assert!(matches!(r, Err(Error::ChunkTooShort { .. })));
}

#[test]
fn peek_frame_rejects_non_monotonic_slice_offsets() {
    // Build a real encoded frame, then mutate one slice-end offset
    // backwards. peek_frame surfaces NonMonotonicSliceOffsets at
    // the same point the full decoder would.
    let fc = Fourcc::Uly4;
    let (w, h) = (32, 32);
    let cfg = cfg_for(fc, w, h, 4);
    let mut bytes = encoded_for(fc, w, h, 4, Predictor::Left);
    let p0 = peek_frame(&cfg, &bytes).unwrap().planes[0].clone();
    // Mutate the third slice-end offset to a value below the second.
    let off = p0.end_offsets_start + 2 * 4;
    bytes[off..off + 4].copy_from_slice(&0u32.to_le_bytes());
    let r = peek_frame(&cfg, &bytes);
    assert!(
        matches!(r, Err(Error::NonMonotonicSliceOffsets)),
        "got {r:?}"
    );
}

#[test]
fn peek_frame_rejects_unaligned_slice_offset() {
    let fc = Fourcc::Uly4;
    let (w, h) = (16, 16);
    let cfg = cfg_for(fc, w, h, 1);
    let mut bytes = encoded_for(fc, w, h, 1, Predictor::Left);
    let p0 = peek_frame(&cfg, &bytes).unwrap().planes[0].clone();
    // Bump the single end-offset by 1 — no longer a multiple of 4.
    let existing = u32::from_le_bytes(
        bytes[p0.end_offsets_start..p0.end_offsets_start + 4]
            .try_into()
            .unwrap(),
    );
    let bumped = (existing + 1).to_le_bytes();
    bytes[p0.end_offsets_start..p0.end_offsets_start + 4].copy_from_slice(&bumped);
    let r = peek_frame(&cfg, &bytes);
    assert!(matches!(r, Err(Error::SliceNotWordAligned(_))), "got {r:?}");
}

#[test]
fn peek_frame_max_code_length_zero_on_single_symbol_planes() {
    let fc = Fourcc::Uly4;
    let (w, h) = (16, 16);
    let cfg = cfg_for(fc, w, h, 1);
    let planes = vec![
        PlaneInput {
            samples: vec![10u8; (w * h) as usize],
        },
        PlaneInput {
            samples: vec![77u8; (w * h) as usize],
        },
        PlaneInput {
            samples: vec![222u8; (w * h) as usize],
        },
    ];
    let frame = EncodedFrame {
        fourcc: fc,
        width: w,
        height: h,
        predictor: Predictor::Identity,
        num_slices: 1,
        planes,
    };
    let bytes = encode_frame(&frame).unwrap();
    let layout = peek_frame(&cfg, &bytes).unwrap();
    for p in &layout.planes {
        assert!(p.is_single_symbol);
        assert_eq!(p.max_code_length, 0);
    }
}

#[test]
fn peek_frame_max_code_length_matches_descriptor_byte_scan() {
    let fc = Fourcc::Uly2;
    let (w, h) = (64, 48);
    let cfg = cfg_for(fc, w, h, 4);
    let bytes = encoded_for(fc, w, h, 4, Predictor::Gradient);
    let layout = peek_frame(&cfg, &bytes).unwrap();
    for p in &layout.planes {
        let descriptor = &bytes[p.descriptor_start..p.descriptor_start + 256];
        let rescan: u8 = descriptor
            .iter()
            .copied()
            .filter(|&b| (1..=254).contains(&b))
            .max()
            .unwrap_or(0);
        assert_eq!(
            p.max_code_length, rescan,
            "plane {} max {} != rescan {}",
            p.plane_idx, p.max_code_length, rescan
        );
    }
}

#[test]
fn peek_frame_min_code_length_zero_on_single_symbol_planes() {
    let fc = Fourcc::Uly4;
    let (w, h) = (16, 16);
    let cfg = cfg_for(fc, w, h, 1);
    let planes = vec![
        PlaneInput {
            samples: vec![10u8; (w * h) as usize],
        },
        PlaneInput {
            samples: vec![77u8; (w * h) as usize],
        },
        PlaneInput {
            samples: vec![222u8; (w * h) as usize],
        },
    ];
    let frame = EncodedFrame {
        fourcc: fc,
        width: w,
        height: h,
        predictor: Predictor::Identity,
        num_slices: 1,
        planes,
    };
    let bytes = encode_frame(&frame).unwrap();
    let layout = peek_frame(&cfg, &bytes).unwrap();
    for p in &layout.planes {
        assert!(p.is_single_symbol);
        assert_eq!(p.min_code_length, 0);
    }
}

#[test]
fn peek_frame_min_code_length_matches_descriptor_byte_scan() {
    let fc = Fourcc::Uly2;
    let (w, h) = (64, 48);
    let cfg = cfg_for(fc, w, h, 4);
    let bytes = encoded_for(fc, w, h, 4, Predictor::Gradient);
    let layout = peek_frame(&cfg, &bytes).unwrap();
    for p in &layout.planes {
        let descriptor = &bytes[p.descriptor_start..p.descriptor_start + 256];
        let rescan: u8 = descriptor
            .iter()
            .copied()
            .filter(|&b| (1..=254).contains(&b))
            .min()
            .unwrap_or(0);
        assert_eq!(
            p.min_code_length, rescan,
            "plane {} min {} != rescan {}",
            p.plane_idx, p.min_code_length, rescan
        );
    }
}

#[test]
fn peek_frame_min_code_length_symbol_count_zero_on_single_symbol_planes() {
    let fc = Fourcc::Uly4;
    let (w, h) = (16, 16);
    let cfg = cfg_for(fc, w, h, 1);
    let planes = vec![
        PlaneInput {
            samples: vec![10u8; (w * h) as usize],
        },
        PlaneInput {
            samples: vec![77u8; (w * h) as usize],
        },
        PlaneInput {
            samples: vec![222u8; (w * h) as usize],
        },
    ];
    let frame = EncodedFrame {
        fourcc: fc,
        width: w,
        height: h,
        predictor: Predictor::Identity,
        num_slices: 1,
        planes,
    };
    let bytes = encode_frame(&frame).unwrap();
    let layout = peek_frame(&cfg, &bytes).unwrap();
    for p in &layout.planes {
        assert!(p.is_single_symbol);
        assert_eq!(p.min_code_length_symbol_count, 0);
    }
}

#[test]
fn peek_frame_min_code_length_symbol_count_matches_descriptor_byte_scan() {
    let fc = Fourcc::Uly2;
    let (w, h) = (64, 48);
    let cfg = cfg_for(fc, w, h, 4);
    let bytes = encoded_for(fc, w, h, 4, Predictor::Gradient);
    let layout = peek_frame(&cfg, &bytes).unwrap();
    for p in &layout.planes {
        let descriptor = &bytes[p.descriptor_start..p.descriptor_start + 256];
        let rescan: u32 = if p.min_code_length == 0 {
            0
        } else {
            descriptor
                .iter()
                .copied()
                .filter(|&b| b == p.min_code_length)
                .count() as u32
        };
        assert_eq!(
            p.min_code_length_symbol_count, rescan,
            "plane {} count {} != rescan {}",
            p.plane_idx, p.min_code_length_symbol_count, rescan
        );
    }
}

#[test]
fn peek_frame_code_length_histogram_empty_on_single_symbol_planes() {
    let fc = Fourcc::Uly4;
    let (w, h) = (16, 16);
    let cfg = cfg_for(fc, w, h, 1);
    let planes = vec![
        PlaneInput {
            samples: vec![10u8; (w * h) as usize],
        },
        PlaneInput {
            samples: vec![77u8; (w * h) as usize],
        },
        PlaneInput {
            samples: vec![222u8; (w * h) as usize],
        },
    ];
    let frame = EncodedFrame {
        fourcc: fc,
        width: w,
        height: h,
        predictor: Predictor::Identity,
        num_slices: 1,
        planes,
    };
    let bytes = encode_frame(&frame).unwrap();
    let layout = peek_frame(&cfg, &bytes).unwrap();
    for p in &layout.planes {
        assert!(p.is_single_symbol);
        assert!(p.code_length_histogram.is_empty());
        assert_eq!(p.kraft_numerator(), 0);
    }
}

#[test]
fn peek_frame_code_length_histogram_projects_scalar_accessors() {
    let fc = Fourcc::Uly2;
    let (w, h) = (64, 48);
    let cfg = cfg_for(fc, w, h, 4);
    let bytes = encoded_for(fc, w, h, 4, Predictor::Gradient);
    let layout = peek_frame(&cfg, &bytes).unwrap();
    for p in &layout.planes {
        let hist = &p.code_length_histogram;
        assert!(!hist.is_empty());
        // Strictly ascending by length, no zero-count tiers.
        for win in hist.windows(2) {
            assert!(win[0].0 < win[1].0);
        }
        assert!(hist.iter().all(|&(_, n)| n > 0));
        // Projections.
        let total: u32 = hist.iter().map(|&(_, n)| n).sum();
        assert_eq!(total, p.active_symbol_count);
        assert_eq!(hist.first().unwrap().0, p.min_code_length);
        assert_eq!(hist.first().unwrap().1, p.min_code_length_symbol_count);
        assert_eq!(hist.last().unwrap().0, p.max_code_length);
        // Kraft equality on the integer numerator.
        assert_eq!(p.kraft_numerator(), 1u128 << p.max_code_length);
    }
}

#[test]
fn peek_frame_slice_data_total_matches_plane_compressed_bytes() {
    let fc = Fourcc::Uly2;
    let (w, h) = (64, 48);
    let cfg = cfg_for(fc, w, h, 4);
    let bytes = encoded_for(fc, w, h, 4, Predictor::Gradient);
    let layout = peek_frame(&cfg, &bytes).unwrap();
    // total_slice_data_bytes equals chunk size minus descriptors,
    // end-offset tables, and the trailing frame_info dword.
    let overhead = layout.planes.len() * 256 + layout.planes.len() * 4 * layout.num_slices + 4;
    assert_eq!(layout.total_slice_data_bytes(), bytes.len() - overhead);
}

#[test]
fn is_kraft_complete_true_on_encoder_output() {
    let fc = Fourcc::Uly4;
    let (w, h) = (48, 32);
    let cfg = cfg_for(fc, w, h, 2);
    let bytes = encoded_for(fc, w, h, 2, Predictor::Gradient);
    let layout = peek_frame(&cfg, &bytes).unwrap();
    for p in &layout.planes {
        assert!(p.is_kraft_complete(), "plane {} not complete", p.plane_idx);
    }
    assert!(layout.all_planes_kraft_complete());
}

#[test]
fn is_kraft_complete_false_on_incomplete_descriptor() {
    let fc = Fourcc::Uly4;
    let (w, h) = (16, 16);
    let cfg = cfg_for(fc, w, h, 1);
    let mut bytes = encoded_for(fc, w, h, 1, Predictor::Left);
    for b in bytes[0..256].iter_mut() {
        *b = 255;
    }
    bytes[42] = 1;
    let layout = peek_frame(&cfg, &bytes).unwrap();
    assert!(!layout.planes[0].is_kraft_complete());
    assert!(!layout.all_planes_kraft_complete());
}
