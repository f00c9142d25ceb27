//! The laws of the codec on concrete values.

use utvideo::bitstream::{BitReader, BitWriter};
use utvideo::decoder::{
    decode_frame, decode_frame_parallel, decode_frame_serial, decode_frame_strict, join_strips,
    parse_payload, PlaneLabel, PARALLEL_PIXEL_THRESHOLD,
};
use utvideo::encoder::{
    assemble_payload, build_lengths, build_plane_blob, build_plane_huffman, encode_frame,
    encode_frame_parallel, encode_frame_serial, pack_slice, EncodedFrame, PlaneInput,
};
use utvideo::fourcc::{Extradata, Fourcc, Predictor, StreamConfig};
use utvideo::huffman::{HuffmanTable, LUT_SIZE, MISS_LENGTH};
use utvideo::inspect::{peek_frame, peek_frame_info};
use utvideo::predict::{apply, choose_predictor, forward, forward_slice, slice_rows};
use utvideo::predictor;
use utvideo::workers::{bucket, frame_workers, thread_fanout};
use utvideo::Error;

const ALL: [Fourcc; 5] = [
    Fourcc::Uly0,
    Fourcc::Uly2,
    Fourcc::Uly4,
    Fourcc::Ulrg,
    Fourcc::Ulra,
];

const MODES: [Predictor; 4] = [
    Predictor::Identity,
    Predictor::Left,
    Predictor::Gradient,
    Predictor::Median,
];

fn noise(seed: u32, n: usize) -> Vec<u8> {
    let mut state = seed.wrapping_mul(0x9e37_79b9) | 1;
    let mut out = Vec::new();
    for _ in 0..n {
        state ^= state << 13;
        state ^= state >> 17;
        state ^= state << 5;
        out.push((state % 61) as u8);
    }
    out
}

fn frame(fc: Fourcc, w: u32, h: u32, predictor: Predictor, slices: usize) -> EncodedFrame {
    let planes = (0..fc.plane_count())
        .map(|i| {
            let (pw, ph) = fc.plane_dim(i, w, h);
            PlaneInput {
                samples: noise(i as u32 + 7, (pw * ph) as usize),
            }
        })
        .collect();
    EncodedFrame {
        fourcc: fc,
        width: w,
        height: h,
        predictor,
        num_slices: slices,
        planes,
    }
}

fn config(fc: Fourcc, w: u32, h: u32, slices: usize) -> StreamConfig {
    StreamConfig::new(fc, w, h, Extradata::ffmpeg_for(fc, slices).unwrap()).unwrap()
}

fn table(pairs: &[(u8, u8)]) -> HuffmanTable {
    let mut d = [255u8; 256];
    for &(s, l) in pairs {
        d[s as usize] = l;
    }
    HuffmanTable::build(&d).unwrap()
}

#[test]
fn both_decoders_give_back_what_was_encoded() {
    for fc in ALL {
        for predictor in MODES {
            for slices in [1usize, 3, 9] {
                let f = frame(fc, 8, 6, predictor, slices);
                let cfg = config(fc, 8, 6, slices);
                let bytes = encode_frame(&f).unwrap();
                let plain = decode_frame(&cfg, &bytes).unwrap();
                let strict = decode_frame_strict(&cfg, &bytes).unwrap();
                assert_eq!(plain, strict);
                assert_eq!(plain.frame_info, predictor.as_frame_info_bits());
                for (p, want) in f.planes.iter().enumerate() {
                    assert_eq!(plain.planes[p].samples, want.samples);
                    assert_eq!(plain.planes[p].label, PlaneLabel::for_fourcc(fc, p));
                }
            }
        }
    }
}

#[test]
fn all_entry_points_agree() {
    for slices in [1usize, 4] {
        let f = frame(Fourcc::Uly0, 320, 240, Predictor::Median, slices);
        assert!(320 * 240 >= PARALLEL_PIXEL_THRESHOLD);
        let cfg = config(Fourcc::Uly0, 320, 240, slices);
        let bytes = encode_frame(&f).unwrap();
        assert_eq!(bytes, encode_frame_serial(&f).unwrap());
        assert_eq!(bytes, encode_frame_parallel(&f).unwrap());
        let decoded = decode_frame(&cfg, &bytes).unwrap();
        assert_eq!(decoded, decode_frame_serial(&cfg, &bytes).unwrap());
        assert_eq!(decoded, decode_frame_parallel(&cfg, &bytes).unwrap());
    }
}

#[test]
fn strips_decode_on_their_own() {
    let f = frame(Fourcc::Ulra, 9, 7, Predictor::Gradient, 3);
    let cfg = config(Fourcc::Ulra, 9, 7, 3);
    let bytes = encode_frame(&f).unwrap();
    let parsed = parse_payload(&cfg, &bytes).unwrap();
    let mut planes = Vec::new();
    for p in 0..4 {
        let mut strips = Vec::new();
        for s in 0..3 {
            strips.push(parsed.decode_strip(p, s, false));
        }
        planes.push(join_strips(strips).unwrap());
    }
    assert_eq!(
        parsed.finish(planes),
        decode_frame(&cfg, &bytes).unwrap()
    );
}

#[test]
fn first_failing_strip_wins() {
    let strips = vec![
        Ok(vec![1, 2]),
        Err(Error::KraftViolation),
        Err(Error::MissingFrameInfo),
    ];
    assert_eq!(join_strips(strips), Err(Error::KraftViolation));
    assert_eq!(
        join_strips(vec![Ok(vec![1, 2]), Ok(vec![]), Ok(vec![3])]),
        Ok(vec![1, 2, 3])
    );
}

#[test]
fn payload_is_made_of_its_parts() {
    let f = frame(Fourcc::Uly4, 6, 5, Predictor::Left, 2);
    let mut blobs = Vec::new();
    for p in &f.planes {
        let residuals = forward(Predictor::Left, &p.samples, 6, 5, 2);
        let (descriptor, table) = build_plane_huffman(&residuals).unwrap();
        let slices: Vec<Vec<u8>> = residuals
            .iter()
            .map(|r| pack_slice(&table, r).unwrap())
            .collect();
        let blob = build_plane_blob(&descriptor, &slices);
        assert_eq!(&blob[..256], &descriptor[..]);
        assert_eq!(&blob[256..260], &(slices[0].len() as u32).to_le_bytes()[..]);
        assert_eq!(
            &blob[260..264],
            &((slices[0].len() + slices[1].len()) as u32).to_le_bytes()[..]
        );
        blobs.push(blob);
    }
    let payload = assemble_payload(&blobs, Predictor::Left);
    assert_eq!(&payload[payload.len() - 4..], &[0u8, 1, 0, 0][..]);
    assert_eq!(payload, encode_frame(&f).unwrap());
}

#[test]
fn encoded_planes_are_complete() {
    for fc in ALL {
        let f = frame(fc, 16, 16, Predictor::Median, 5);
        let bytes = encode_frame(&f).unwrap();
        let layout = peek_frame(&config(fc, 16, 16, 5), &bytes).unwrap();
        assert!(layout.all_planes_kraft_complete());
        assert_eq!(layout.total_size(), bytes.len());
        for p in &layout.planes {
            assert!(p.max_code_length <= 16);
            assert_eq!(p.active_symbol_count + p.unused_symbol_count(), 256);
            assert_eq!(p.kraft_numerator(), 1u128 << p.max_code_length);
        }
    }
}

#[test]
fn layout_rows_cover_the_plane() {
    let f = frame(Fourcc::Uly0, 8, 10, Predictor::Left, 4);
    let bytes = encode_frame(&f).unwrap();
    let layout = peek_frame(&config(Fourcc::Uly0, 8, 10, 4), &bytes).unwrap();
    for p in &layout.planes {
        assert_eq!(p.slices[0].row_start, 0);
        assert_eq!(p.slices[3].row_end, p.height);
        for w in p.slices.windows(2) {
            assert_eq!(w[0].row_end, w[1].row_start);
            assert_eq!(w[0].end, w[1].start);
        }
        let rows: u32 = p.slices.iter().map(|s| s.row_count()).sum();
        assert_eq!(rows, p.height);
        assert_eq!(p.total_pixels(), p.width as u64 * p.height as u64);
        let data: usize = p.slices.iter().map(|s| s.len()).sum();
        assert_eq!(p.slice_data_total(), data);
        assert_eq!(p.total_size(), 256 + 4 * 4 + data);
    }
}

#[test]
fn what_decodes_can_be_inspected() {
    let f = frame(Fourcc::Ulrg, 5, 5, Predictor::Median, 2);
    let cfg = config(Fourcc::Ulrg, 5, 5, 2);
    let bytes = encode_frame(&f).unwrap();
    let decoded = decode_frame(&cfg, &bytes).unwrap();
    let layout = peek_frame(&cfg, &bytes).unwrap();
    assert_eq!(layout.predictor, decoded.predictor);
    assert_eq!(
        peek_frame_info(&bytes).unwrap(),
        (decoded.frame_info, decoded.predictor)
    );
    let mut broken = bytes.clone();
    for b in broken[0..256].iter_mut() {
        *b = 255;
    }
    broken[9] = 1;
    assert!(peek_frame(&cfg, &broken).is_ok());
    assert_eq!(
        decode_frame(&cfg, &broken),
        Err(Error::KraftViolation)
    );
}

#[test]
fn codes_are_prefix_free_and_ordered() {
    let pairs = [(1u8, 3u8), (2, 3), (3, 2), (9, 3), (10, 3), (77, 2)];
    let t = table(&pairs);
    for &(s, l) in &pairs {
        let (c, n) = t.code_for(s).unwrap();
        assert_eq!(n, l);
        for &(u, m) in &pairs {
            if s != u {
                let (d, _) = t.code_for(u).unwrap();
                if l <= m {
                    assert_ne!(d >> (m - l), c);
                }
                if l == m && s < u {
                    assert!(c > d);
                }
                if l < m {
                    assert!(d >> (m - l) < c);
                }
            }
        }
    }
    assert_eq!(t.code_for(10), Some((0, 3)));
    assert_eq!(t.code_for(3), Some((3, 2)));
    assert_eq!(t.code_for(4), None);
}

#[test]
fn slices_round_trip_through_deep_codes() {
    let mut pairs: Vec<(u8, u8)> = (0..20u8).map(|i| (i, i + 1)).collect();
    pairs.push((200, 20));
    let t = table(&pairs);
    assert_eq!(t.max_code_length(), 20);
    assert_eq!(t.lut().len(), LUT_SIZE);
    assert_eq!(t.lut()[0].len, MISS_LENGTH);
    let symbols: Vec<u8> = (0..20u8).chain([200, 0, 19, 200]).collect();
    let bytes = pack_slice(&t, &symbols).unwrap();
    assert_eq!(bytes.len() % 4, 0);
    assert_eq!(t.decode_slice(&bytes, symbols.len()).unwrap(), symbols);
    assert_eq!(
        t.decode_slice_strict(&bytes, symbols.len(), 0, 0).unwrap(),
        symbols
    );
}

#[test]
fn single_symbol_tables_need_no_data() {
    let t = table(&[(42, 0)]);
    assert!(t.is_single());
    assert_eq!(t.max_code_length(), 0);
    assert_eq!(t.decode_slice(&[], 5).unwrap(), vec![42; 5]);
    assert_eq!(pack_slice(&t, &[42, 42]).unwrap(), Vec::<u8>::new());
}

#[test]
fn lengths_are_complete_and_limited() {
    let mut counts = [0u64; 256];
    let mut a = 1u64;
    let mut b = 1u64;
    for c in counts.iter_mut().take(24) {
        *c = a;
        let next = a + b;
        a = b;
        b = next;
    }
    for limit in [5u8, 8, 16, 30] {
        let lengths = build_lengths(&counts, limit).unwrap();
        let mut kraft = 0u64;
        for (s, &l) in lengths.iter().enumerate() {
            assert!(l <= limit);
            assert_eq!(l > 0, counts[s] > 0);
            if l > 0 {
                kraft += 1u64 << (limit - l);
            }
        }
        assert_eq!(kraft, 1u64 << limit);
    }
    let free = build_lengths(&counts, 30).unwrap();
    let depths: Vec<u8> = free.iter().copied().take(24).collect();
    assert_eq!(depths[23], 1);
    assert_eq!(depths[22], 2);
    assert_eq!(depths[0], 23);
}

#[test]
fn no_other_lengths_are_cheaper() {
    let weights = [1u64, 2, 3, 13, 30];
    let mut counts = [0u64; 256];
    for (i, w) in weights.iter().enumerate() {
        counts[i] = *w;
    }
    for limit in [3u8, 4] {
        let lengths = build_lengths(&counts, limit).unwrap();
        let cost = |l: &[u64; 5]| l.iter().zip(weights).map(|(a, b)| a * b).sum::<u64>();
        let mut got = [0u64; 5];
        for i in 0..5 {
            got[i] = lengths[i] as u64;
        }
        let top = limit as u64;
        let mut least = u64::MAX;
        for code in 0..top.pow(5) {
            let mut l = [0u64; 5];
            let mut rest = code;
            for x in l.iter_mut() {
                *x = rest % top + 1;
                rest /= top;
            }
            let kraft: u64 = l.iter().map(|x| 1 << (top - x)).sum();
            if kraft <= 1 << top {
                least = least.min(cost(&l));
            }
        }
        assert_eq!(cost(&got), least);
    }
}

#[test]
fn complete_planes_have_a_codebook() {
    let f = frame(Fourcc::Uly4, 8, 8, Predictor::Left, 1);
    let cfg = config(Fourcc::Uly4, 8, 8, 1);
    let bytes = encode_frame(&f).unwrap();
    let mut unary = bytes.clone();
    for (s, b) in unary[0..256].iter_mut().enumerate() {
        *b = if s < 31 {
            s as u8 + 1
        } else if s == 31 || s == 32 {
            32
        } else {
            255
        };
    }
    let layout = peek_frame(&cfg, &unary).unwrap();
    assert!(layout.planes[0].is_kraft_complete());
    assert_eq!(layout.planes[0].max_code_length, 32);
    let mut d = [0u8; 256];
    d.copy_from_slice(&unary[0..256]);
    assert!(HuffmanTable::build(&d).is_ok());
    d[100] = 0;
    assert_eq!(HuffmanTable::build(&d).unwrap_err(), Error::KraftViolation);
}

#[test]
fn lengths_follow_a_worked_example() {
    let mut counts = [0u64; 256];
    counts[10] = 1;
    counts[20] = 1;
    counts[30] = 5;
    counts[40] = 7;
    counts[50] = 10;
    counts[60] = 14;
    let lengths = build_lengths(&counts, 4).unwrap();
    let got: Vec<u8> = [10, 20, 30, 40, 50, 60].iter().map(|&s| lengths[s]).collect();
    assert_eq!(got, vec![4, 4, 3, 2, 2, 2]);
    let lengths = build_lengths(&counts, 3).unwrap();
    let got: Vec<u8> = [10, 20, 30, 40, 50, 60].iter().map(|&s| lengths[s]).collect();
    assert_eq!(got, vec![3, 3, 3, 3, 2, 2]);
}

#[test]
fn few_symbols_get_at_most_one_bit() {
    assert_eq!(build_lengths(&[0; 256], 16).unwrap(), vec![0; 256]);
    let mut counts = [0u64; 256];
    counts[9] = 3;
    let lengths = build_lengths(&counts, 16).unwrap();
    assert_eq!(lengths[9], 1);
    assert_eq!(build_lengths(&counts, 255).unwrap(), lengths);
    assert_eq!(lengths.iter().map(|&l| l as u32).sum::<u32>(), 1);
}

#[test]
fn prediction_is_undone_in_both_directions() {
    let plane = noise(3, 7 * 11);
    for pred in MODES {
        for slices in [1usize, 2, 5, 11, 13] {
            let residuals = forward(pred, &plane, 7, 11, slices);
            let mut back = vec![0u8; plane.len()];
            apply(pred, &mut back, 7, 11, slices, &residuals);
            assert_eq!(back, plane);
            let again = forward(pred, &back, 7, 11, slices);
            assert_eq!(again, residuals);
        }
    }
}

#[test]
fn predictors_on_a_small_block() {
    let block = [10u8, 20, 40, 15, 60, 30];
    assert_eq!(
        forward_slice(Predictor::Identity, &block, 3, 0, 2),
        block.to_vec()
    );
    assert_eq!(
        forward_slice(Predictor::Left, &block, 3, 0, 2),
        vec![138, 10, 20, 231, 45, 226]
    );
    assert_eq!(
        forward_slice(Predictor::Gradient, &block, 3, 0, 2),
        vec![138, 10, 20, 5, 35, 206]
    );
    assert_eq!(
        forward_slice(Predictor::Median, &block, 3, 0, 2),
        vec![138, 10, 20, 5, 40, 226]
    );
}

#[test]
fn rows_are_shared_out_without_gaps() {
    for (h, n) in [(10usize, 3usize), (3, 10), (256, 256), (7, 1)] {
        let mut at = 0;
        for s in 0..n {
            let (start, end) = slice_rows(h, n, s);
            assert_eq!(start, at);
            assert_eq!(end, (h * (s + 1)) / n);
            at = end;
        }
        assert_eq!(at, h);
    }
}

#[test]
fn in_place_inverse_matches_the_slice_predictors() {
    let plane = noise(11, 6 * 5);
    let pairs = [
        (Predictor::Identity, predictor::Predictor::Identity),
        (Predictor::Left, predictor::Predictor::Left),
        (Predictor::Gradient, predictor::Predictor::Gradient),
        (Predictor::Median, predictor::Predictor::Median),
    ];
    for (a, b) in pairs {
        let mut out = forward_slice(a, &plane, 6, 0, 5);
        if a != Predictor::Median {
            predictor::apply_inverse_8bit(b, &mut out, 6, 5);
            assert_eq!(out, plane);
        }
    }
    for (a, b, c) in [(1u8, 2u8, 3u8), (200, 100, 50), (0, 255, 128), (9, 9, 200)] {
        let m = predictor::mid_pred(a, b, c);
        let d = a.wrapping_add(b).wrapping_sub(c);
        let mut v = [a, b, d];
        v.sort();
        assert_eq!(m, v[1]);
    }
}

#[test]
fn predictor_choice_asks_in_order() {
    let plane = noise(5, 64);
    let first = choose_predictor(&plane, 8, 8, |_: &[u8], _: &[u8]| false);
    assert_eq!(first, Predictor::Gradient);
    let last = choose_predictor(&plane, 8, 8, |_: &[u8], _: &[u8]| true);
    assert_eq!(last, Predictor::Identity);
    let sum = |v: &[u8]| v.iter().map(|&b| b as i8 as i32).map(i32::abs).sum::<i32>();
    let flat = vec![77u8; 64];
    let picked = choose_predictor(&flat, 8, 8, |a: &[u8], b: &[u8]| sum(a) < sum(b));
    assert_eq!(picked, Predictor::Gradient);
    let empty = choose_predictor(&[], 0, 8, |_: &[u8], _: &[u8]| true);
    assert_eq!(empty, Predictor::Gradient);
}

#[test]
fn extradata_round_trips_and_is_injective() {
    let mut seen: Vec<[u8; 16]> = Vec::new();
    for fc in ALL {
        for slices in [1usize, 2, 255, 256] {
            let x = Extradata::ffmpeg_for(fc, slices).unwrap();
            assert_eq!(Extradata::parse(&x.to_bytes()).unwrap(), x);
            assert_eq!(x.num_slices(), slices);
            assert!(!seen.contains(&x.to_bytes()));
            seen.push(x.to_bytes());
        }
    }
}

#[test]
fn bits_come_back_as_written() {
    let codes = [(5u32, 3u8), (0xffff_ffff, 32), (0, 1), (0x1234, 17), (1, 1)];
    let mut w = BitWriter::new();
    for &(c, n) in &codes {
        w.write_code(c, n);
    }
    let bytes = w.finish();
    assert_eq!(bytes.len(), 8);
    let mut r = BitReader::new(&bytes);
    for &(c, n) in &codes {
        assert!(r.has_bits(n as usize));
        assert_eq!(r.peek_bits(n as usize), c);
        r.consume_bits(n as usize);
    }
    assert_eq!(r.position(), 54);
    assert_eq!(r.peek_bits(10), 0);
    assert!(!r.has_bits(11));
}

#[test]
fn workers_share_all_slices() {
    assert_eq!(thread_fanout(8, 3), 3);
    assert_eq!(thread_fanout(2, 16), 2);
    assert_eq!(thread_fanout(8, 0), 1);
    assert_eq!(frame_workers(8, 65536, 3), 3);
    assert_eq!(frame_workers(8, 65535, 3), 1);
    assert_eq!(frame_workers(1, 65536, 3), 1);
    for (n, workers) in [(8usize, 3usize), (7, 7), (256, 5), (1, 1), (10, 4)] {
        let mut at = 0;
        for b in 0..workers {
            let (start, end) = bucket(n, workers, b);
            assert_eq!(start, at);
            at = end;
        }
        assert_eq!(at, n);
    }
}

#[test]
fn strict_decoding_differs_only_in_padding() {
    let f = frame(Fourcc::Uly2, 6, 4, Predictor::Gradient, 2);
    let cfg = config(Fourcc::Uly2, 6, 4, 2);
    let bytes = encode_frame(&f).unwrap();
    for at in 0..bytes.len() {
        let mut bad = bytes.clone();
        bad[at] ^= 1;
        let plain = decode_frame(&cfg, &bad);
        let strict = decode_frame_strict(&cfg, &bad);
        if strict != plain {
            assert!(matches!(
                strict,
                Err(Error::NonZeroPadding { plane, slice, .. }) if plane < 3 && slice < 2
            ));
        }
    }
}

#[test]
fn chosen_code_is_no_longer_than_a_flat_one() {
    let residuals = vec![noise(1, 500), noise(2, 300)];
    let (descriptor, chosen) = build_plane_huffman(&residuals).unwrap();
    let flat = HuffmanTable::build(&[8u8; 256]).unwrap();
    let mut bits = 0u64;
    for &r in residuals.iter().flatten() {
        bits += descriptor[r as usize] as u64;
    }
    assert!(bits <= 8 * 800);
    for r in &residuals {
        let a = pack_slice(&chosen, r).unwrap();
        let b = pack_slice(&flat, r).unwrap();
        assert_eq!(b.len(), r.len());
        assert!(a.len() <= b.len());
    }
}

#[test]
fn every_padding_bit_is_named() {
    let f = frame(Fourcc::Uly4, 5, 3, Predictor::Median, 2);
    let cfg = config(Fourcc::Uly4, 5, 3, 2);
    let bytes = encode_frame(&f).unwrap();
    let plain = decode_frame(&cfg, &bytes).unwrap();
    let layout = peek_frame(&cfg, &bytes).unwrap();
    let mut seen = 0;
    for p in 0..3 {
        let residuals = forward(Predictor::Median, &f.planes[p].samples, 5, 3, 2);
        let (descriptor, _) = build_plane_huffman(&residuals).unwrap();
        for s in 0..2 {
            let slice = &layout.planes[p].slices[s];
            let used: usize = residuals[s]
                .iter()
                .map(|&r| descriptor[r as usize] as usize)
                .sum();
            for j in used..8 * slice.len() {
                let mut bad = bytes.clone();
                bad[slice.start + 4 * (j / 32) + 3 - j % 32 / 8] |= 1 << (7 - j % 8);
                assert_eq!(
                    decode_frame_strict(&cfg, &bad),
                    Err(Error::NonZeroPadding {
                        plane: p,
                        slice: s,
                        bit_position: j
                    })
                );
                assert_eq!(decode_frame(&cfg, &bad).unwrap(), plain);
                seen += 1;
            }
        }
    }
    assert!(seen > 0);
}
