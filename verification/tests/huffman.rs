//! Code tables and bit streams.

use utvideo::huffman::{BitReader, BitWriter, HuffmanTable, LutEntry, LUT_BITS};
use utvideo::Error;

fn make_descriptor(pairs: &[(u8, u8)]) -> [u8; 256] {
    // Default to 255 (sentinel-unused).
    let mut d = [255u8; 256];
    for &(s, l) in pairs {
        d[s as usize] = l;
    }
    d
}

#[test]
fn build_zeros_left_table_matches_spec_3_1_1() {
    let d = make_descriptor(&[(0, 1), (128, 1)]);
    let t = HuffmanTable::build(&d).unwrap();
    assert_eq!(t.code_for(128), Some((0, 1)));
    assert_eq!(t.code_for(0), Some((1, 1)));
    assert_eq!(t.max_code_length(), 1);
}

#[test]
fn build_arith_left_table_matches_spec_3_1_2() {
    // {3: 1, 128: 2, 218: 2}. Expected: 218 → "00", 128 → "01", 3 → "1".
    let d = make_descriptor(&[(3, 1), (128, 2), (218, 2)]);
    let t = HuffmanTable::build(&d).unwrap();
    assert_eq!(t.code_for(218), Some((0b00, 2)));
    assert_eq!(t.code_for(128), Some((0b01, 2)));
    assert_eq!(t.code_for(3), Some((0b1, 1)));
}

#[test]
fn build_uniform_byte_table_matches_spec_6_3() {
    // Every symbol at length 8: byte symbol s -> bit pattern ~s & 0xff.
    let mut d = [8u8; 256];
    // Sanity: keep as constant 8 across the alphabet — Kraft sum = 1.
    let _ = &mut d;
    let t = HuffmanTable::build(&d).unwrap();
    assert_eq!(t.code_for(255), Some((0x00, 8)));
    assert_eq!(t.code_for(254), Some((0x01, 8)));
    assert_eq!(t.code_for(0), Some((0xff, 8)));
    assert_eq!(t.code_for(127), Some((0x80, 8)));
}

#[test]
fn build_single_symbol_marker() {
    let mut d = [255u8; 256];
    d[42] = 0;
    let t = HuffmanTable::build(&d).unwrap();
    assert_eq!(t.single_symbol, Some(42));
    assert!(t.code_for(42).is_none());
}

#[test]
fn build_rejects_non_kraft() {
    let d = make_descriptor(&[(0, 1), (1, 3)]); // 1/2 + 1/8 = 5/8
    assert!(matches!(
        HuffmanTable::build(&d),
        Err(Error::KraftViolation)
    ));
}

#[test]
fn build_rejects_multiple_zero_sentinels() {
    let mut d = [255u8; 256];
    d[5] = 0;
    d[10] = 0;
    assert!(matches!(
        HuffmanTable::build(&d),
        Err(Error::MultipleSingleSymbolSentinels)
    ));
}

#[test]
fn bit_reader_zeros_left_fixture_first_bits_from_spec_3_1_1() {
    // 32 bytes with the first 32-bit LE word = 0x7fffffff. The
    // bit stream then opens with a 0 followed by 31 ones.
    // We synthesise this by hand: bytes are the LE representation
    // of 0x7fffffff = ff ff ff 7f.
    let mut data = vec![0xffu8, 0xff, 0xff, 0x7f];
    // Pad to 32 bytes total with all-ones words = 0xffffffff.
    for _ in 1..8 {
        data.extend_from_slice(&[0xff, 0xff, 0xff, 0xff]);
    }
    let mut br = BitReader::new(&data);
    // First bit is 0, next 31 bits are 1.
    assert_eq!(br.peek_bits(1), 0);
    br.consume_bits(1);
    for _ in 0..31 {
        assert_eq!(br.peek_bits(1), 1);
        br.consume_bits(1);
    }
    // Next word is all-ones (0xffffffff), so the next bit is 1.
    assert_eq!(br.peek_bits(1), 1);
}

#[test]
fn bit_reader_decode_matches_spec_3_1_1() {
    let d = make_descriptor(&[(0, 1), (128, 1)]);
    let t = HuffmanTable::build(&d).unwrap();

    let mut data = vec![0xffu8, 0xff, 0xff, 0x7f];
    for _ in 1..8 {
        data.extend_from_slice(&[0xff, 0xff, 0xff, 0xff]);
    }
    let residuals = t.decode_slice(&data, 256).unwrap();
    assert_eq!(residuals[0], 128);
    for r in &residuals[1..] {
        assert_eq!(*r, 0);
    }
}

#[test]
fn bit_writer_round_trip_zeros_left() {
    // Encode: first symbol 128 -> "0"; remaining 255 zeros -> 255 × "1".
    let d = make_descriptor(&[(0, 1), (128, 1)]);
    let t = HuffmanTable::build(&d).unwrap();
    let mut bw = BitWriter::new();
    // 128 first
    let (c, l) = t.code_for(128).unwrap();
    bw.write_code(c, l);
    for _ in 0..255 {
        let (c, l) = t.code_for(0).unwrap();
        bw.write_code(c, l);
    }
    let bytes = bw.finish();
    // 256 bits = 32 bytes, no padding required.
    assert_eq!(bytes.len(), 32);
    assert_eq!(&bytes[0..4], &[0xff, 0xff, 0xff, 0x7f]);
    for chunk in bytes[4..].chunks_exact(4) {
        assert_eq!(chunk, &[0xff, 0xff, 0xff, 0xff]);
    }
}

#[test]
fn bit_writer_pads_partial_word_with_zeros() {
    // 1 bit `1` -> word 0x80000000 -> bytes 00 00 00 80.
    let mut bw = BitWriter::new();
    bw.write_code(1, 1);
    let bytes = bw.finish();
    assert_eq!(bytes, vec![0x00, 0x00, 0x00, 0x80]);
}

#[test]
fn bit_writer_arith_left_matches_spec_3_1_2_first_word() {
    let d = make_descriptor(&[(3, 1), (128, 2), (218, 2)]);
    let t = HuffmanTable::build(&d).unwrap();
    let mut bw = BitWriter::new();
    // Symbol 128 (code "01"), then 15 × symbol 3 (each "1"),
    // then 15 × (symbol 218 ("00") + 15 × symbol 3 ("1")).
    bw.write_code(t.code_for(128).unwrap().0, t.code_for(128).unwrap().1);
    for _ in 0..15 {
        bw.write_code(t.code_for(3).unwrap().0, t.code_for(3).unwrap().1);
    }
    for _ in 0..15 {
        bw.write_code(t.code_for(218).unwrap().0, t.code_for(218).unwrap().1);
        for _ in 0..15 {
            bw.write_code(t.code_for(3).unwrap().0, t.code_for(3).unwrap().1);
        }
    }
    let bytes = bw.finish();
    // Total bits: 2 + 15 + 15 × 17 = 272, padded to 288 -> 36 bytes.
    assert_eq!(bytes.len(), 36);
    assert_eq!(&bytes[0..4], &[0xff, 0x9f, 0xff, 0x7f]);
}

#[test]
fn round_trip_random_descriptor() {
    // Pick a Kraft-complete descriptor and round-trip.
    let d = make_descriptor(&[(10, 2), (20, 2), (30, 2), (40, 2)]); // 4 × 1/4 = 1
    let t = HuffmanTable::build(&d).unwrap();
    let symbols = [10u8, 20, 30, 40, 10, 40, 30, 20, 10, 10, 20, 30];
    let mut bw = BitWriter::new();
    for &s in &symbols {
        let (c, l) = t.code_for(s).unwrap();
        bw.write_code(c, l);
    }
    let bytes = bw.finish();
    let decoded = t.decode_slice(&bytes, symbols.len()).unwrap();
    assert_eq!(&decoded, &symbols);
}

#[test]
fn lut_is_populated_for_short_codes() {
    let d = make_descriptor(&[(3, 1), (128, 2), (218, 2)]);
    let t = HuffmanTable::build(&d).unwrap();
    assert_eq!(t.lut()[0x000], LutEntry { sym: 218, len: 2 });
    assert_eq!(t.lut()[0x3ff], LutEntry { sym: 218, len: 2 });
    assert_eq!(t.lut()[0x400], LutEntry { sym: 128, len: 2 });
    assert_eq!(t.lut()[0x7ff], LutEntry { sym: 128, len: 2 });
    assert_eq!(t.lut()[0x800], LutEntry { sym: 3, len: 1 });
    assert_eq!(t.lut()[0xfff], LutEntry { sym: 3, len: 1 });
}

#[test]
fn lut_skip_marks_long_codes_as_miss() {
    let pairs: Vec<(u8, u8)> = (0..14u8)
        .map(|i| (i, (i + 1)))
        .chain(std::iter::once((20u8, 14u8))) // double-up at length 14 closes Kraft.
        .collect();
    let d = make_descriptor(&pairs);
    let t = HuffmanTable::build(&d).unwrap();
    assert_eq!(t.max_code_length(), 14);
    let mut miss_count = 0;
    for entry in t.lut() {
        if entry.len > LUT_BITS {
            miss_count += 1;
        }
    }
    assert!(
        miss_count > 0,
        "long-codelen table must have at least one LUT_MISS entry"
    );

    let symbols: Vec<u8> = (0..14u8).chain(std::iter::once(20u8)).collect();
    let mut bw = BitWriter::new();
    for &s in &symbols {
        let (c, l) = t.code_for(s).unwrap();
        bw.write_code(c, l);
    }
    let bytes = bw.finish();
    let decoded = t.decode_slice(&bytes, symbols.len()).unwrap();
    assert_eq!(&decoded, &symbols);
}

#[test]
fn decode_handles_short_codes_at_end_of_buffer() {
    let d = make_descriptor(&[(0, 1), (128, 1)]);
    let t = HuffmanTable::build(&d).unwrap();
    // 4 bytes: 32 bits, all = 1 (sym 0). Decode 32 symbols.
    let data = vec![0xffu8, 0xff, 0xff, 0xff];
    let out = t.decode_slice(&data, 32).unwrap();
    assert!(out.iter().all(|&s| s == 0));
    assert_eq!(out.len(), 32);
}
