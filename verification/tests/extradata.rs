//! Extradata of the three families.

use utvideo::extradata::{ExtraData, Family, FourCc};

#[test]
fn parses_lavc_ulrg_left() {
    let raw = [
        0xF0, 0x00, 0x00, 0x01, 0x00, 0x00, 0x01, 0x18, 0x04, 0x00, 0x00, 0x00, 0x01, 0x00,
        0x00, 0x01,
    ];
    let xd = ExtraData::parse(FourCc(*b"ULRG"), &raw).unwrap();
    assert!(xd.flags.compression);
    assert!(!xd.flags.interlaced);
    assert_eq!(xd.flags.slices, 2);
    assert_eq!(xd.frame_info_size, 4);
}

#[test]
fn parses_official_interlaced_gradient() {
    let raw = [
        0x01, 0x01, 0x02, 0x12, 0x00, 0x00, 0x06, 0x18, 0x04, 0x00, 0x00, 0x00, 0x01, 0x08,
        0x00, 0x03,
    ];
    let xd = ExtraData::parse(FourCc(*b"ULRG"), &raw).unwrap();
    assert!(xd.flags.compression);
    assert!(xd.flags.interlaced);
    assert_eq!(xd.flags.slices, 4);
}

#[test]
fn rejects_short_classic_extradata() {
    assert!(ExtraData::parse(FourCc(*b"ULRG"), &[0; 8]).is_err());
}

#[test]
fn parses_pro_extradata_8_bytes() {
    let raw = [
        0x01, 0x01, 0x02, 0x12, // version (LE32)
        0x59, 0x55, 0x59, 0x32, // original_format BE32 == "YUY2"
    ];
    let xd = ExtraData::parse(FourCc(*b"UQY2"), &raw).unwrap();
    assert_eq!(xd.family, Family::Pro);
    assert_eq!(xd.shape.bit_depth, 10);
    assert_eq!(xd.frame_info_size, 0);
    // Pro family does not advertise slices in extradata (== 0
    // sentinel; per-frame header carries the real value).
    assert_eq!(xd.flags.slices, 0);
    assert!(!xd.flags.interlaced);
}

#[test]
fn rejects_short_pro_extradata() {
    // Pro family needs 8 bytes minimum.
    assert!(ExtraData::parse(FourCc(*b"UQRG"), &[0; 4]).is_err());
}

#[test]
fn parses_pack_extradata_with_compression_2() {
    let raw = [
        0x01, 0x01, 0x02, 0x12, // version
        0x59, 0x55, 0x59, 0x32, // original_format BE32
        0x02, // compression == COMP_PACK (2)
        0x03, // slices_minus_one == 3 → slices = 4
        0x00, 0x00, 0x00, 0x00, 0x00, 0x00,
    ];
    let xd = ExtraData::parse(FourCc(*b"UMY2"), &raw).unwrap();
    assert_eq!(xd.family, Family::Pack);
    assert_eq!(xd.flags.slices, 4);
}

#[test]
fn rejects_pack_extradata_with_wrong_compression() {
    // compression != 2 must fail.
    let mut raw = [0u8; 16];
    raw[8] = 1;
    assert!(ExtraData::parse(FourCc(*b"UMRG"), &raw).is_err());
}
