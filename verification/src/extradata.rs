//! Extradata of the three families of the format.
//!
//! The classic family has sixteen bytes: version, source format, size of the
//! frame-info word, and flags. The pro family has eight: version and source
//! format. The pack family has sixteen: version, source format, a compression
//! byte and a slice-count byte.

use crate::bytes;
use crate::text;
use vstd::prelude::*;

verus! {

/// A four-character code as stored.
#[derive(Debug, Clone, Copy, PartialEq, Eq)]
pub struct FourCc(pub [u8; 4]);

/// The families of the format.
#[derive(Debug, Clone, Copy, PartialEq, Eq, Structural)]
pub enum Family {
    Classic,
    Pro,
    Pack,
}

/// What a four-character code says of the samples.
#[derive(Debug, Clone, Copy, PartialEq, Eq, Structural)]
pub struct PlaneShape {
    pub family: Family,
    pub bit_depth: u32,
}

/// Layout flags of a stream.
#[derive(Debug, Clone, Copy, PartialEq, Eq, Structural)]
pub struct Flags {
    pub compression: bool,
    pub interlaced: bool,
    pub slices: u32,
}

/// Parsed extradata.
#[derive(Debug, Clone, Copy)]
pub struct ExtraData {
    pub fourcc: FourCc,
    pub family: Family,
    pub shape: PlaneShape,
    pub version: u32,
    pub original_format: u32,
    pub frame_info_size: u32,
    pub flags: Flags,
}

/// Why extradata is not accepted.
#[derive(Debug, Clone, Copy, PartialEq, Eq)]
pub enum ExtraDataError {
    /// The code belongs to none of the families.
    UnknownFourCc(FourCc),
    /// The block is shorter than its family asks for.
    TooShort { fourcc: FourCc, family: Family, len: usize },
    /// The compression bit of a classic block is clear.
    CompressionBitClear,
    /// A classic block announces a frame-info size other than four.
    FrameInfoSize(u32),
    /// The compression byte of a pack block is not two.
    PackCompression(u8),
}

impl FourCc {
    /// The codes of the classic family: `ULY0`, `ULY2`, `ULY4`, `ULRG` and
    /// `ULRA`.
    pub open spec fn is_classic(self) -> bool {
        let c = self.0@;
        ||| c == seq![0x55u8, 0x4c, 0x59, 0x30]
        ||| c == seq![0x55u8, 0x4c, 0x59, 0x32]
        ||| c == seq![0x55u8, 0x4c, 0x59, 0x34]
        ||| c == seq![0x55u8, 0x4c, 0x52, 0x47]
        ||| c == seq![0x55u8, 0x4c, 0x52, 0x41]
    }

    /// The codes of the pro family: `UQY2` and `UQRG`.
    pub open spec fn is_pro(self) -> bool {
        let c = self.0@;
        ||| c == seq![0x55u8, 0x51, 0x59, 0x32]
        ||| c == seq![0x55u8, 0x51, 0x52, 0x47]
    }

    /// The codes of the pack family: `UMY2` and `UMRG`.
    pub open spec fn is_pack(self) -> bool {
        let c = self.0@;
        ||| c == seq![0x55u8, 0x4d, 0x59, 0x32]
        ||| c == seq![0x55u8, 0x4d, 0x52, 0x47]
    }

    /// The text of a code; a code of no family has question marks.
    pub open spec fn name(self) -> Seq<char> {
        let c = self.0@;
        if c == seq![0x55u8, 0x4c, 0x59, 0x30] {
            "ULY0"@
        } else if c == seq![0x55u8, 0x4c, 0x59, 0x32] {
            "ULY2"@
        } else if c == seq![0x55u8, 0x4c, 0x59, 0x34] {
            "ULY4"@
        } else if c == seq![0x55u8, 0x4c, 0x52, 0x47] {
            "ULRG"@
        } else if c == seq![0x55u8, 0x4c, 0x52, 0x41] {
            "ULRA"@
        } else if c == seq![0x55u8, 0x51, 0x59, 0x32] {
            "UQY2"@
        } else if c == seq![0x55u8, 0x51, 0x52, 0x47] {
            "UQRG"@
        } else if c == seq![0x55u8, 0x4d, 0x59, 0x32] {
            "UMY2"@
        } else if c == seq![0x55u8, 0x4d, 0x52, 0x47] {
            "UMRG"@
        } else {
            "????"@
        }
    }

    /// The text of this code.
    pub fn as_str(&self) -> (s: &'static str)
        ensures
            s@ == self.name(),
    {
        let b: [u8; 4] = self.0;
        proof {
            assert(b@ =~= seq![b@[0], b@[1], b@[2], b@[3]]);
        }
        if b[0] != 0x55 {
            "????"
        } else if b[1] == 0x4c && b[2] == 0x59 && b[3] == 0x30 {
            "ULY0"
        } else if b[1] == 0x4c && b[2] == 0x59 && b[3] == 0x32 {
            "ULY2"
        } else if b[1] == 0x4c && b[2] == 0x59 && b[3] == 0x34 {
            "ULY4"
        } else if b[1] == 0x4c && b[2] == 0x52 && b[3] == 0x47 {
            "ULRG"
        } else if b[1] == 0x4c && b[2] == 0x52 && b[3] == 0x41 {
            "ULRA"
        } else if b[1] == 0x51 && b[2] == 0x59 && b[3] == 0x32 {
            "UQY2"
        } else if b[1] == 0x51 && b[2] == 0x52 && b[3] == 0x47 {
            "UQRG"
        } else if b[1] == 0x4d && b[2] == 0x59 && b[3] == 0x32 {
            "UMY2"
        } else if b[1] == 0x4d && b[2] == 0x52 && b[3] == 0x47 {
            "UMRG"
        } else {
            "????"
        }
    }
}

impl PlaneShape {
    /// The shape that a code names.
    pub open spec fn named(fourcc: FourCc) -> Option<PlaneShape> {
        if fourcc.is_classic() {
            Some(PlaneShape { family: Family::Classic, bit_depth: 8 })
        } else if fourcc.is_pro() {
            Some(PlaneShape { family: Family::Pro, bit_depth: 10 })
        } else if fourcc.is_pack() {
            Some(PlaneShape { family: Family::Pack, bit_depth: 8 })
        } else {
            None
        }
    }

    /// The shape that a code names.
    pub fn from_fourcc(fourcc: FourCc) -> (r: Result<PlaneShape, ExtraDataError>)
        ensures
            r == (match PlaneShape::named(fourcc) {
                Some(s) => Ok::<PlaneShape, ExtraDataError>(s),
                None => Err(ExtraDataError::UnknownFourCc(fourcc)),
            }),
    {
        let b: [u8; 4] = fourcc.0;
        let yuv: bool = b[2] == 0x59;
        let rgb: bool = b[2] == 0x52;
        let classic: bool = b[0] == 0x55 && b[1] == 0x4c && ((yuv && (b[3] == 0x30 || b[3] == 0x32
            || b[3] == 0x34)) || (rgb && (b[3] == 0x47 || b[3] == 0x41)));
        let two: bool = (yuv && b[3] == 0x32) || (rgb && b[3] == 0x47);
        let pro: bool = b[0] == 0x55 && b[1] == 0x51 && two;
        let pack: bool = b[0] == 0x55 && b[1] == 0x4d && two;
        proof {
            let c = b@;
            assert(c =~= seq![c[0], c[1], c[2], c[3]]);
            assert(classic == fourcc.is_classic());
            assert(pro == fourcc.is_pro());
            assert(pack == fourcc.is_pack());
        }
        if classic {
            Ok(PlaneShape { family: Family::Classic, bit_depth: 8 })
        } else if pro {
            Ok(PlaneShape { family: Family::Pro, bit_depth: 10 })
        } else if pack {
            Ok(PlaneShape { family: Family::Pack, bit_depth: 8 })
        } else {
            Err(ExtraDataError::UnknownFourCc(fourcc))
        }
    }
}

impl Family {
    /// The least number of bytes of a block.
    pub open spec fn least(self) -> nat {
        match self {
            Family::Classic => 16,
            Family::Pro => 8,
            Family::Pack => 16,
        }
    }
}

impl ExtraData {
    /// What parsing a block gives.
    pub open spec fn outcome(fourcc: FourCc, raw: Seq<u8>) -> Result<ExtraData, ExtraDataError> {
        match PlaneShape::named(fourcc) {
            None => Err(ExtraDataError::UnknownFourCc(fourcc)),
            Some(shape) => {
                let version = bytes::le32(raw, 0) as u32;
                let original_format = bytes::be32(raw, 4) as u32;
                let size = bytes::le32(raw, 8) as u32;
                let word = bytes::le32(raw, 12);
                if raw.len() < shape.family.least() {
                    Err(
                        ExtraDataError::TooShort {
                            fourcc,
                            family: shape.family,
                            len: raw.len() as usize,
                        },
                    )
                } else {
                    match shape.family {
                        Family::Classic => if word % 2 == 0 {
                            Err(ExtraDataError::CompressionBitClear)
                        } else if size != 4 {
                            Err(ExtraDataError::FrameInfoSize(size))
                        } else {
                            Ok(
                                ExtraData {
                                    fourcc,
                                    family: shape.family,
                                    shape,
                                    version,
                                    original_format,
                                    frame_info_size: 4,
                                    flags: Flags {
                                        compression: true,
                                        interlaced: word / 0x800 % 2 == 1,
                                        slices: (word / 0x100_0000 + 1) as u32,
                                    },
                                },
                            )
                        },
                        Family::Pro => Ok(
                            ExtraData {
                                fourcc,
                                family: shape.family,
                                shape,
                                version,
                                original_format,
                                frame_info_size: 0,
                                flags: Flags { compression: true, interlaced: false, slices: 0 },
                            },
                        ),
                        Family::Pack => if raw[8] != 2 {
                            Err(ExtraDataError::PackCompression(raw[8]))
                        } else {
                            Ok(
                                ExtraData {
                                    fourcc,
                                    family: shape.family,
                                    shape,
                                    version,
                                    original_format,
                                    frame_info_size: 0,
                                    flags: Flags {
                                        compression: true,
                                        interlaced: false,
                                        slices: (raw[9] + 1) as u32,
                                    },
                                },
                            )
                        },
                    }
                }
            },
        }
    }

    /// Parses the extradata of a stream with the given code.
    pub fn parse(fourcc: FourCc, raw: &[u8]) -> (r: Result<ExtraData, ExtraDataError>)
        ensures
            r == ExtraData::outcome(fourcc, raw@),
    {
        match PlaneShape::from_fourcc(fourcc) {
            Err(e) => Err(e),
            Ok(shape) => match shape.family {
                Family::Classic => parse_classic(fourcc, shape, raw),
                Family::Pro => parse_pro(fourcc, shape, raw),
                Family::Pack => parse_pack(fourcc, shape, raw),
            },
        }
    }
}

/// Parses a classic block.
fn parse_classic(fourcc: FourCc, shape: PlaneShape, raw: &[u8]) -> (r: Result<
    ExtraData,
    ExtraDataError,
>)
    requires
        PlaneShape::named(fourcc) == Some(shape),
        shape.family == Family::Classic,
    ensures
        r == ExtraData::outcome(fourcc, raw@),
{
    if raw.len() < 16 {
        return Err(ExtraDataError::TooShort { fourcc, family: shape.family, len: raw.len() });
    }
    let version: u32 = bytes::read_u32_le(raw, 0);
    let original_format: u32 = bytes::read_u32_be(raw, 4);
    let frame_info_size: u32 = bytes::read_u32_le(raw, 8);
    let flags_word: u32 = bytes::read_u32_le(raw, 12);
    let flags = Flags {
        compression: flags_word % 2 == 1,
        interlaced: flags_word / 0x800 % 2 == 1,
        slices: flags_word / 0x100_0000 + 1,
    };
    if !flags.compression {
        return Err(ExtraDataError::CompressionBitClear);
    }
    if frame_info_size != 4 {
        return Err(ExtraDataError::FrameInfoSize(frame_info_size));
    }
    Ok(
        ExtraData {
            fourcc,
            family: shape.family,
            shape,
            version,
            original_format,
            frame_info_size,
            flags,
        },
    )
}

/// Parses a pro block.
fn parse_pro(fourcc: FourCc, shape: PlaneShape, raw: &[u8]) -> (r: Result<
    ExtraData,
    ExtraDataError,
>)
    requires
        PlaneShape::named(fourcc) == Some(shape),
        shape.family == Family::Pro,
    ensures
        r == ExtraData::outcome(fourcc, raw@),
{
    if raw.len() < 8 {
        return Err(ExtraDataError::TooShort { fourcc, family: shape.family, len: raw.len() });
    }
    let version: u32 = bytes::read_u32_le(raw, 0);
    let original_format: u32 = bytes::read_u32_be(raw, 4);
    Ok(
        ExtraData {
            fourcc,
            family: shape.family,
            shape,
            version,
            original_format,
            frame_info_size: 0,
            flags: Flags { compression: true, interlaced: false, slices: 0 },
        },
    )
}

/// Parses a pack block.
fn parse_pack(fourcc: FourCc, shape: PlaneShape, raw: &[u8]) -> (r: Result<
    ExtraData,
    ExtraDataError,
>)
    requires
        PlaneShape::named(fourcc) == Some(shape),
        shape.family == Family::Pack,
    ensures
        r == ExtraData::outcome(fourcc, raw@),
{
    if raw.len() < 16 {
        return Err(ExtraDataError::TooShort { fourcc, family: shape.family, len: raw.len() });
    }
    let version: u32 = bytes::read_u32_le(raw, 0);
    let original_format: u32 = bytes::read_u32_be(raw, 4);
    let comp: u8 = raw[8];
    let slices_minus_one: u8 = raw[9];
    if comp != 2 {
        return Err(ExtraDataError::PackCompression(comp));
    }
    Ok(
        ExtraData {
            fourcc,
            family: shape.family,
            shape,
            version,
            original_format,
            frame_info_size: 0,
            flags: Flags {
                compression: true,
                interlaced: false,
                slices: slices_minus_one as u32 + 1,
            },
        },
    )
}

impl ExtraDataError {
    /// True if the block is well formed but asks for what is not implemented.
    pub fn is_unsupported(&self) -> (b: bool)
        ensures
            b == (self is CompressionBitClear || self is FrameInfoSize),
    {
        matches!(self, ExtraDataError::CompressionBitClear | ExtraDataError::FrameInfoSize(_))
    }

    /// The text of each error.
    pub open spec fn message_text(self) -> Seq<char> {
        match self {
            ExtraDataError::UnknownFourCc(f) => "Ut Video: unknown FourCC "@ + text::hex_byte(
                f.0@[0],
            ) + text::hex_byte(f.0@[1]) + text::hex_byte(f.0@[2]) + text::hex_byte(f.0@[3]),
            ExtraDataError::TooShort { fourcc, family, len } => "Ut Video "@ + fourcc.name()
                + ": extradata is "@ + text::decimal(len as nat) + " bytes, "@ + match family {
                Family::Classic => "classic family needs 16"@,
                Family::Pro => "pro family needs 8"@,
                Family::Pack => "pack family needs 16"@,
            },
            ExtraDataError::CompressionBitClear =>
                "Ut Video: extradata compression bit is 0 (raw / non-Huffman classic frames)"@,
            ExtraDataError::FrameInfoSize(n) => "Ut Video: frame_info_size = "@ + text::decimal(
                n as nat,
            ) + " (only 4 supported)"@,
            ExtraDataError::PackCompression(c) => "Ut Video pack: compression = "@ + text::decimal(
                c as nat,
            ) + ", expected 2"@,
        }
    }

    /// The text of this error.
    pub fn message(&self) -> (m: String)
        ensures
            m@ == self.message_text(),
    {
        let mut m: String = String::new();
        match self {
            ExtraDataError::UnknownFourCc(f) => {
                m.append("Ut Video: unknown FourCC ");
                text::push_hex_byte(&mut m, f.0[0]);
                text::push_hex_byte(&mut m, f.0[1]);
                text::push_hex_byte(&mut m, f.0[2]);
                text::push_hex_byte(&mut m, f.0[3]);
            },
            ExtraDataError::TooShort { fourcc, family, len } => {
                m.append("Ut Video ");
                m.append(fourcc.as_str());
                m.append(": extradata is ");
                text::push_decimal(&mut m, *len as u128);
                m.append(" bytes, ");
                match family {
                    Family::Classic => {
                        m.append("classic family needs 16");
                    },
                    Family::Pro => {
                        m.append("pro family needs 8");
                    },
                    Family::Pack => {
                        m.append("pack family needs 16");
                    },
                }
            },
            ExtraDataError::CompressionBitClear => {
                m.append(
                    "Ut Video: extradata compression bit is 0 (raw / non-Huffman classic frames)",
                );
            },
            ExtraDataError::FrameInfoSize(n) => {
                m.append("Ut Video: frame_info_size = ");
                text::push_decimal(&mut m, *n as u128);
                m.append(" (only 4 supported)");
            },
            ExtraDataError::PackCompression(c) => {
                m.append("Ut Video pack: compression = ");
                text::push_decimal(&mut m, *c as u128);
                m.append(", expected 2");
            },
        }
        assert(m@ =~= self.message_text());
        m
    }
}

} // verus!
