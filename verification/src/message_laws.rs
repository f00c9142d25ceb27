//! What the messages of errors say.

use crate::error::Error;
use crate::extradata::{ExtraDataError, Family};
use crate::fourcc::StreamConfig;
use crate::registry::{ConfigError, FrameError, SessionError};
use crate::text;
use vstd::prelude::*;

verus! {

/// Every message of the codec begins with the name of the library.
pub proof fn law_message_prefix(e: Error)
    ensures
        e.message_text().len() >= 17,
        e.message_text().take(17) == "oxideav-utvideo: "@,
{
    reveal_strlit("oxideav-utvideo: ");
    assert(e.message_text().take(17) =~= "oxideav-utvideo: "@);
}

/// The rest of the messages that name no number.
pub proof fn law_plain_messages(e: Error)
    ensures
        ({
            let m = e.message_text();
            let t = m.skip(17);
            &&& e is HuffmanBitClear ==> t
                == "extradata flags Huffman bit clear (raw slice mode unsupported)"@
            &&& e is InterlacedNotSupported ==> t
                == "extradata interlaced bit set (round 1 unsupported)"@
            &&& e is NonMonotonicSliceOffsets ==> t == "non-monotonic slice end offsets"@
            &&& e is KraftViolation ==> t
                == "Huffman code-length descriptor violates Kraft equality"@
            &&& e is MultipleSingleSymbolSentinels ==> t == "multiple code_length=0 sentinels"@
            &&& e is MissingFrameInfo ==> t == "chunk missing trailing frame_info dword"@
            &&& e matches Error::DimensionConstraint(s) ==> t == "dimension constraint violated: "@
                + s@
            &&& e matches Error::InvalidInput(s) ==> t == "invalid input: "@ + s@
        }),
{
    reveal_strlit("oxideav-utvideo: ");
    let t = e.message_text().skip(17);
    match e {
        Error::HuffmanBitClear => assert(t
            =~= "extradata flags Huffman bit clear (raw slice mode unsupported)"@),
        Error::InterlacedNotSupported => assert(t
            =~= "extradata interlaced bit set (round 1 unsupported)"@),
        Error::NonMonotonicSliceOffsets => assert(t =~= "non-monotonic slice end offsets"@),
        Error::KraftViolation => assert(t
            =~= "Huffman code-length descriptor violates Kraft equality"@),
        Error::MultipleSingleSymbolSentinels => assert(t =~= "multiple code_length=0 sentinels"@),
        Error::MissingFrameInfo => assert(t =~= "chunk missing trailing frame_info dword"@),
        Error::DimensionConstraint(s) => assert(t =~= "dimension constraint violated: "@ + s@),
        Error::InvalidInput(s) => assert(t =~= "invalid input: "@ + s@),
        _ => {},
    }
}

/// The rest of each message that names numbers, which stand in it in decimal,
/// or the bytes of a code in hexadecimal.
pub proof fn law_number_messages(e: Error)
    ensures
        ({
            let t = e.message_text().skip(17);
            &&& e matches Error::UnknownFourcc(b) ==> t == "unknown FourCC "@ + text::hex_byte(
                b@[0],
            ) + text::hex_byte(b@[1]) + text::hex_byte(b@[2]) + text::hex_byte(b@[3])
            &&& e matches Error::ExtradataTruncated { len } ==> t == "extradata too short ("@
                + text::decimal(len as nat) + " bytes; require >= 16)"@
            &&& e matches Error::InvalidFrameInfoSize(n) ==> t
                == "extradata frame_info_size != 4 ("@ + text::decimal(n as nat) + ")"@
            &&& e matches Error::ChunkTooShort { offset, needed, have } ==> t
                == "chunk truncated at offset "@ + text::decimal(offset as nat) + " (need "@
                + text::decimal(needed as nat) + ", have "@ + text::decimal(have as nat) + ")"@
            &&& e matches Error::SliceNotWordAligned(n) ==> t == "slice byte-length "@
                + text::decimal(n as nat) + " not a multiple of 4"@
            &&& e matches Error::HuffmanDecodeFailure { bit_position } ==> t
                == "Huffman bit-prefix unmatched at bit "@ + text::decimal(bit_position as nat)
            &&& e matches Error::SliceTruncated { bit_position, expected_pixels, decoded } ==> t
                == "slice truncated at bit "@ + text::decimal(bit_position as nat) + " (decoded "@
                + text::decimal(decoded as nat) + "/"@ + text::decimal(expected_pixels as nat)
                + " pixels)"@
            &&& e matches Error::NonZeroPadding { plane, slice, bit_position } ==> t
                == "non-zero slice padding in plane "@ + text::decimal(plane as nat) + " slice "@
                + text::decimal(slice as nat) + " at bit "@ + text::decimal(bit_position as nat)
            &&& e matches Error::UnsupportedPrediction(n) ==> t == "prediction mode "@
                + text::decimal(n as nat) + " not supported in this build"@
            &&& e matches Error::EncoderPlaneSizeMismatch { plane, expected, got } ==> t
                == "encoder plane "@ + text::decimal(plane as nat) + " size mismatch (expected "@
                + text::decimal(expected as nat) + ", got "@ + text::decimal(got as nat) + ")"@
        }),
{
    reveal_strlit("oxideav-utvideo: ");
    let t = e.message_text().skip(17);
    match e {
        Error::UnknownFourcc(b) => assert(t =~= "unknown FourCC "@ + text::hex_byte(b@[0])
            + text::hex_byte(b@[1]) + text::hex_byte(b@[2]) + text::hex_byte(b@[3])),
        Error::ExtradataTruncated { len } => assert(t =~= "extradata too short ("@ + text::decimal(
            len as nat,
        ) + " bytes; require >= 16)"@),
        Error::InvalidFrameInfoSize(n) => assert(t =~= "extradata frame_info_size != 4 ("@
            + text::decimal(n as nat) + ")"@),
        Error::ChunkTooShort { offset, needed, have } => assert(t =~= "chunk truncated at offset "@
            + text::decimal(offset as nat) + " (need "@ + text::decimal(needed as nat) + ", have "@
            + text::decimal(have as nat) + ")"@),
        Error::SliceNotWordAligned(n) => assert(t =~= "slice byte-length "@ + text::decimal(
            n as nat,
        ) + " not a multiple of 4"@),
        Error::HuffmanDecodeFailure { bit_position } => assert(t
            =~= "Huffman bit-prefix unmatched at bit "@ + text::decimal(bit_position as nat)),
        Error::SliceTruncated { bit_position, expected_pixels, decoded } => assert(t
            =~= "slice truncated at bit "@ + text::decimal(bit_position as nat) + " (decoded "@
            + text::decimal(decoded as nat) + "/"@ + text::decimal(expected_pixels as nat)
            + " pixels)"@),
        Error::NonZeroPadding { plane, slice, bit_position } => assert(t
            =~= "non-zero slice padding in plane "@ + text::decimal(plane as nat) + " slice "@
            + text::decimal(slice as nat) + " at bit "@ + text::decimal(bit_position as nat)),
        Error::UnsupportedPrediction(n) => assert(t =~= "prediction mode "@ + text::decimal(
            n as nat,
        ) + " not supported in this build"@),
        Error::EncoderPlaneSizeMismatch { plane, expected, got } => assert(t =~= "encoder plane "@
            + text::decimal(plane as nat) + " size mismatch (expected "@ + text::decimal(
            expected as nat,
        ) + ", got "@ + text::decimal(got as nat) + ")"@),
        _ => {},
    }
}

/// The messages on extradata of all families.
pub proof fn law_extradata_messages(e: ExtraDataError)
    ensures
        ({
            let t = e.message_text();
            &&& e matches ExtraDataError::UnknownFourCc(f) ==> t == "Ut Video: unknown FourCC "@
                + text::hex_byte(f.0@[0]) + text::hex_byte(f.0@[1]) + text::hex_byte(f.0@[2])
                + text::hex_byte(f.0@[3])
            &&& e matches ExtraDataError::TooShort { fourcc, family, len } ==> {
                let head = "Ut Video "@ + fourcc.name() + ": extradata is "@ + text::decimal(
                    len as nat,
                ) + " bytes, "@;
                &&& family == Family::Classic ==> t == head + "classic family needs 16"@
                &&& family == Family::Pro ==> t == head + "pro family needs 8"@
                &&& family == Family::Pack ==> t == head + "pack family needs 16"@
            }
            &&& e is CompressionBitClear ==> t
                == "Ut Video: extradata compression bit is 0 (raw / non-Huffman classic frames)"@
            &&& e matches ExtraDataError::FrameInfoSize(n) ==> t
                == "Ut Video: frame_info_size = "@ + text::decimal(n as nat)
                + " (only 4 supported)"@
            &&& e matches ExtraDataError::PackCompression(c) ==> t
                == "Ut Video pack: compression = "@ + text::decimal(c as nat) + ", expected 2"@
        }),
{
}

/// The messages on a frame that cannot be encoded.
pub proof fn law_frame_messages(e: FrameError, cfg: StreamConfig)
    ensures
        ({
            let t = e.message_text(cfg);
            &&& e matches FrameError::PlaneCount { expected, got } ==> t
                == "oxideav-utvideo: encoder expected "@ + text::decimal(expected as nat)
                + " planes for FourCC "@ + cfg.fourcc.label() + ", got "@ + text::decimal(
                got as nat,
            )
            &&& e matches FrameError::TooShort { plane, got, expected } ==> {
                let (w, h) = cfg.fourcc.dims(plane as int, cfg.width, cfg.height);
                t == "oxideav-utvideo: plane "@ + text::decimal(plane as nat) + " has "@
                    + text::decimal(got as nat) + " bytes, expected "@ + text::decimal(
                    expected as nat,
                ) + " ("@ + text::decimal(w as nat) + "x"@ + text::decimal(h as nat) + ")"@
            }
            &&& e matches FrameError::PaddedTooShort { plane, got, expected } ==> t
                == "oxideav-utvideo: plane "@ + text::decimal(plane as nat) + " has "@
                + text::decimal(got as nat) + " bytes, expected at least stride*height = "@
                + text::decimal(expected as nat)
            &&& e matches FrameError::StrideTooSmall { plane, stride, width } ==> t
                == "oxideav-utvideo: plane "@ + text::decimal(plane as nat) + " stride "@
                + text::decimal(stride as nat) + " is below plane width "@ + text::decimal(
                width as nat,
            )
            &&& e is Busy ==> t
                == "oxideav-utvideo: receive_packet must be called before sending another frame"@
            &&& e matches FrameError::Codec(c) ==> t == "oxideav-utvideo: "@ + c.message_text()
        }),
{
}

/// The messages of sessions and of their configuration. An error of the codec
/// is passed on behind the name of the library; that a packet is missing or
/// that none will come has no message.
pub proof fn law_session_messages(c: ConfigError, s: SessionError, format: Seq<char>)
    ensures
        ({
            let t = c.message_text(format);
            &&& c is UnmappedFormat ==> t
                == "oxideav-utvideo: encoder cannot derive FourCC from pixel format "@ + format
                + " — set CodecParameters::tag to a Ut Video FourCC (ULRG/ULRA/ULY0/ULY2/ULY4)"@
            &&& c is NoFormat ==> t
                == "oxideav-utvideo: encoder needs CodecParameters::tag or pixel_format"@
            &&& c is NoDimensions ==> t
                == "oxideav-utvideo: encoder needs CodecParameters::width / height"@
            &&& c matches ConfigError::Codec(e) ==> t == "oxideav-utvideo: "@ + e.message_text()
        }),
        ({
            let t = s.message_text();
            &&& t is None <==> s is NeedMore || s is Eof
            &&& s is Busy ==> t == Some(
                "oxideav-utvideo: receive_frame must be called before sending another packet"@,
            )
            &&& s is NotConfigured ==> t == Some("oxideav-utvideo: stream config not configured"@)
            &&& s matches SessionError::Codec(e) ==> t == Some(
                "oxideav-utvideo: "@ + e.message_text(),
            )
        }),
{
}

} // verus!
