//! The failure surface of the codec.

use crate::text;
use vstd::prelude::*;

verus! {

/// Errors produced by the decoder, the encoder and the inspector.
#[derive(Debug, Clone, PartialEq, Eq)]
pub enum Error {
    /// The four-character code is not one of `ULRG`, `ULRA`, `ULY0`, `ULY2`
    /// and `ULY4`.
    UnknownFourcc([u8; 4]),
    /// The extradata block is shorter than its sixteen bytes.
    ExtradataTruncated { len: usize },
    /// The extradata block announces a frame-info size other than four.
    InvalidFrameInfoSize(u32),
    /// The Huffman bit of the encoding flags is clear (raw slice mode).
    HuffmanBitClear,
    /// The interlaced bit of the encoding flags is set.
    InterlacedNotSupported,
    /// The number of slices is outside `1..=256`.
    InvalidSliceCount,
    /// The chunk payload ended before the per-plane structure did, or went on
    /// after it.
    ChunkTooShort { offset: usize, needed: usize, have: usize },
    /// The slice end offsets of a plane decrease.
    NonMonotonicSliceOffsets,
    /// A slice end offset is not a multiple of four.
    SliceNotWordAligned(usize),
    /// The code lengths of a plane do not form a complete prefix code.
    KraftViolation,
    /// More than one symbol carries the single-symbol code length zero.
    MultipleSingleSymbolSentinels,
    /// No code of the table matches the bits at `bit_position`.
    HuffmanDecodeFailure { bit_position: usize },
    /// A slice ran out of bits before all its samples were produced.
    SliceTruncated { bit_position: usize, expected_pixels: usize, decoded: usize },
    /// A bit between the last code of a slice and the next word boundary is
    /// set. Only the strict decoder reports this.
    NonZeroPadding { plane: usize, slice: usize, bit_position: usize },
    /// The frame dimensions do not fit the chroma subsampling.
    DimensionConstraint(&'static str),
    /// The payload has no room for the trailing frame-info word.
    MissingFrameInfo,
    /// The frame-info word names a prediction mode that is not implemented.
    UnsupportedPrediction(u32),
    /// A plane handed to the encoder has the wrong number of samples, or the
    /// number of planes is wrong.
    EncoderPlaneSizeMismatch { plane: usize, expected: usize, got: usize },
    /// Any other mistake of the caller.
    InvalidInput(&'static str),
}

/// Coarse classification of [`Error`], for recovery policies.
#[derive(Debug, Clone, Copy, PartialEq, Eq, Hash)]
#[non_exhaustive]
pub enum ErrorCategory {
    /// The bytes of a frame do not follow the wire format.
    MalformedStream,
    /// The caller broke the contract of the interface.
    ApiMisuse,
    /// The data is well formed but uses a feature that is not implemented.
    Unsupported,
    /// The identification of the stream (code, extradata, dimensions) is bad.
    StreamShape,
}

impl Error {
    /// The category of each error.
    pub open spec fn category_of(self) -> ErrorCategory {
        match self {
            Error::UnknownFourcc(_)
            | Error::ExtradataTruncated { .. }
            | Error::InvalidFrameInfoSize(_)
            | Error::DimensionConstraint(_) => ErrorCategory::StreamShape,
            Error::InvalidSliceCount
            | Error::EncoderPlaneSizeMismatch { .. }
            | Error::InvalidInput(_) => ErrorCategory::ApiMisuse,
            Error::HuffmanBitClear
            | Error::InterlacedNotSupported
            | Error::UnsupportedPrediction(_) => ErrorCategory::Unsupported,
            Error::ChunkTooShort { .. }
            | Error::NonMonotonicSliceOffsets
            | Error::SliceNotWordAligned(_)
            | Error::KraftViolation
            | Error::MultipleSingleSymbolSentinels
            | Error::HuffmanDecodeFailure { .. }
            | Error::SliceTruncated { .. }
            | Error::NonZeroPadding { .. }
            | Error::MissingFrameInfo => ErrorCategory::MalformedStream,
        }
    }

    /// Coarse classification of this error.
    pub fn category(&self) -> (c: ErrorCategory)
        ensures
            c == self.category_of(),
    {
        match self {
            Error::UnknownFourcc(_)
            | Error::ExtradataTruncated { .. }
            | Error::InvalidFrameInfoSize(_)
            | Error::DimensionConstraint(_) => ErrorCategory::StreamShape,
            Error::InvalidSliceCount
            | Error::EncoderPlaneSizeMismatch { .. }
            | Error::InvalidInput(_) => ErrorCategory::ApiMisuse,
            Error::HuffmanBitClear
            | Error::InterlacedNotSupported
            | Error::UnsupportedPrediction(_) => ErrorCategory::Unsupported,
            Error::ChunkTooShort { .. }
            | Error::NonMonotonicSliceOffsets
            | Error::SliceNotWordAligned(_)
            | Error::KraftViolation
            | Error::MultipleSingleSymbolSentinels
            | Error::HuffmanDecodeFailure { .. }
            | Error::SliceTruncated { .. }
            | Error::NonZeroPadding { .. }
            | Error::MissingFrameInfo => ErrorCategory::MalformedStream,
        }
    }

    /// True if the bytes of a frame are corrupt.
    pub fn is_malformed_stream(&self) -> (b: bool)
        ensures
            b == (self.category_of() == ErrorCategory::MalformedStream),
    {
        matches!(self.category(), ErrorCategory::MalformedStream)
    }

    /// True if the caller broke the contract of the interface.
    pub fn is_api_misuse(&self) -> (b: bool)
        ensures
            b == (self.category_of() == ErrorCategory::ApiMisuse),
    {
        matches!(self.category(), ErrorCategory::ApiMisuse)
    }

    /// True if the data uses a feature that is not implemented.
    pub fn is_unsupported(&self) -> (b: bool)
        ensures
            b == (self.category_of() == ErrorCategory::Unsupported),
    {
        matches!(self.category(), ErrorCategory::Unsupported)
    }

    /// True if the identification of the stream is malformed.
    pub fn is_stream_shape(&self) -> (b: bool)
        ensures
            b == (self.category_of() == ErrorCategory::StreamShape),
    {
        matches!(self.category(), ErrorCategory::StreamShape)
    }

    /// The text of each error.
    pub open spec fn message_text(self) -> Seq<char> {
        "oxideav-utvideo: "@ + match self {
            Error::UnknownFourcc(b) => "unknown FourCC "@ + text::hex_byte(b@[0])
                + text::hex_byte(b@[1]) + text::hex_byte(b@[2]) + text::hex_byte(b@[3]),
            Error::ExtradataTruncated { len } => "extradata too short ("@ + text::decimal(
                len as nat,
            ) + " bytes; require >= 16)"@,
            Error::InvalidFrameInfoSize(n) => "extradata frame_info_size != 4 ("@ + text::decimal(
                n as nat,
            ) + ")"@,
            Error::HuffmanBitClear =>
                "extradata flags Huffman bit clear (raw slice mode unsupported)"@,
            Error::InterlacedNotSupported =>
                "extradata interlaced bit set (round 1 unsupported)"@,
            Error::InvalidSliceCount =>
                "num_slices out of range (must be 1..=256 per spec/01 §4.4.3)"@,
            Error::ChunkTooShort { offset, needed, have } => "chunk truncated at offset "@
                + text::decimal(offset as nat) + " (need "@ + text::decimal(needed as nat)
                + ", have "@ + text::decimal(have as nat) + ")"@,
            Error::NonMonotonicSliceOffsets => "non-monotonic slice end offsets"@,
            Error::SliceNotWordAligned(n) => "slice byte-length "@ + text::decimal(n as nat)
                + " not a multiple of 4"@,
            Error::KraftViolation => "Huffman code-length descriptor violates Kraft equality"@,
            Error::MultipleSingleSymbolSentinels => "multiple code_length=0 sentinels"@,
            Error::HuffmanDecodeFailure { bit_position } =>
                "Huffman bit-prefix unmatched at bit "@ + text::decimal(bit_position as nat),
            Error::SliceTruncated { bit_position, expected_pixels, decoded } =>
                "slice truncated at bit "@ + text::decimal(bit_position as nat) + " (decoded "@
                    + text::decimal(decoded as nat) + "/"@ + text::decimal(expected_pixels as nat)
                    + " pixels)"@,
            Error::NonZeroPadding { plane, slice, bit_position } =>
                "non-zero slice padding in plane "@ + text::decimal(plane as nat) + " slice "@
                    + text::decimal(slice as nat) + " at bit "@ + text::decimal(
                    bit_position as nat,
                ),
            Error::DimensionConstraint(s) => "dimension constraint violated: "@ + s@,
            Error::MissingFrameInfo => "chunk missing trailing frame_info dword"@,
            Error::UnsupportedPrediction(n) => "prediction mode "@ + text::decimal(n as nat)
                + " not supported in this build"@,
            Error::EncoderPlaneSizeMismatch { plane, expected, got } => "encoder plane "@
                + text::decimal(plane as nat) + " size mismatch (expected "@ + text::decimal(
                expected as nat,
            ) + ", got "@ + text::decimal(got as nat) + ")"@,
            Error::InvalidInput(s) => "invalid input: "@ + s@,
        }
    }

    /// The text of this error.
    pub fn message(&self) -> (m: String)
        ensures
            m@ == self.message_text(),
    {
        let mut m: String = String::new();
        match self {
            Error::UnknownFourcc(b) => {
                m.append("unknown FourCC ");
                text::push_hex_byte(&mut m, b[0]);
                text::push_hex_byte(&mut m, b[1]);
                text::push_hex_byte(&mut m, b[2]);
                text::push_hex_byte(&mut m, b[3]);
            },
            Error::ExtradataTruncated { len } => {
                m.append("extradata too short (");
                text::push_decimal(&mut m, *len as u128);
                m.append(" bytes; require >= 16)");
            },
            Error::InvalidFrameInfoSize(n) => {
                m.append("extradata frame_info_size != 4 (");
                text::push_decimal(&mut m, *n as u128);
                m.append(")");
            },
            Error::HuffmanBitClear => {
                m.append("extradata flags Huffman bit clear (raw slice mode unsupported)");
            },
            Error::InterlacedNotSupported => {
                m.append("extradata interlaced bit set (round 1 unsupported)");
            },
            Error::InvalidSliceCount => {
                m.append("num_slices out of range (must be 1..=256 per spec/01 §4.4.3)");
            },
            Error::ChunkTooShort { offset, needed, have } => {
                m.append("chunk truncated at offset ");
                text::push_decimal(&mut m, *offset as u128);
                m.append(" (need ");
                text::push_decimal(&mut m, *needed as u128);
                m.append(", have ");
                text::push_decimal(&mut m, *have as u128);
                m.append(")");
            },
            Error::NonMonotonicSliceOffsets => {
                m.append("non-monotonic slice end offsets");
            },
            Error::SliceNotWordAligned(n) => {
                m.append("slice byte-length ");
                text::push_decimal(&mut m, *n as u128);
                m.append(" not a multiple of 4");
            },
            Error::KraftViolation => {
                m.append("Huffman code-length descriptor violates Kraft equality");
            },
            Error::MultipleSingleSymbolSentinels => {
                m.append("multiple code_length=0 sentinels");
            },
            Error::HuffmanDecodeFailure { bit_position } => {
                m.append("Huffman bit-prefix unmatched at bit ");
                text::push_decimal(&mut m, *bit_position as u128);
            },
            Error::SliceTruncated { bit_position, expected_pixels, decoded } => {
                m.append("slice truncated at bit ");
                text::push_decimal(&mut m, *bit_position as u128);
                m.append(" (decoded ");
                text::push_decimal(&mut m, *decoded as u128);
                m.append("/");
                text::push_decimal(&mut m, *expected_pixels as u128);
                m.append(" pixels)");
            },
            Error::NonZeroPadding { plane, slice, bit_position } => {
                m.append("non-zero slice padding in plane ");
                text::push_decimal(&mut m, *plane as u128);
                m.append(" slice ");
                text::push_decimal(&mut m, *slice as u128);
                m.append(" at bit ");
                text::push_decimal(&mut m, *bit_position as u128);
            },
            Error::DimensionConstraint(s) => {
                m.append("dimension constraint violated: ");
                m.append(*s);
            },
            Error::MissingFrameInfo => {
                m.append("chunk missing trailing frame_info dword");
            },
            Error::UnsupportedPrediction(n) => {
                m.append("prediction mode ");
                text::push_decimal(&mut m, *n as u128);
                m.append(" not supported in this build");
            },
            Error::EncoderPlaneSizeMismatch { plane, expected, got } => {
                m.append("encoder plane ");
                text::push_decimal(&mut m, *plane as u128);
                m.append(" size mismatch (expected ");
                text::push_decimal(&mut m, *expected as u128);
                m.append(", got ");
                text::push_decimal(&mut m, *got as u128);
                m.append(")");
            },
            Error::InvalidInput(s) => {
                m.append("invalid input: ");
                m.append(*s);
            },
        }
        let mut out: String = String::new();
        out.append("oxideav-utvideo: ");
        out.append(m.as_str());
        assert(out@ =~= self.message_text());
        out
    }
}

} // verus!
