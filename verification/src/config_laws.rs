//! What the bytes of a code and of an extradata block mean, which blocks are
//! refused, and what numbers look like in messages.

use crate::decoder;
use crate::encoder;
use crate::error::{Error, ErrorCategory};
use crate::extradata::{ExtraData, ExtraDataError, Family, FourCc, PlaneShape};
use crate::fourcc::{Extradata, Fourcc, Predictor, StreamConfig};
use crate::huffman;
use crate::predict;
use crate::registry;
use crate::text;
use crate::workers;
use vstd::arithmetic::div_mod::*;
use vstd::arithmetic::mul::*;
use vstd::prelude::*;

verus! {

/// The characters of a code: `UL`, then `Y` and the digit of the subsampling,
/// or `R` and `G` without and `A` with alpha.
pub proof fn law_code_characters(f: Fourcc)
    ensures
        ({
            let c = f.code();
            let rgb = f == Fourcc::Ulrg || f == Fourcc::Ulra;
            &&& c.len() == 4
            &&& c[0] as char == 'U'
            &&& c[1] as char == 'L'
            &&& c[2] as char == 'R' <==> rgb
            &&& c[2] as char == 'Y' <==> !rgb
            &&& c[3] as char == '0' <==> f == Fourcc::Uly0
            &&& c[3] as char == '2' <==> f == Fourcc::Uly2
            &&& c[3] as char == '4' <==> f == Fourcc::Uly4
            &&& c[3] as char == 'G' <==> f == Fourcc::Ulrg
            &&& c[3] as char == 'A' <==> f == Fourcc::Ulra
            &&& f.is_rgb() <==> rgb
        }),
{
}

/// The name of a code in this program is its characters, all but the first in
/// lower case.
pub proof fn law_code_label(f: Fourcc, i: int)
    requires
        0 <= i < 4,
    ensures
        f.label().len() == 4,
        f.label()[i] as int == (if i > 0 && 65 <= f.code()[i] <= 90 {
            f.code()[i] + 32
        } else {
            f.code()[i] as int
        }),
{
    reveal_strlit("Uly0");
    reveal_strlit("Uly2");
    reveal_strlit("Uly4");
    reveal_strlit("Ulrg");
    reveal_strlit("Ulra");
}

/// The source-format tag of a code: `YV12`, `YUY2` or `YV24`; and for RGB the
/// bytes 0, 0, 1 and 24, for RGBA 0, 0, 2 and 24.
pub proof fn law_source_tag(f: Fourcc)
    ensures
        ({
            let t = f.source_tag();
            let yuv = f == Fourcc::Uly0 || f == Fourcc::Uly2 || f == Fourcc::Uly4;
            &&& t.len() == 4
            &&& yuv ==> t[0] as char == 'Y'
            &&& yuv && f != Fourcc::Uly2 ==> t[1] as char == 'V'
            &&& f == Fourcc::Uly0 ==> t[2] as char == '1' && t[3] as char == '2'
            &&& f == Fourcc::Uly2 ==> t[1] as char == 'U' && t[2] as char == 'Y' && t[3] as char
                == '2'
            &&& f == Fourcc::Uly4 ==> t[2] as char == '2' && t[3] as char == '4'
            &&& !yuv ==> t[0] == 0 && t[1] == 0 && t[3] == 24
            &&& f == Fourcc::Ulrg ==> t[2] == 1
            &&& f == Fourcc::Ulra ==> t[2] == 2
        }),
{
}

/// Dimensions are accepted exactly where they are positive and the chroma
/// planes, doubled where they are subsampled, cover the frame. A zero is named
/// first.
pub proof fn law_dimensions(f: Fourcc, width: u32, height: u32)
    ensures
        ({
            let r = f.dims_error(width, height);
            let (w, h) = f.dims(1, width, height);
            let wide = f == Fourcc::Uly0 || f == Fourcc::Uly2 ==> 2 * w == width;
            let high = f == Fourcc::Uly0 ==> 2 * h == height;
            &&& r is None <==> width > 0 && height > 0 && wide && high
            &&& width == 0 || height == 0 ==> r == Some(
                Error::DimensionConstraint("width/height must be > 0"),
            )
            &&& width > 0 && height > 0 && !(wide && high) && f == Fourcc::Uly0 ==> r == Some(
                Error::DimensionConstraint("ULY0 requires even width and height"),
            )
            &&& width > 0 && height > 0 && !(wide && high) && f != Fourcc::Uly0 ==> r == Some(
                Error::DimensionConstraint("ULY2 requires even width"),
            )
        }),
{
}

/// The number that a frame-info word has for a predictor, and the predictor
/// that a word names, agree; no prediction is 0, left 1, gradient 2, median 3.
pub proof fn law_mode_numbers(p: Predictor, rest: u32)
    requires
        rest < 0x40_0000,
    ensures
        p == Predictor::Identity <==> p.mode() == 0,
        p == Predictor::Left <==> p.mode() == 1,
        p == Predictor::Gradient <==> p.mode() == 2,
        p == Predictor::Median <==> p.mode() == 3,
        Predictor::of_frame_info((0x400 * rest + 0x100 * p.mode()) as u32) == p,
        Predictor::of_frame_info((0x400 * rest + 0x100 * p.mode() + 255) as u32) == p,
{
}

/// The bytes of a block: the version, the tag, the size of the frame-info word
/// and the flags, words with the lowest byte first. The last byte is one less
/// than the number of slices.
pub proof fn law_extradata_bytes(x: Extradata)
    ensures
        ({
            let e = x.encoded();
            &&& e.len() == 16
            &&& x.encoder_version == e[0] + 256 * e[1] + 65536 * e[2] + 16777216 * e[3]
            &&& x.source_format_tag@[0] == e[4]
            &&& x.source_format_tag@[1] == e[5]
            &&& x.source_format_tag@[2] == e[6]
            &&& x.source_format_tag@[3] == e[7]
            &&& x.frame_info_size == e[8] + 256 * e[9] + 65536 * e[10] + 16777216 * e[11]
            &&& x.flags == e[12] + 256 * e[13] + 65536 * e[14] + 16777216 * e[15]
            &&& x.slices() == e[15] + 1
        }),
{
    crate::bytes::lemma_le_bytes_read_back(x.encoder_version);
    crate::bytes::lemma_le_bytes_read_back(x.frame_info_size);
    crate::bytes::lemma_le_bytes_read_back(x.flags);
}

/// Which block is refused, and why: one of fewer than sixteen bytes; one whose
/// third word is not four; one whose thirteenth byte is even; one whose
/// fourteenth byte has the bit of value eight. The first of these counts.
pub proof fn law_extradata_errors(b: Seq<u8>)
    ensures
        ({
            let r = Extradata::parse_error(b);
            let size = b[8] + 256 * b[9] + 65536 * b[10] + 16777216 * b[11];
            &&& b.len() < 16 ==> r == Some(Error::ExtradataTruncated { len: b.len() as usize })
            &&& b.len() >= 16 && size != 4 ==> r == Some(Error::InvalidFrameInfoSize(size as u32))
            &&& b.len() >= 16 && size == 4 && b[12] % 2 == 0 ==> r == Some(Error::HuffmanBitClear)
            &&& b.len() >= 16 && size == 4 && b[12] % 2 == 1 && b[13] / 8 % 2 == 1 ==> r == Some(
                Error::InterlacedNotSupported,
            )
            &&& b.len() >= 16 && size == 4 && b[12] % 2 == 1 && b[13] / 8 % 2 == 0 ==> r is None
        }),
{
    lemma_flag_bits(b[12] as int, b[13] as int, b[14] as int, b[15] as int);
}

proof fn lemma_flag_bits(a: int, b: int, c: int, d: int)
    requires
        0 <= a < 256,
        0 <= b < 256,
        0 <= c < 256,
        0 <= d < 256,
    ensures
        ({
            let word = a + 0x100 * b + 0x1_0000 * c + 0x100_0000 * d;
            &&& word % 2 == a % 2
            &&& word / 0x800 % 2 == b / 8 % 2
            &&& word / 0x100_0000 == d
            &&& 0 <= word <= u32::MAX
        }),
{
    let word = a + 0x100 * b + 0x1_0000 * c + 0x100_0000 * d;
    assert(word / 0x800 == b / 8 + 0x20 * c + 0x2000 * d);
}

/// The block that FFmpeg writes: version bytes f0, 0, 0 and 1, the tag of the
/// code, the word four, and the bytes 1, 0, 0 and the number of slices less one.
pub proof fn law_ffmpeg_bytes(x: Extradata, f: Fourcc, n: nat)
    requires
        1 <= n <= 256,
        x.of_ffmpeg(f, n),
    ensures
        ({
            let e = x.encoded();
            &&& e[0] == 0xf0 && e[1] == 0 && e[2] == 0 && e[3] == 1
            &&& e.subrange(4, 8) == f.source_tag()
            &&& e[8] == 4 && e[9] == 0 && e[10] == 0 && e[11] == 0
            &&& e[12] == 1 && e[13] == 0 && e[14] == 0
            &&& e[15] == n - 1
        }),
{
    assert(x.encoded().subrange(4, 8) =~= x.source_format_tag@);
}

/// The second character of a code names its family: `L` classic, `Q` pro, `M`
/// pack. Pro samples have ten bits, all others eight. The name of a known code
/// is its characters.
pub proof fn law_families(f: FourCc, i: int)
    requires
        0 <= i < 4,
    ensures
        ({
            let c = f.0@;
            let shape = PlaneShape::named(f);
            let yuv = c[2] as char == 'Y';
            let rgb = c[2] as char == 'R';
            let both = yuv && c[3] as char == '2' || rgb && c[3] as char == 'G';
            let more = yuv && (c[3] as char == '0' || c[3] as char == '4') || rgb && c[3] as char
                == 'A';
            &&& shape is Some <==> c[0] as char == 'U' && (c[1] as char == 'L' && (both || more)
                || c[1] as char == 'Q' && both || c[1] as char == 'M' && both)
            &&& shape matches Some(s) ==> {
                &&& s.family == Family::Classic <==> c[1] as char == 'L'
                &&& s.family == Family::Pro <==> c[1] as char == 'Q'
                &&& s.family == Family::Pack <==> c[1] as char == 'M'
                &&& s.bit_depth == (if c[1] as char == 'Q' {
                    10u32
                } else {
                    8u32
                })
                &&& f.name().len() == 4
                &&& f.name()[i] as int == c[i]
            }
            &&& shape is None ==> f.name() == seq!['?', '?', '?', '?']
        }),
{
    reveal_strlit("ULY0");
    reveal_strlit("ULY2");
    reveal_strlit("ULY4");
    reveal_strlit("ULRG");
    reveal_strlit("ULRA");
    reveal_strlit("UQY2");
    reveal_strlit("UQRG");
    reveal_strlit("UMY2");
    reveal_strlit("UMRG");
    reveal_strlit("????");
    let c = f.0@;
    assert(c =~= seq![c[0], c[1], c[2], c[3]]);
}

/// What a block of a known family gives: its version, low byte first; its
/// format, high byte first; and for a classic block the bits and the slice
/// count of the last word, for a pack block the slice count of the tenth byte.
pub proof fn law_family_blocks(f: FourCc, b: Seq<u8>)
    ensures
        PlaneShape::named(f) is None ==> ExtraData::outcome(f, b) == Err::<
            ExtraData,
            ExtraDataError,
        >(ExtraDataError::UnknownFourCc(f)),
        PlaneShape::named(f) matches Some(shape) ==> {
            let r = ExtraData::outcome(f, b);
            let least = if shape.family == Family::Pro {
                8nat
            } else {
                16nat
            };
            let size = b[8] + 256 * b[9] + 65536 * b[10] + 16777216 * b[11];
            &&& b.len() < least <==> r == Err::<ExtraData, ExtraDataError>(
                ExtraDataError::TooShort { fourcc: f, family: shape.family, len: b.len() as usize },
            )
            &&& b.len() >= 16 && shape.family == Family::Classic && b[12] % 2 == 0 ==> r == Err::<
                ExtraData,
                ExtraDataError,
            >(ExtraDataError::CompressionBitClear)
            &&& b.len() >= 16 && shape.family == Family::Classic && b[12] % 2 == 1 && size != 4
                ==> r == Err::<ExtraData, ExtraDataError>(
                ExtraDataError::FrameInfoSize(size as u32),
            )
            &&& b.len() >= 16 && shape.family == Family::Pack && b[8] != 2 ==> r == Err::<
                ExtraData,
                ExtraDataError,
            >(ExtraDataError::PackCompression(b[8]))
            &&& r is Ok <==> b.len() >= least && (shape.family == Family::Classic ==> b[12] % 2 == 1
                && size == 4) && (shape.family == Family::Pack ==> b[8] == 2)
            &&& r matches Ok(x) ==> {
                &&& x.fourcc == f
                &&& x.family == shape.family
                &&& x.shape == shape
                &&& x.version == b[0] + 256 * b[1] + 65536 * b[2] + 16777216 * b[3]
                &&& x.original_format == b[7] + 256 * b[6] + 65536 * b[5] + 16777216 * b[4]
                &&& x.frame_info_size == (if shape.family == Family::Classic {
                    4u32
                } else {
                    0u32
                })
                &&& x.flags.compression
                &&& x.flags.interlaced <==> shape.family == Family::Classic && b[13] / 8 % 2 == 1
                &&& x.flags.slices == (if shape.family == Family::Classic {
                    b[15] + 1
                } else if shape.family == Family::Pack {
                    b[9] + 1
                } else {
                    0
                })
            }
        },
{
    lemma_flag_bits(b[0] as int, b[1] as int, b[2] as int, b[3] as int);
    lemma_flag_bits(b[7] as int, b[6] as int, b[5] as int, b[4] as int);
    lemma_flag_bits(b[8] as int, b[9] as int, b[10] as int, b[11] as int);
    lemma_flag_bits(b[12] as int, b[13] as int, b[14] as int, b[15] as int);
}

/// The category of an error: bad identification, misuse, a feature that is not
/// there, or a corrupt frame.
pub proof fn law_categories(e: Error)
    ensures
        e.category_of() == ErrorCategory::StreamShape <==> (e is UnknownFourcc
            || e is ExtradataTruncated || e is InvalidFrameInfoSize || e is DimensionConstraint),
        e.category_of() == ErrorCategory::ApiMisuse <==> (e is InvalidSliceCount
            || e is EncoderPlaneSizeMismatch || e is InvalidInput),
        e.category_of() == ErrorCategory::Unsupported <==> (e is HuffmanBitClear
            || e is InterlacedNotSupported || e is UnsupportedPrediction),
        e.category_of() == ErrorCategory::MalformedStream <==> (e is ChunkTooShort
            || e is NonMonotonicSliceOffsets || e is SliceNotWordAligned || e is KraftViolation
            || e is MultipleSingleSymbolSentinels || e is HuffmanDecodeFailure
            || e is SliceTruncated || e is NonZeroPadding || e is MissingFrameInfo),
{
}

/// A number in decimal: digits only, the first of them no zero unless it is
/// the only one, and the number is what they add up to.
pub proof fn law_decimal(n: nat)
    ensures
        ({
            let t = text::decimal(n);
            &&& t.len() >= 1
            &&& forall|i: int| 0 <= i < t.len() ==> '0' <= #[trigger] t[i] <= '9'
            &&& t.len() >= 2 ==> t[0] != '0'
            &&& n == t.fold_left(0int, |v: int, c: char| 10 * v + (c as int - '0' as int))
        }),
    decreases n,
{
    let t = text::decimal(n);
    let f = |v: int, c: char| 10 * v + (c as int - '0' as int);
    if n < 10 {
        assert(t.drop_last() =~= Seq::<char>::empty());
        assert(t.drop_last().fold_left(0int, f) == 0);
    } else {
        let m = n / 10;
        law_decimal(m);
        assert(t.drop_last() =~= text::decimal(m));
        assert forall|i: int| 0 <= i < t.len() implies '0' <= #[trigger] t[i] <= '9' by {
            if i < t.len() - 1 {
                assert(t[i] == text::decimal(m)[i]);
            }
        }
        if m < 10 {
            assert(t[0] == text::digit_char(m as int));
        } else {
            assert(text::decimal(m).len() >= 2) by {
                law_decimal(m / 10);
            }
            assert(t[0] == text::decimal(m)[0]);
        }
    }
}

/// The value of a hexadecimal digit in lower case.
pub open spec fn hex_value(c: char) -> int {
    if '0' <= c <= '9' {
        c as int - '0' as int
    } else if 'a' <= c <= 'f' {
        c as int - 'a' as int + 10
    } else {
        -1
    }
}

/// A byte in hexadecimal: two digits, the first worth sixteen times its value.
pub proof fn law_hex(b: u8)
    ensures
        text::hex_byte(b).len() == 2,
        0 <= hex_value(text::hex_byte(b)[0]),
        0 <= hex_value(text::hex_byte(b)[1]),
        b == 16 * hex_value(text::hex_byte(b)[0]) + hex_value(text::hex_byte(b)[1]),
{
}

/// There are as many workers as the budget and the slices allow, but at least
/// one.
pub proof fn law_fanout(slices: int, budget: int, n: int)
    ensures
        ({
            let f = workers::fanout(slices, budget);
            &&& f >= 1
            &&& f > 1 ==> f <= slices && f <= budget
            &&& 1 <= n <= slices && n <= budget ==> n <= f
        }),
{
}

/// Every worker gets as many slices as the others but the last ones, and none
/// gets more than its share rounded up.
pub proof fn law_bucket_sizes(slices: int, n: int, b: int)
    requires
        0 <= slices,
        1 <= n,
        0 <= b < n,
    ensures
        ({
            let size = workers::bucket_start(slices, n, b + 1) - workers::bucket_start(
                slices,
                n,
                b,
            );
            let first = workers::bucket_start(slices, n, 1) - workers::bucket_start(slices, n, 0);
            &&& 0 <= size <= first
            &&& workers::bucket_start(slices, n, b + 1) < slices ==> size == first
            &&& slices <= n * first < slices + n || first == slices
        }),
{
    let c = workers::share(slices, n);
    lemma_fundamental_div_mod(slices + n - 1, n);
    lemma_mod_bound(slices + n - 1, n);
    lemma_div_pos_is_pos(slices + n - 1, n);
    lemma_mul_basics_1(c);
    lemma_mul_basics_3(c);
    assert((b + 1) * c == b * c + c) by (nonlinear_arith);
    assert(0 <= b * c) by (nonlinear_arith)
        requires
            0 <= b,
            0 <= c,
    ;
    if b > 0 {
        assert(c <= b * c) by (nonlinear_arith)
            requires
                1 <= b,
                0 <= c,
        ;
    }
}

/// The limits that the library is built with: frames of 65536 pixels or more
/// are worth several workers, codes that the encoder makes have at most sixteen
/// bits, the table answers for codes of at most twelve bits, and eight rows
/// decide on a predictor.
pub proof fn law_limits()
    ensures
        decoder::PARALLEL_PIXEL_THRESHOLD == 256 * 256,
        encoder::PARALLEL_PIXEL_THRESHOLD == 256 * 256,
        encoder::MAX_CODE_LENGTH == 16,
        huffman::LUT_BITS == 12,
        huffman::LUT_SIZE == 16 * 256,
        predict::HEURISTIC_SAMPLE_ROWS == 8,
{
}

/// The codes that the codec claims are all codes, each once; those of the RGB
/// family come first, then the YUV ones by how much chroma they keep.
pub proof fn law_claimed(f: Fourcc, i: int, j: int)
    requires
        0 <= i < j < registry::claimed().len(),
    ensures
        registry::claimed().contains(f),
        registry::claimed().len() == 5,
        registry::claimed()[i] != registry::claimed()[j],
        registry::claimed()[j].is_rgb() ==> registry::claimed()[i].is_rgb(),
        registry::claimed()[i].is_rgb() && registry::claimed()[j].is_rgb()
            ==> registry::claimed()[i].planes() < registry::claimed()[j].planes(),
        !registry::claimed()[i].is_rgb() ==> registry::claimed()[i].code()[3]
            < registry::claimed()[j].code()[3],
{
    let c = registry::claimed();
    assert(c[0] == Fourcc::Ulrg && c[1] == Fourcc::Ulra && c[2] == Fourcc::Uly0 && c[3]
        == Fourcc::Uly2 && c[4] == Fourcc::Uly4);
}

/// A tag names the code whose characters it has; no other tag names one. A
/// stream to encode gets its code from its tag where that names one, else from
/// its pixel format: 4:2:0, 4:2:2 or 4:4:4.
pub proof fn law_stream_code(tag: Option<[u8; 4]>, layout: Option<registry::PixelLayout>, f: Fourcc)
    ensures
        registry::tagged(tag) == Some(f) <==> tag is Some && tag->0@ == f.code(),
        registry::tagged(tag) == Some(f) ==> registry::encoder_fourcc(tag, layout) == Ok::<
            Fourcc,
            registry::ConfigError,
        >(f),
        registry::tagged(tag) is None ==> {
            let r = registry::encoder_fourcc(tag, layout);
            &&& layout is None ==> r == Err::<Fourcc, registry::ConfigError>(
                registry::ConfigError::NoFormat,
            )
            &&& layout == Some(registry::PixelLayout::Other) ==> r == Err::<
                Fourcc,
                registry::ConfigError,
            >(registry::ConfigError::UnmappedFormat)
            &&& r == Ok::<Fourcc, registry::ConfigError>(f) <==> layout is Some && {
                ||| f == Fourcc::Uly0 && layout->0 == registry::PixelLayout::Yuv420
                ||| f == Fourcc::Uly2 && layout->0 == registry::PixelLayout::Yuv422
                ||| f == Fourcc::Uly4 && layout->0 == registry::PixelLayout::Yuv444
            }
        },
{
    if tag is Some {
        let b = tag->0@;
        if b == f.code() && registry::fourcc_of(b) is Some {
            Fourcc::law_code_injective(registry::fourcc_of(b)->0, f);
        }
    }
}

/// A stream can be configured once its tag has the characters of a code, both
/// dimensions are known and there is some extradata.
pub proof fn law_all_given(
    tag: [u8; 4],
    width: Option<u32>,
    height: Option<u32>,
    b: Seq<u8>,
    f: Fourcc,
)
    ensures
        registry::all_given(Some(tag), width, height, b) ==> width is Some && height is Some
            && b.len() > 0 && exists|g: Fourcc| #[trigger] g.code() == tag@,
        tag@ == f.code() && width is Some && height is Some && b.len() > 0 ==> registry::all_given(
            Some(tag),
            width,
            height,
            b,
        ),
        !registry::all_given(None, width, height, b),
{
    law_stream_code(Some(tag), None, f);
    if registry::all_given(Some(tag), width, height, b) {
        let g = registry::tagged(Some(tag))->0;
        law_stream_code(Some(tag), None, g);
        assert(g.code() == tag@);
    }
}

/// The parts of a configuration are faulted extradata first, then dimensions.
pub proof fn law_config_errors(f: Fourcc, width: u32, height: u32, b: Seq<u8>)
    ensures
        Extradata::parse_error(b) is Some ==> registry::config_error(f, width, height, b)
            == Extradata::parse_error(b),
        Extradata::parse_error(b) is None ==> registry::config_error(f, width, height, b)
            == f.dims_error(width, height),
{
}

/// A configuration has the given code and dimensions, and of the extradata the
/// words and the tag that stand in its bytes.
pub proof fn law_configured(c: StreamConfig, f: Fourcc, width: u32, height: u32, b: Seq<u8>)
    requires
        registry::configured(c, f, width, height, b),
    ensures
        c.fourcc == f,
        c.width == width > 0,
        c.height == height > 0,
        b.len() >= 16,
        c.extradata.encoder_version == b[0] + 256 * b[1] + 65536 * b[2] + 16777216 * b[3],
        c.extradata.source_format_tag@ == b.subrange(4, 8),
        c.extradata.frame_info_size == 4,
        c.extradata.flags == b[12] + 256 * b[13] + 65536 * b[14] + 16777216 * b[15],
        c.extradata.slices() == b[15] + 1,
{
    law_extradata_errors(b);
    law_extradata_bytes(c.extradata);
    let e = b.take(16);
    assert(c.extradata.encoded() == e);
    assert forall|i: int| 0 <= i < 16 implies #[trigger] e[i] == b[i] by {}
    assert(c.extradata.source_format_tag@ =~= b.subrange(4, 8));
}

} // verus!
