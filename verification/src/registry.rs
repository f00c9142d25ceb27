//! The decisions of the codec's framework side, on plain values: which stream
//! configuration a set of parameters stands for, how planes with padded rows
//! become frames to encode, and what a decoding or encoding session does with
//! the packets and frames that it is handed.

use crate::bytes;
use crate::decoder;
use crate::decoder::DecodedFrame;
use crate::encoder;
use crate::encoder::{EncodedFrame, PlaneInput};
use crate::error::Error;
use crate::fourcc::{Extradata, Fourcc, Predictor, StreamConfig};
use crate::predict;
use crate::text;
use vstd::arithmetic::mul::*;
use vstd::prelude::*;

verus! {

/// The name of the codec.
pub const CODEC_ID_STR: &'static str = "utvideo";

/// An ASCII letter in upper case; other bytes stay as they are.
pub open spec fn ascii_upper(b: u8) -> u8 {
    if 0x61 <= b <= 0x7a {
        (b - 0x20) as u8
    } else {
        b
    }
}

/// The characters of a code with ASCII letters in upper case.
pub open spec fn upper_code(code: Seq<u8>) -> Seq<u8> {
    Seq::new(code.len(), |i: int| ascii_upper(code[i]))
}

/// The bytes of the tag that `oxideav_core::CodecTag::fourcc` makes of a code.
/// Claims that the tag is a four-character code and that its bytes are those
/// of the code with ASCII letters in upper case.
#[verifier::external_body]
fn codec_tag(code: &[u8; 4]) -> (tag: Option<[u8; 4]>)
    ensures
        tag is Some,
        tag->0@ == upper_code(code@),
{
    match oxideav_core::CodecTag::fourcc(code) {
        oxideav_core::CodecTag::Fourcc(b) => Some(b),
        _ => None,
    }
}

/// The bytes by which tags compare: those of a code with ASCII letters in
/// upper case.
pub fn tag_bytes(code: &[u8; 4]) -> (tag: [u8; 4])
    ensures
        tag@ == upper_code(code@),
{
    match codec_tag(code) {
        Some(b) => b,
        None => *code,
    }
}

/// The tag bytes of a code that the codec claims.
pub fn fourcc_tag(fourcc: Fourcc) -> (tag: [u8; 4])
    ensures
        tag@ == fourcc.code(),
{
    let tag: [u8; 4] = tag_bytes(fourcc.as_bytes());
    assert(tag@ =~= fourcc.code());
    tag
}

/// The codes that the codec claims, in the order in which it claims them.
pub open spec fn claimed() -> Seq<Fourcc> {
    seq![Fourcc::Ulrg, Fourcc::Ulra, Fourcc::Uly0, Fourcc::Uly2, Fourcc::Uly4]
}

/// The tags that the codec claims.
pub fn claimed_tags() -> (tags: Vec<[u8; 4]>)
    ensures
        tags@.len() == claimed().len(),
        forall|i: int| 0 <= i < tags@.len() ==> (#[trigger] tags@[i])@ == claimed()[i].code(),
{
    let mut tags: Vec<[u8; 4]> = Vec::new();
    tags.push(fourcc_tag(Fourcc::Ulrg));
    tags.push(fourcc_tag(Fourcc::Ulra));
    tags.push(fourcc_tag(Fourcc::Uly0));
    tags.push(fourcc_tag(Fourcc::Uly2));
    tags.push(fourcc_tag(Fourcc::Uly4));
    tags
}

/// The code with the given characters.
pub open spec fn fourcc_of(code: Seq<u8>) -> Option<Fourcc> {
    if code == Fourcc::Uly0.code() {
        Some(Fourcc::Uly0)
    } else if code == Fourcc::Uly2.code() {
        Some(Fourcc::Uly2)
    } else if code == Fourcc::Uly4.code() {
        Some(Fourcc::Uly4)
    } else if code == Fourcc::Ulrg.code() {
        Some(Fourcc::Ulrg)
    } else if code == Fourcc::Ulra.code() {
        Some(Fourcc::Ulra)
    } else {
        None
    }
}

/// The code that a stream's tag names.
pub open spec fn tagged(tag: Option<[u8; 4]>) -> Option<Fourcc> {
    match tag {
        Some(b) => fourcc_of(b@),
        None => None,
    }
}

/// The code that a stream's tag names, if there is a tag and it names one.
pub fn fourcc_from_tag(tag: Option<[u8; 4]>) -> (r: Option<Fourcc>)
    ensures
        r == tagged(tag),
{
    match tag {
        None => None,
        Some(b) => match Fourcc::from_bytes(b) {
            Ok(f) => {
                proof {
                    if b@ == Fourcc::Uly0.code() {
                        Fourcc::law_code_injective(f, Fourcc::Uly0);
                    }
                    if b@ == Fourcc::Uly2.code() {
                        Fourcc::law_code_injective(f, Fourcc::Uly2);
                    }
                    if b@ == Fourcc::Uly4.code() {
                        Fourcc::law_code_injective(f, Fourcc::Uly4);
                    }
                    if b@ == Fourcc::Ulrg.code() {
                        Fourcc::law_code_injective(f, Fourcc::Ulrg);
                    }
                    if b@ == Fourcc::Ulra.code() {
                        Fourcc::law_code_injective(f, Fourcc::Ulra);
                    }
                }
                Some(f)
            },
            Err(_) => None,
        },
    }
}

/// Parses an extradata block and puts the configuration together.
pub fn configure(fourcc: Fourcc, width: u32, height: u32, extradata: &[u8]) -> (r: Result<
    StreamConfig,
    Error,
>)
    ensures
        match r {
            Ok(c) => configured(c, fourcc, width, height, extradata@),
            Err(e) => config_error(fourcc, width, height, extradata@) == Some(e),
        },
{
    match Extradata::parse(extradata) {
        Err(e) => Err(e),
        Ok(x) => StreamConfig::new(fourcc, width, height, x),
    }
}

/// A configuration is made of the given parts.
pub open spec fn configured(
    c: StreamConfig,
    fourcc: Fourcc,
    width: u32,
    height: u32,
    extradata: Seq<u8>,
) -> bool {
    &&& config_error(fourcc, width, height, extradata) is None
    &&& c.fourcc == fourcc
    &&& c.width == width
    &&& c.height == height
    &&& c.extradata.encoded() == extradata.take(16)
}

/// What is wrong with the parts of a configuration, if anything.
pub open spec fn config_error(fourcc: Fourcc, width: u32, height: u32, extradata: Seq<u8>) -> Option<
    Error,
> {
    if Extradata::parse_error(extradata) is Some {
        Extradata::parse_error(extradata)
    } else {
        fourcc.dims_error(width, height)
    }
}

/// The parameters of a stream name all parts of its configuration.
pub open spec fn all_given(
    tag: Option<[u8; 4]>,
    width: Option<u32>,
    height: Option<u32>,
    extradata: Seq<u8>,
) -> bool {
    tagged(tag) is Some && width is Some && height is Some && extradata.len() > 0
}

/// The configuration of a stream to decode, or nothing if its parameters do
/// not name all parts of it yet.
pub fn build_stream_config(
    tag: Option<[u8; 4]>,
    width: Option<u32>,
    height: Option<u32>,
    extradata: &[u8],
) -> (r: Result<Option<StreamConfig>, Error>)
    ensures
        match r {
            Ok(None) => !all_given(tag, width, height, extradata@),
            Ok(Some(c)) => all_given(tag, width, height, extradata@) && configured(
                c,
                tagged(tag)->0,
                width->0,
                height->0,
                extradata@,
            ),
            Err(e) => all_given(tag, width, height, extradata@) && config_error(
                tagged(tag)->0,
                width->0,
                height->0,
                extradata@,
            ) == Some(e),
        },
{
    match fourcc_from_tag(tag) {
        None => Ok(None),
        Some(fourcc) => match (width, height) {
            (Some(w), Some(h)) => {
                if extradata.len() == 0 {
                    return Ok(None);
                }
                match configure(fourcc, w, h, extradata) {
                    Ok(c) => Ok(Some(c)),
                    Err(e) => Err(e),
                }
            },
            _ => Ok(None),
        },
    }
}

/// The pixel formats that name a code by themselves, and all others.
#[derive(Debug, Clone, Copy, PartialEq, Eq, Structural)]
pub enum PixelLayout {
    /// Planar YUV 4:2:0.
    Yuv420,
    /// Planar YUV 4:2:2.
    Yuv422,
    /// Planar YUV 4:4:4.
    Yuv444,
    /// Any other format.
    Other,
}

/// The code that a pixel format names.
pub open spec fn layout_fourcc(layout: PixelLayout) -> Option<Fourcc> {
    match layout {
        PixelLayout::Yuv420 => Some(Fourcc::Uly0),
        PixelLayout::Yuv422 => Some(Fourcc::Uly2),
        PixelLayout::Yuv444 => Some(Fourcc::Uly4),
        PixelLayout::Other => None,
    }
}

/// The code that a pixel format names.
pub fn fourcc_from_pixel_layout(layout: PixelLayout) -> (r: Option<Fourcc>)
    ensures
        r == layout_fourcc(layout),
{
    match layout {
        PixelLayout::Yuv420 => Some(Fourcc::Uly0),
        PixelLayout::Yuv422 => Some(Fourcc::Uly2),
        PixelLayout::Yuv444 => Some(Fourcc::Uly4),
        PixelLayout::Other => None,
    }
}

/// Why there is no configuration to encode with.
#[derive(Debug, Clone, PartialEq, Eq)]
pub enum ConfigError {
    /// The pixel format names no code and there is no tag.
    UnmappedFormat,
    /// There is neither a tag nor a pixel format.
    NoFormat,
    /// Width or height is missing.
    NoDimensions,
    /// The parts do not fit together.
    Codec(Error),
}

impl ConfigError {
    /// The text of each error; `format` is the name of the pixel format.
    pub open spec fn message_text(self, format: Seq<char>) -> Seq<char> {
        match self {
            ConfigError::UnmappedFormat =>
                "oxideav-utvideo: encoder cannot derive FourCC from pixel format "@ + format
                    + " — set CodecParameters::tag to a Ut Video FourCC (ULRG/ULRA/ULY0/ULY2/ULY4)"@,
            ConfigError::NoFormat =>
                "oxideav-utvideo: encoder needs CodecParameters::tag or pixel_format"@,
            ConfigError::NoDimensions =>
                "oxideav-utvideo: encoder needs CodecParameters::width / height"@,
            ConfigError::Codec(e) => "oxideav-utvideo: "@ + e.message_text(),
        }
    }

    /// The text of this error; `format` is the name of the pixel format.
    pub fn message(&self, format: &str) -> (m: String)
        ensures
            m@ == self.message_text(format@),
    {
        let mut m: String = String::new();
        match self {
            ConfigError::UnmappedFormat => {
                m.append("oxideav-utvideo: encoder cannot derive FourCC from pixel format ");
                m.append(format);
                m.append(
                    " — set CodecParameters::tag to a Ut Video FourCC (ULRG/ULRA/ULY0/ULY2/ULY4)",
                );
            },
            ConfigError::NoFormat => {
                m.append("oxideav-utvideo: encoder needs CodecParameters::tag or pixel_format");
            },
            ConfigError::NoDimensions => {
                m.append("oxideav-utvideo: encoder needs CodecParameters::width / height");
            },
            ConfigError::Codec(e) => {
                m.append("oxideav-utvideo: ");
                m.append(e.message().as_str());
            },
        }
        assert(m@ =~= self.message_text(format@));
        m
    }
}

/// The code of a stream to encode: that of its tag, or else that of its pixel
/// format.
pub open spec fn encoder_fourcc(tag: Option<[u8; 4]>, layout: Option<PixelLayout>) -> Result<
    Fourcc,
    ConfigError,
> {
    match tagged(tag) {
        Some(f) => Ok(f),
        None => match layout {
            None => Err(ConfigError::NoFormat),
            Some(l) => match layout_fourcc(l) {
                Some(f) => Ok(f),
                None => Err(ConfigError::UnmappedFormat),
            },
        },
    }
}

/// The configuration of a stream to encode. Without extradata it gets the
/// block that FFmpeg writes for one slice.
pub fn build_encoder_config(
    tag: Option<[u8; 4]>,
    layout: Option<PixelLayout>,
    width: Option<u32>,
    height: Option<u32>,
    extradata: &[u8],
) -> (r: Result<StreamConfig, ConfigError>)
    ensures
        match encoder_fourcc(tag, layout) {
            Err(e) => r == Err::<StreamConfig, ConfigError>(e),
            Ok(f) => match (width, height) {
                (Some(w), Some(h)) => if extradata@.len() > 0 {
                    match r {
                        Ok(c) => configured(c, f, w, h, extradata@),
                        Err(e) => config_error(f, w, h, extradata@) is Some && e
                            == ConfigError::Codec(config_error(f, w, h, extradata@)->0),
                    }
                } else {
                    match r {
                        Ok(c) => f.dims_error(w, h) is None && c.fourcc == f && c.width == w
                            && c.height == h && c.extradata.of_ffmpeg(f, 1),
                        Err(e) => f.dims_error(w, h) is Some && e == ConfigError::Codec(
                            f.dims_error(w, h)->0,
                        ),
                    }
                },
                _ => r == Err::<StreamConfig, ConfigError>(ConfigError::NoDimensions),
            },
        },
{
    let fourcc: Fourcc = match fourcc_from_tag(tag) {
        Some(f) => f,
        None => match layout {
            None => {
                return Err(ConfigError::NoFormat);
            },
            Some(l) => match fourcc_from_pixel_layout(l) {
                Some(f) => f,
                None => {
                    return Err(ConfigError::UnmappedFormat);
                },
            },
        },
    };
    match (width, height) {
        (Some(w), Some(h)) => {
            let made: Result<StreamConfig, Error> = if extradata.len() == 0 {
                match Extradata::ffmpeg_for(fourcc, 1) {
                    Ok(x) => StreamConfig::new(fourcc, w, h, x),
                    Err(e) => Err(e),
                }
            } else {
                configure(fourcc, w, h, extradata)
            };
            match made {
                Ok(c) => Ok(c),
                Err(e) => Err(ConfigError::Codec(e)),
            }
        },
        _ => Err(ConfigError::NoDimensions),
    }
}

/// A plane whose rows may be padded.
#[derive(Debug, Clone)]
pub struct StridedPlane {
    /// The number of bytes per row.
    pub stride: usize,
    /// The rows.
    pub data: Vec<u8>,
}

/// Why a frame cannot be encoded.
#[derive(Debug, Clone, PartialEq, Eq)]
pub enum FrameError {
    /// The frame has the wrong number of planes.
    PlaneCount { expected: usize, got: usize },
    /// A plane without padding is too short.
    TooShort { plane: usize, got: usize, expected: usize },
    /// A plane with padding is too short.
    PaddedTooShort { plane: usize, got: usize, expected: u128 },
    /// The rows of a plane are shorter than the plane is wide.
    StrideTooSmall { plane: usize, stride: usize, width: usize },
    /// An encoded frame has not been fetched yet.
    Busy,
    /// The encoder refused the frame.
    Codec(Error),
}

impl FrameError {
    /// The text of each error of a frame for a stream.
    pub open spec fn message_text(self, cfg: StreamConfig) -> Seq<char> {
        match self {
            FrameError::PlaneCount { expected, got } => "oxideav-utvideo: encoder expected "@
                + text::decimal(expected as nat) + " planes for FourCC "@ + cfg.fourcc.label()
                + ", got "@ + text::decimal(got as nat),
            FrameError::TooShort { plane, got, expected } => {
                let (w, h) = cfg.fourcc.dims(plane as int, cfg.width, cfg.height);
                "oxideav-utvideo: plane "@ + text::decimal(plane as nat) + " has "@ + text::decimal(
                    got as nat,
                ) + " bytes, expected "@ + text::decimal(expected as nat) + " ("@ + text::decimal(
                    w as nat,
                ) + "x"@ + text::decimal(h as nat) + ")"@
            },
            FrameError::PaddedTooShort { plane, got, expected } => "oxideav-utvideo: plane "@
                + text::decimal(plane as nat) + " has "@ + text::decimal(got as nat)
                + " bytes, expected at least stride*height = "@ + text::decimal(expected as nat),
            FrameError::StrideTooSmall { plane, stride, width } => "oxideav-utvideo: plane "@
                + text::decimal(plane as nat) + " stride "@ + text::decimal(stride as nat)
                + " is below plane width "@ + text::decimal(width as nat),
            FrameError::Busy =>
                "oxideav-utvideo: receive_packet must be called before sending another frame"@,
            FrameError::Codec(e) => "oxideav-utvideo: "@ + e.message_text(),
        }
    }

    /// The text of this error of a frame for a stream.
    pub fn message(&self, cfg: &StreamConfig) -> (m: String)
        ensures
            m@ == self.message_text(*cfg),
    {
        let mut m: String = String::new();
        match self {
            FrameError::PlaneCount { expected, got } => {
                m.append("oxideav-utvideo: encoder expected ");
                text::push_decimal(&mut m, *expected as u128);
                m.append(" planes for FourCC ");
                m.append(cfg.fourcc.name());
                m.append(", got ");
                text::push_decimal(&mut m, *got as u128);
            },
            FrameError::TooShort { plane, got, expected } => {
                let (w, h) = cfg.fourcc.plane_dim(*plane, cfg.width, cfg.height);
                m.append("oxideav-utvideo: plane ");
                text::push_decimal(&mut m, *plane as u128);
                m.append(" has ");
                text::push_decimal(&mut m, *got as u128);
                m.append(" bytes, expected ");
                text::push_decimal(&mut m, *expected as u128);
                m.append(" (");
                text::push_decimal(&mut m, w as u128);
                m.append("x");
                text::push_decimal(&mut m, h as u128);
                m.append(")");
            },
            FrameError::PaddedTooShort { plane, got, expected } => {
                m.append("oxideav-utvideo: plane ");
                text::push_decimal(&mut m, *plane as u128);
                m.append(" has ");
                text::push_decimal(&mut m, *got as u128);
                m.append(" bytes, expected at least stride*height = ");
                text::push_decimal(&mut m, *expected);
            },
            FrameError::StrideTooSmall { plane, stride, width } => {
                m.append("oxideav-utvideo: plane ");
                text::push_decimal(&mut m, *plane as u128);
                m.append(" stride ");
                text::push_decimal(&mut m, *stride as u128);
                m.append(" is below plane width ");
                text::push_decimal(&mut m, *width as u128);
            },
            FrameError::Busy => {
                m.append(
                    "oxideav-utvideo: receive_packet must be called before sending another frame",
                );
            },
            FrameError::Codec(e) => {
                m.append("oxideav-utvideo: ");
                m.append(e.message().as_str());
            },
        }
        assert(m@ =~= self.message_text(*cfg));
        m
    }
}

/// What is wrong with a plane to be packed, if anything.
pub open spec fn repack_error(plane: StridedPlane, idx: usize, w: int, h: int) -> Option<
    FrameError,
> {
    if plane.stride == w {
        if plane.data@.len() < w * h {
            Some(
                FrameError::TooShort {
                    plane: idx,
                    got: plane.data@.len() as usize,
                    expected: (w * h) as usize,
                },
            )
        } else {
            None
        }
    } else if plane.stride > w {
        if plane.data@.len() < plane.stride * h {
            Some(
                FrameError::PaddedTooShort {
                    plane: idx,
                    got: plane.data@.len() as usize,
                    expected: (plane.stride * h) as u128,
                },
            )
        } else {
            None
        }
    } else {
        Some(
            FrameError::StrideTooSmall { plane: idx, stride: plane.stride, width: w as usize },
        )
    }
}

/// The first `rows` rows of a plane without their padding.
pub open spec fn tight(plane: StridedPlane, w: int, rows: nat) -> Seq<u8>
    decreases rows,
{
    if rows == 0 {
        Seq::empty()
    } else {
        tight(plane, w, (rows - 1) as nat) + plane.data@.subrange(
            (rows - 1) * plane.stride,
            (rows - 1) * plane.stride + w,
        )
    }
}

/// The rows of a plane without padding stand one after the other.
proof fn lemma_tight(plane: StridedPlane, w: int, rows: nat)
    requires
        0 <= w,
        plane.stride == w,
        rows * w <= plane.data@.len(),
    ensures
        tight(plane, w, rows) == plane.data@.take(rows * w),
    decreases rows,
{
    if rows == 0 {
        lemma_mul_basics_1(w);
        assert(plane.data@.take(0) =~= Seq::<u8>::empty());
    } else {
        let a = rows - 1;
        assert((a + 1) * w == a * w + w) by (nonlinear_arith);
        lemma_mul_nonnegative(a, w);
        lemma_tight(plane, w, a as nat);
        assert(plane.data@.take(rows * w) =~= plane.data@.take(a * w) + plane.data@.subrange(
            a * w,
            a * w + w,
        ));
    }
}

/// Takes the padding out of a plane.
pub fn repack_plane(plane: &StridedPlane, idx: usize, width: usize, height: usize) -> (r: Result<
    Vec<u8>,
    FrameError,
>)
    requires
        width * height <= usize::MAX,
        height <= u32::MAX,
    ensures
        match r {
            Ok(v) => repack_error(*plane, idx, width as int, height as int) is None && v@ == tight(
                *plane,
                width as int,
                height as nat,
            ) && v@.len() == width * height,
            Err(e) => repack_error(*plane, idx, width as int, height as int) == Some(e),
        },
{
    let got: usize = plane.data.len();
    if plane.stride == width {
        let expected: usize = width * height;
        if got < expected {
            return Err(FrameError::TooShort { plane: idx, got, expected });
        }
        proof {
            lemma_mul_is_commutative(width as int, height as int);
            lemma_tight(*plane, width as int, height as nat);
        }
        return Ok(bytes::copy_bytes(vstd::slice::slice_subrange(plane.data.as_slice(), 0, expected)));
    }
    if plane.stride < width {
        return Err(FrameError::StrideTooSmall { plane: idx, stride: plane.stride, width });
    }
    proof {
        let a = plane.stride as int;
        let b = height as int;
        assert(0 <= a * b <= 0xffff_ffff_ffff_ffff * 0xffff_ffff) by (nonlinear_arith)
            requires
                0 <= a <= 0xffff_ffff_ffff_ffff,
                0 <= b <= 0xffff_ffff,
        ;
    }
    let expected: u128 = plane.stride as u128 * height as u128;
    if (got as u128) < expected {
        return Err(FrameError::PaddedTooShort { plane: idx, got, expected });
    }
    let mut out: Vec<u8> = Vec::new();
    let mut r: usize = 0;
    let mut start: usize = 0;
    proof {
        lemma_mul_basics_1(plane.stride as int);
        lemma_mul_basics_1(width as int);
        assert(out@ =~= tight(*plane, width as int, 0));
    }
    while r < height
        invariant
            r <= height,
            width < plane.stride,
            got == plane.data@.len(),
            plane.stride * height <= got,
            start == r * plane.stride,
            start <= got,
            out@ == tight(*plane, width as int, r as nat),
            out@.len() == r * width,
        decreases height - r,
    {
        proof {
            let s = plane.stride as int;
            let w = width as int;
            let k = r as int;
            assert((k + 1) * s == k * s + s) by (nonlinear_arith);
            assert((k + 1) * w == k * w + w) by (nonlinear_arith);
            lemma_mul_inequality(k + 1, height as int, s);
            lemma_mul_is_commutative(height as int, s);
        }
        bytes::push_bytes(
            &mut out,
            vstd::slice::slice_subrange(plane.data.as_slice(), start, start + width),
        );
        start = start + plane.stride;
        r = r + 1;
    }
    proof {
        lemma_mul_is_commutative(width as int, height as int);
    }
    Ok(out)
}

/// What is wrong with the first `k` planes, if anything.
pub open spec fn repack_planes_error(cfg: StreamConfig, planes: Seq<StridedPlane>, k: nat) -> Option<
    FrameError,
>
    decreases k,
{
    if k == 0 {
        None
    } else {
        let p = k - 1;
        let (w, h) = cfg.fourcc.dims(p, cfg.width, cfg.height);
        match repack_planes_error(cfg, planes, (k - 1) as nat) {
            Some(e) => Some(e),
            None => repack_error(planes[p], p as usize, w as int, h as int),
        }
    }
}

/// What is wrong with the planes of a frame, if anything.
pub open spec fn planes_error(cfg: StreamConfig, planes: Seq<StridedPlane>) -> Option<FrameError> {
    if planes.len() != cfg.fourcc.planes() {
        Some(
            FrameError::PlaneCount {
                expected: cfg.fourcc.planes() as usize,
                got: planes.len() as usize,
            },
        )
    } else {
        repack_planes_error(cfg, planes, planes.len())
    }
}

/// The samples of the planes of a frame without padding.
pub open spec fn tight_planes(cfg: StreamConfig, planes: Seq<StridedPlane>) -> Seq<Seq<u8>> {
    Seq::new(
        planes.len(),
        |p: int|
            tight(
                planes[p],
                cfg.fourcc.dims(p, cfg.width, cfg.height).0 as int,
                cfg.fourcc.dims(p, cfg.width, cfg.height).1 as nat,
            ),
    )
}

/// The pixel arithmetic of a frame does not overflow.
pub open spec fn measurable(cfg: StreamConfig) -> bool {
    cfg.width * cfg.height <= usize::MAX
}

/// The pixel and row arithmetic of a frame does not overflow.
pub open spec fn countable(cfg: StreamConfig) -> bool {
    &&& measurable(cfg)
    &&& cfg.height * cfg.extradata.slices() <= usize::MAX
}

/// True if the pixel arithmetic of a frame does not overflow.
pub fn is_measurable(cfg: &StreamConfig) -> (b: bool)
    ensures
        b == measurable(*cfg),
{
    proof {
        let w = cfg.width as int;
        let h = cfg.height as int;
        assert(0 <= w * h <= 0xffff_ffff * 0xffff_ffff) by (nonlinear_arith)
            requires
                0 <= w <= 0xffff_ffff,
                0 <= h <= 0xffff_ffff,
        ;
    }
    cfg.width as u64 * cfg.height as u64 <= usize::MAX as u64
}

proof fn lemma_repack_error_grows(cfg: StreamConfig, planes: Seq<StridedPlane>, j: nat, k: nat)
    requires
        j <= k,
        repack_planes_error(cfg, planes, j) is Some,
    ensures
        repack_planes_error(cfg, planes, k) == repack_planes_error(cfg, planes, j),
    decreases k,
{
    if j < k {
        lemma_repack_error_grows(cfg, planes, j, (k - 1) as nat);
    }
}

/// Takes the padding out of the planes of a frame.
pub fn repack_planes(cfg: &StreamConfig, planes: &[StridedPlane]) -> (r: Result<
    Vec<PlaneInput>,
    FrameError,
>)
    requires
        planes@.len() == cfg.fourcc.planes() ==> measurable(*cfg),
    ensures
        match r {
            Ok(v) => planes_error(*cfg, planes@) is None && encoder::input_samples(v@)
                == tight_planes(*cfg, planes@) && v@.len() == planes@.len() && (forall|p: int|
                0 <= p < v@.len() ==> (#[trigger] v@[p]).samples@.len() == cfg.fourcc.dims(
                    p,
                    cfg.width,
                    cfg.height,
                ).0 * cfg.fourcc.dims(p, cfg.width, cfg.height).1),
            Err(e) => planes_error(*cfg, planes@) == Some(e),
        },
{
    let expected: usize = cfg.fourcc.plane_count();
    if planes.len() != expected {
        return Err(FrameError::PlaneCount { expected, got: planes.len() });
    }
    let ghost all = tight_planes(*cfg, planes@);
    let mut out: Vec<PlaneInput> = Vec::new();
    let mut p: usize = 0;
    while p < expected
        invariant
            p <= expected,
            expected == cfg.fourcc.planes(),
            planes@.len() == expected,
            measurable(*cfg),
            all == tight_planes(*cfg, planes@),
            repack_planes_error(*cfg, planes@, p as nat) is None,
            out@.len() == p,
            encoder::input_samples(out@) == all.take(p as int),
            forall|i: int|
                0 <= i < p ==> (#[trigger] out@[i]).samples@.len() == cfg.fourcc.dims(
                    i,
                    cfg.width,
                    cfg.height,
                ).0 * cfg.fourcc.dims(i, cfg.width, cfg.height).1,
        decreases expected - p,
    {
        let (pw, ph) = cfg.fourcc.plane_dim(p, cfg.width, cfg.height);
        proof {
            lemma_mul_upper_bound(pw as int, cfg.width as int, ph as int, cfg.height as int);
        }
        match repack_plane(&planes[p], p, pw as usize, ph as usize) {
            Err(e) => {
                proof {
                    lemma_repack_error_grows(*cfg, planes@, (p + 1) as nat, expected as nat);
                }
                return Err(e);
            },
            Ok(samples) => {
                let ghost was = out@;
                out.push(PlaneInput { samples });
                proof {
                    assert(encoder::input_samples(out@) =~= encoder::input_samples(was).push(
                        samples@,
                    ));
                    assert(all.take(p + 1) =~= all.take(p as int).push(all[p as int]));
                }
            },
        }
        p = p + 1;
    }
    proof {
        assert(all.take(expected as int) =~= all);
    }
    Ok(out)
}

/// Why a session has nothing to hand out.
#[derive(Debug, Clone, PartialEq, Eq)]
pub enum SessionError {
    /// The last packet has not been decoded yet.
    Busy,
    /// Something has to be sent first.
    NeedMore,
    /// Everything has been handed out and no more will come.
    Eof,
    /// The stream has no configuration.
    NotConfigured,
    /// The codec refused the packet.
    Codec(Error),
}

impl SessionError {
    /// The text of each error; that something is missing or over needs none.
    pub open spec fn message_text(self) -> Option<Seq<char>> {
        match self {
            SessionError::Busy => Some(
                "oxideav-utvideo: receive_frame must be called before sending another packet"@,
            ),
            SessionError::NeedMore => None,
            SessionError::Eof => None,
            SessionError::NotConfigured => Some(
                "oxideav-utvideo: stream config not configured"@,
            ),
            SessionError::Codec(e) => Some("oxideav-utvideo: "@ + e.message_text()),
        }
    }

    /// The text of this error, if it has one.
    pub fn message(&self) -> (r: Option<String>)
        ensures
            match r {
                Some(m) => self.message_text() == Some(m@),
                None => self.message_text() is None,
            },
    {
        let mut m: String = String::new();
        match self {
            SessionError::Busy => {
                m.append(
                    "oxideav-utvideo: receive_frame must be called before sending another packet",
                );
            },
            SessionError::NeedMore => {
                return None;
            },
            SessionError::Eof => {
                return None;
            },
            SessionError::NotConfigured => {
                m.append("oxideav-utvideo: stream config not configured");
            },
            SessionError::Codec(e) => {
                m.append("oxideav-utvideo: ");
                m.append(e.message().as_str());
            },
        }
        assert(m@ =~= self.message_text()->0);
        Some(m)
    }
}

/// A decoding session: packets go in and frames come out, one at a time.
pub struct DecoderSession {
    cfg: Option<StreamConfig>,
    pending: Option<Vec<u8>>,
    eof: bool,
}

impl DecoderSession {
    /// The configuration of the stream.
    pub closed spec fn config(&self) -> Option<StreamConfig> {
        self.cfg
    }

    /// The packet that waits to be decoded.
    pub closed spec fn waiting(&self) -> Option<Seq<u8>> {
        match self.pending {
            Some(v) => Some(v@),
            None => None,
        }
    }

    /// No more packets will come.
    pub closed spec fn ended(&self) -> bool {
        self.eof
    }

    /// A session without packets.
    pub fn new(cfg: Option<StreamConfig>) -> (s: Self)
        ensures
            s.config() == cfg,
            s.waiting() is None,
            !s.ended(),
    {
        Self { cfg, pending: None, eof: false }
    }

    /// Sets the configuration of the stream.
    pub fn configure(&mut self, fourcc: Fourcc, width: u32, height: u32, extradata: &[u8]) -> (r:
        Result<(), Error>)
        ensures
            final(self).waiting() == old(self).waiting(),
            final(self).ended() == old(self).ended(),
            match r {
                Ok(_) => final(self).config() matches Some(c) && configured(
                    c,
                    fourcc,
                    width,
                    height,
                    extradata@,
                ),
                Err(e) => config_error(fourcc, width, height, extradata@) == Some(e)
                    && final(self).config() == old(self).config(),
            },
    {
        match configure(fourcc, width, height, extradata) {
            Err(e) => Err(e),
            Ok(c) => {
                self.cfg = Some(c);
                Ok(())
            },
        }
    }

    /// Takes in a packet, unless another one waits.
    pub fn send_packet(&mut self, data: &[u8]) -> (r: Result<(), SessionError>)
        ensures
            final(self).config() == old(self).config(),
            final(self).ended() == old(self).ended(),
            r == (if old(self).waiting() is Some {
                Err::<(), SessionError>(SessionError::Busy)
            } else {
                Ok(())
            }),
            final(self).waiting() == (if old(self).waiting() is Some {
                old(self).waiting()
            } else {
                Some(data@)
            }),
    {
        if self.pending.is_some() {
            return Err(SessionError::Busy);
        }
        self.pending = Some(bytes::copy_bytes(data));
        Ok(())
    }

    /// Takes out the waiting packet and the configuration to decode it with.
    /// A packet is taken out even if there is no configuration.
    pub fn take_packet(&mut self) -> (r: Result<(StreamConfig, Vec<u8>), SessionError>)
        ensures
            final(self).config() == old(self).config(),
            final(self).ended() == old(self).ended(),
            final(self).waiting() is None,
            match old(self).waiting() {
                None => r == Err::<(StreamConfig, Vec<u8>), SessionError>(
                    if old(self).ended() {
                        SessionError::Eof
                    } else {
                        SessionError::NeedMore
                    },
                ),
                Some(data) => match old(self).config() {
                    None => r == Err::<(StreamConfig, Vec<u8>), SessionError>(
                        SessionError::NotConfigured,
                    ),
                    Some(c) => r matches Ok(p) && p.0 == c && p.1@ == data,
                },
            },
    {
        match self.pending.take() {
            None => if self.eof {
                Err(SessionError::Eof)
            } else {
                Err(SessionError::NeedMore)
            },
            Some(data) => match self.cfg {
                None => Err(SessionError::NotConfigured),
                Some(c) => Ok((c, data)),
            },
        }
    }

    /// Decodes the waiting packet.
    pub fn receive_frame(&mut self) -> (r: Result<DecodedFrame, SessionError>)
        requires
            old(self).waiting() is Some && old(self).config() is Some ==> decoder::decodable(
                old(self).config()->0,
                old(self).waiting()->0,
            ),
        ensures
            final(self).config() == old(self).config(),
            final(self).ended() == old(self).ended(),
            final(self).waiting() is None,
            match old(self).waiting() {
                None => r == Err::<DecodedFrame, SessionError>(
                    if old(self).ended() {
                        SessionError::Eof
                    } else {
                        SessionError::NeedMore
                    },
                ),
                Some(data) => match old(self).config() {
                    None => r == Err::<DecodedFrame, SessionError>(SessionError::NotConfigured),
                    Some(c) => match r {
                        Ok(f) => decoder::decodes(Ok(f), c, data, false),
                        Err(SessionError::Codec(e)) => decoder::decodes(Err(e), c, data, false),
                        Err(_) => false,
                    },
                },
            },
    {
        match self.take_packet() {
            Err(e) => Err(e),
            Ok((c, data)) => match decoder::decode_frame(&c, data.as_slice()) {
                Ok(f) => Ok(f),
                Err(e) => Err(SessionError::Codec(e)),
            },
        }
    }

    /// Says that no more packets will come.
    pub fn flush(&mut self)
        ensures
            final(self).config() == old(self).config(),
            final(self).waiting() == old(self).waiting(),
            final(self).ended(),
    {
        self.eof = true;
    }
}

/// True if a payload of `len` bytes can be decoded with a configuration
/// without running out of the machine's numbers.
pub fn is_addressable(cfg: &StreamConfig, len: usize) -> (b: bool)
    ensures
        b == (decoder::addressable(*cfg) && 8 * len <= usize::MAX),
{
    proof {
        let w = cfg.width as int;
        let h = cfg.height as int;
        let n = cfg.extradata.slices() as int;
        assert(0 <= w * h <= 0xffff_ffff * 0xffff_ffff) by (nonlinear_arith)
            requires
                0 <= w <= 0xffff_ffff,
                0 <= h <= 0xffff_ffff,
        ;
        assert(0 <= h * n <= 0xffff_ffff * 256) by (nonlinear_arith)
            requires
                0 <= h <= 0xffff_ffff,
                0 <= n <= 256,
        ;
    }
    let pixels: u64 = cfg.width as u64 * cfg.height as u64;
    let rows: u64 = cfg.height as u64 * cfg.num_slices() as u64;
    pixels <= isize::MAX as u64 && rows <= usize::MAX as u64 && len <= usize::MAX / 8
}

/// A frame to encode is made of the planes of a padded frame.
pub open spec fn packs(f: EncodedFrame, cfg: StreamConfig, planes: Seq<StridedPlane>) -> bool {
    &&& f.fourcc == cfg.fourcc
    &&& f.width == cfg.width
    &&& f.height == cfg.height
    &&& f.num_slices == cfg.extradata.slices()
    &&& encoder::input_samples(f.planes@) == tight_planes(cfg, planes)
    &&& f.input_error() is None
}

/// An encoding session: frames go in and packets come out, one at a time.
pub struct EncoderSession {
    cfg: StreamConfig,
    pending: Option<Vec<u8>>,
    eof: bool,
}

impl EncoderSession {
    /// The configuration of the stream.
    pub closed spec fn config(&self) -> StreamConfig {
        self.cfg
    }

    /// The packet that waits to be fetched.
    pub closed spec fn waiting(&self) -> Option<Seq<u8>> {
        match self.pending {
            Some(v) => Some(v@),
            None => None,
        }
    }

    /// No more frames will come.
    pub closed spec fn ended(&self) -> bool {
        self.eof
    }

    /// A session without frames.
    pub fn new(cfg: StreamConfig) -> (s: Self)
        ensures
            s.config() == cfg,
            s.waiting() is None,
            !s.ended(),
    {
        Self { cfg, pending: None, eof: false }
    }

    /// True if a packet waits to be fetched.
    pub fn has_packet(&self) -> (b: bool)
        ensures
            b == (self.waiting() is Some),
    {
        self.pending.is_some()
    }

    /// Makes a frame to encode of padded planes. The predictor is chosen by
    /// the first plane.
    pub fn prepare_frame<F: Fn(&[u8], &[u8]) -> bool>(
        &self,
        planes: &[StridedPlane],
        beats: F,
    ) -> (r: Result<EncodedFrame, FrameError>)
        requires
            self.config().valid(),
            self.waiting() is None && planes@.len() == self.config().fourcc.planes() ==> measurable(
                self.config(),
            ),
            forall|a: &[u8], b: &[u8]| call_requires(beats, (a, b)),
        ensures
            match r {
                Ok(f) => self.waiting() is None && planes_error(self.config(), planes@) is None
                    && packs(f, self.config(), planes@) && predict::chosen(
                    beats,
                    tight_planes(self.config(), planes@)[0],
                    self.config().width as int,
                    self.config().height as int,
                    f.predictor,
                ),
                Err(e) => e == (if self.waiting() is Some {
                    FrameError::Busy
                } else {
                    planes_error(self.config(), planes@)->0
                }) && (self.waiting() is Some || planes_error(self.config(), planes@) is Some),
            },
    {
        if self.pending.is_some() {
            return Err(FrameError::Busy);
        }
        let inputs: Vec<PlaneInput> = match repack_planes(&self.cfg, planes) {
            Err(e) => {
                return Err(e);
            },
            Ok(v) => v,
        };
        let ghost cfg = self.cfg;
        proof {
            assert(encoder::input_samples(inputs@)[0] == inputs@[0].samples@);
            assert(cfg.fourcc.dims(0, cfg.width, cfg.height) == (cfg.width, cfg.height));
            assert(inputs@[0].samples@.len() == cfg.width * cfg.height);
        }
        let predictor: Predictor = predict::choose_predictor(
            inputs[0].samples.as_slice(),
            self.cfg.width as usize,
            self.cfg.height as usize,
            beats,
        );
        let frame = EncodedFrame {
            fourcc: self.cfg.fourcc,
            width: self.cfg.width,
            height: self.cfg.height,
            predictor,
            num_slices: self.cfg.num_slices(),
            planes: inputs,
        };
        proof {
            lemma_no_size_error(frame, frame.fourcc.planes());
        }
        Ok(frame)
    }

    /// Keeps the packet of an encoded frame until it is fetched.
    pub fn store_packet(&mut self, packet: Vec<u8>)
        ensures
            final(self).config() == old(self).config(),
            final(self).ended() == old(self).ended(),
            final(self).waiting() == Some(packet@),
    {
        self.pending = Some(packet);
    }

    /// Encodes a frame of padded planes, unless a packet waits.
    pub fn send_frame<F: Fn(&[u8], &[u8]) -> bool>(
        &mut self,
        planes: &[StridedPlane],
        beats: F,
    ) -> (r: Result<(), FrameError>)
        requires
            old(self).config().valid(),
            old(self).waiting() is None && planes@.len() == old(
                self,
            ).config().fourcc.planes() ==> measurable(old(self).config()),
            old(self).waiting() is None && planes_error(old(self).config(), planes@) is None
                ==> countable(old(self).config()),
            forall|a: &[u8], b: &[u8]| call_requires(beats, (a, b)),
        ensures
            final(self).config() == old(self).config(),
            final(self).ended() == old(self).ended(),
            match r {
                Ok(_) => old(self).waiting() is None && planes_error(
                    old(self).config(),
                    planes@,
                ) is None && exists|f: EncodedFrame| #[trigger]
                    packs(f, old(self).config(), planes@) && predict::chosen(
                        beats,
                        tight_planes(old(self).config(), planes@)[0],
                        old(self).config().width as int,
                        old(self).config().height as int,
                        f.predictor,
                    ) && final(self).waiting() == Some(encoder::encoded_payload(f)),
                Err(e) => final(self).waiting() == old(self).waiting() && e == (if old(
                    self,
                ).waiting() is Some {
                    FrameError::Busy
                } else {
                    planes_error(old(self).config(), planes@)->0
                }) && (old(self).waiting() is Some || planes_error(
                    old(self).config(),
                    planes@,
                ) is Some),
            },
    {
        let frame: EncodedFrame = match self.prepare_frame(planes, beats) {
            Err(e) => {
                return Err(e);
            },
            Ok(f) => f,
        };
        assert(packs(frame, self.cfg, planes@));
        match encoder::encode_frame(&frame) {
            Ok(packet) => {
                self.store_packet(packet);
                Ok(())
            },
            Err(e) => {
                Err(FrameError::Codec(e))
            },
        }
    }

    /// Hands out the waiting packet.
    pub fn receive_packet(&mut self) -> (r: Result<Vec<u8>, SessionError>)
        ensures
            final(self).config() == old(self).config(),
            final(self).ended() == old(self).ended(),
            final(self).waiting() is None,
            match old(self).waiting() {
                None => r == Err::<Vec<u8>, SessionError>(
                    if old(self).ended() {
                        SessionError::Eof
                    } else {
                        SessionError::NeedMore
                    },
                ),
                Some(data) => r matches Ok(p) && p@ == data,
            },
    {
        match self.pending.take() {
            Some(packet) => Ok(packet),
            None => if self.eof {
                Err(SessionError::Eof)
            } else {
                Err(SessionError::NeedMore)
            },
        }
    }

    /// Says that no more frames will come.
    pub fn flush(&mut self)
        ensures
            final(self).config() == old(self).config(),
            final(self).waiting() == old(self).waiting(),
            final(self).ended(),
    {
        self.eof = true;
    }
}

/// Planes of the right sizes give no error.
proof fn lemma_no_size_error(frame: EncodedFrame, k: nat)
    requires
        forall|p: int|
            0 <= p < k ==> (#[trigger] frame.planes@[p]).samples@.len() == frame.plane_size(p),
    ensures
        frame.size_error(k) is None,
    decreases k,
{
    if k > 0 {
        lemma_no_size_error(frame, (k - 1) as nat);
        assert(frame.planes@[k - 1].samples@.len() == frame.plane_size(k - 1));
    }
}

} // verus!
