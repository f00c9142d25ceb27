//! What the functions of the library answer, stated of their arguments and
//! results alone.

use crate::bitstream::{BitReader, BitWriter};
use crate::bytes;
use crate::canonical;
use crate::canonical::Shape;
use crate::config_laws;
use crate::decoder;
use crate::decoder::{DecodedFrame, PlaneLabel};
use crate::encoder;
use crate::encoder::EncodedFrame;
use crate::error::Error;
use crate::extradata::ExtraDataError;
use crate::fourcc::{Extradata, Fourcc, Predictor, StreamConfig};
use crate::huffman::HuffmanTable;
use crate::inspect;
use crate::inspect::{FrameLayout, PlaneLayout, SliceLayout};
use crate::length_laws;
use crate::lengths;
use crate::payload;
use crate::payload::PlaneSpan;
use crate::predict;
use crate::predictor;
use crate::registry;
use crate::registry::{ConfigError, PixelLayout, StridedPlane};
use crate::sample_laws;
use crate::survey_laws;
use crate::wire_laws;
use crate::workers;
use vstd::arithmetic::mul::*;
use vstd::arithmetic::power2::*;
use vstd::prelude::*;

verus! {

/// Residuals of the rows `a` to `b` of a plane by the median, by row and column
/// of the plane: 128 is taken off the first sample, the sample before off the
/// rest of the first row, the sample above off the first sample of the second
/// row, and the median of left, top and left plus top minus top-left off all
/// others. In the first column the sample to the left is the last one of the
/// row above, and the one to the top-left the last one of the row above that.
pub proof fn law_forward_median(
    plane: &[u8],
    w: usize,
    a: usize,
    b: usize,
    out: Vec<u8>,
    r: int,
    c: int,
    left: int,
    top: int,
    corner: int,
    m: int,
)
    requires
        call_ensures(predict::forward_slice, (Predictor::Median, plane, w, a, b), out),
        w >= 1,
        a <= r < b,
        0 <= c < w,
        b * w <= plane@.len(),
        r > a && c >= 1 ==> left == plane@[r * w + c - 1] && top == plane@[(r - 1) * w + c]
            && corner == plane@[(r - 1) * w + c - 1],
        r >= a + 2 && c == 0 ==> left == plane@[(r - 1) * w + w - 1] && top == plane@[(r - 1) * w]
            && corner == plane@[(r - 2) * w + w - 1],
        ({
            let g = left + top - corner;
            (r > a && c >= 1) || (r >= a + 2 && c == 0) ==> {
                &&& (top <= left <= g || g <= left <= top) ==> m == left
                &&& (left <= top <= g || g <= top <= left) ==> m == top
                &&& (left <= g <= top || top <= g <= left) ==> m == g
            }
        }),
    ensures
        ({
            let x = plane@[r * w + c];
            let y = out@[(r - a) * w + c];
            &&& out@.len() == (b - a) * w
            &&& r == a && c == 0 ==> (y + 128) % 256 == x
            &&& r == a && c >= 1 ==> (y + plane@[r * w + c - 1]) % 256 == x
            &&& r == a + 1 && c == 0 ==> (y + plane@[a * w]) % 256 == x
            &&& (r > a && c >= 1) || (r >= a + 2 && c == 0) ==> (y + m) % 256 == x
        }),
{
    let rows = predict::rows_of(plane@, w as int, a as int, b as int);
    let k = r - a;
    let v = w as int;
    sample_laws::law_rows_of_plane(plane@, v, a as int, b as int, r, c);
    sample_laws::lemma_index(v, k, c);
    sample_laws::lemma_index(v, r, c);
    if c >= 1 {
        sample_laws::law_rows_of_plane(plane@, v, a as int, b as int, r, c - 1);
    }
    if r > a {
        sample_laws::law_rows_of_plane(plane@, v, a as int, b as int, r - 1, c);
        sample_laws::law_rows_of_plane(plane@, v, a as int, b as int, r - 1, v - 1);
        if c >= 1 {
            sample_laws::law_rows_of_plane(plane@, v, a as int, b as int, r - 1, c - 1);
        }
    }
    if r >= a + 2 {
        sample_laws::law_rows_of_plane(plane@, v, a as int, b as int, r - 2, v - 1);
    }
    assert(k * v + c < (b - a) * v) by (nonlinear_arith)
        requires
            k < b - a,
            c < v,
            v >= 1,
    ;
    sample_laws::law_median_residual(rows, v, k, c, left, top, corner, m);
}

/// Storing blue and red relative to green: 128 plus the sample minus the green
/// one, modulo 256, in both planes.
pub proof fn law_forward_rgb(g: &[u8], b: &mut [u8], r: &mut [u8], i: int)
    requires
        call_ensures(predict::forward_decorrelate_rgb, (g, b, r), ()),
        0 <= i < g@.len(),
        old(b)@.len() == g@.len(),
        old(r)@.len() == g@.len(),
    ensures
        final(b)@.len() == g@.len(),
        final(r)@.len() == g@.len(),
        final(b)@[i] == (old(b)@[i] - g@[i] + 128) % 256,
        final(r)@[i] == (old(r)@[i] - g@[i] + 128) % 256,
{
}

/// Undoing it: the stored sample plus the green one minus 128, modulo 256, in
/// both planes.
pub proof fn law_inverse_rgb(
    g: &[u8],
    b: &mut [u8],
    r: &mut [u8],
    x: &mut [u8],
    y: &mut [u8],
    i: int,
)
    requires
        call_ensures(predict::inverse_decorrelate_rgb, (g, b, r), ()),
        call_ensures(predictor::restore_g_centred_rgb, (g, x, y), ()),
        0 <= i < g@.len(),
        old(b)@.len() == g@.len(),
        old(r)@.len() == g@.len(),
        old(x)@.len() == g@.len(),
        old(y)@.len() == g@.len(),
    ensures
        final(b)@[i] == (old(b)@[i] + g@[i] - 128) % 256,
        final(r)@[i] == (old(r)@[i] + g@[i] - 128) % 256,
        final(x)@[i] == (old(x)@[i] + g@[i] - 128) % 256,
        final(y)@[i] == (old(y)@[i] + g@[i] - 128) % 256,
{
}

/// The planes of a frame as they are stored: of an RGB frame the second and the
/// third one hold the difference to the first one plus 128, modulo 256.
pub proof fn law_decorrelated_planes(
    f: Fourcc,
    planes: Vec<Vec<u8>>,
    out: Vec<Vec<u8>>,
    p: int,
    i: int,
)
    requires
        call_ensures(encoder::apply_rgb_decorrelate, (f, planes), out),
        planes@.len() == f.planes(),
        0 <= p < planes@.len(),
        0 <= i < planes@[p]@.len(),
    ensures
        ({
            let rgb = f == Fourcc::Ulrg || f == Fourcc::Ulra;
            &&& out@.len() == planes@.len()
            &&& out@[p]@.len() == planes@[p]@.len()
            &&& rgb && (p == 1 || p == 2) ==> out@[p]@[i] == (planes@[p]@[i] - planes@[0]@[i] + 128)
                % 256
            &&& !rgb || (p != 1 && p != 2) ==> out@[p]@[i] == planes@[p]@[i]
        }),
{
    let all = predict::views(planes@);
    sample_laws::law_stored_colors(f, all, i);
    assert(predict::views(out@)[p] == out@[p]@);
    assert(predict::views(planes@)[p] == planes@[p]@);
}

/// The samples of a decoded frame, whichever way it was decoded: the second and
/// the third plane of an RGB frame hold what their slices decode to plus the
/// sample of the first plane minus 128, modulo 256; all other planes hold what
/// their slices decode to.
pub proof fn law_decoded_samples(
    cfg: StreamConfig,
    data: &[u8],
    r: Result<DecodedFrame, Error>,
    p: int,
    i: int,
)
    requires
        call_ensures(decoder::decode_frame, (&cfg, data), r) || call_ensures(
            decoder::decode_frame_serial,
            (&cfg, data),
            r,
        ) || call_ensures(decoder::decode_frame_parallel, (&cfg, data), r),
        r is Ok,
        0 <= p < (r->Ok_0).planes@.len(),
        0 <= i < (r->Ok_0).planes@[p].samples@.len(),
    ensures
        ({
            let f = r->Ok_0;
            let stored = decoder::plane_outcome(cfg, data@, p as nat, false)->Ok_0;
            let rgb = cfg.fourcc == Fourcc::Ulrg || cfg.fourcc == Fourcc::Ulra;
            let (w, h) = cfg.fourcc.dims(p, cfg.width, cfg.height);
            &&& decoder::plane_outcome(cfg, data@, p as nat, false) is Ok
            &&& f.planes@.len() == cfg.fourcc.planes()
            &&& f.planes@[p].samples@.len() == stored.len() == w * h
            &&& rgb && (p == 1 || p == 2) ==> f.planes@[p].samples@[i] == (stored[i]
                + f.planes@[0].samples@[i] - 128) % 256
            &&& !rgb || (p != 1 && p != 2) ==> f.planes@[p].samples@[i] == stored[i]
        }),
{
    let f = r->Ok_0;
    wire_laws::law_decoded_header(f, cfg, data@, false);
    sample_laws::law_decoded_colors(cfg, data@, i, false);
    assert(decoder::samples_of(f.planes@)[p] == f.planes@[p].samples@);
    assert(decoder::samples_of(f.planes@)[0] == f.planes@[0].samples@);
    assert(p == 0 || p == 1 || p == 2 || p == 3);
}

/// Strict decoding gives the frame of plain decoding, or an error.
pub proof fn law_strict_frame(
    cfg: StreamConfig,
    data: &[u8],
    strict: Result<DecodedFrame, Error>,
    plain: Result<DecodedFrame, Error>,
    p: int,
)
    requires
        call_ensures(decoder::decode_frame_strict, (&cfg, data), strict),
        call_ensures(decoder::decode_frame, (&cfg, data), plain),
    ensures
        strict matches Ok(f) ==> {
            &&& plain matches Ok(g)
            &&& f.planes@.len() == g.planes@.len()
            &&& 0 <= p < f.planes@.len() ==> f.planes@[p].samples@ == g.planes@[p].samples@
        },
        plain is Err ==> strict is Err,
{
    if strict is Ok {
        crate::laws::law_strict_is_stricter(cfg, data@);
        let f = strict->Ok_0;
        let g = plain->Ok_0;
        if 0 <= p < f.planes@.len() {
            assert(decoder::samples_of(f.planes@)[p] == f.planes@[p].samples@);
            assert(decoder::samples_of(g.planes@)[p] == g.planes@[p].samples@);
        }
    }
}

/// An encoded frame, whichever way it was encoded, ends with the bytes 0, mode,
/// 0 and 0; a frame is refused for its input only.
pub proof fn law_encoded_frame(frame: EncodedFrame, r: Result<Vec<u8>, Error>)
    requires
        call_ensures(encoder::encode_frame, (&frame,), r) || call_ensures(
            encoder::encode_frame_serial,
            (&frame,),
            r,
        ) || call_ensures(encoder::encode_frame_parallel, (&frame,), r),
    ensures
        r is Ok <==> frame.input_error() is None,
        r matches Err(e) ==> frame.input_error() == Some(e),
        r matches Ok(v) ==> {
            let k = v@.len() - 4;
            &&& v@.len() >= 4
            &&& v@[k] == 0
            &&& v@[k + 2] == 0
            &&& v@[k + 3] == 0
            &&& frame.predictor == Predictor::Identity ==> v@[k + 1] == 0
            &&& frame.predictor == Predictor::Left ==> v@[k + 1] == 1
            &&& frame.predictor == Predictor::Gradient ==> v@[k + 1] == 2
            &&& frame.predictor == Predictor::Median ==> v@[k + 1] == 3
        },
{
    wire_laws::law_encoded_frame_info(frame);
}

/// Width and height of a plane. The two chroma planes of 4:2:2 are half as
/// wide, those of 4:2:0 also half as high; where a subsampled format has no such
/// plane, both are zero; all other planes are as large as the frame.
pub proof fn law_plane_dim(f: Fourcc, p: usize, width: u32, height: u32, d: (u32, u32))
    requires
        call_ensures(Fourcc::plane_dim, (f, p, width, height), d),
    ensures
        ({
            let halved = f == Fourcc::Uly0 || f == Fourcc::Uly2;
            &&& p == 0 || !halved ==> d.0 == width && d.1 == height
            &&& halved && 1 <= p <= 2 ==> 2 * d.0 <= width < 2 * d.0 + 2
            &&& f == Fourcc::Uly0 && 1 <= p <= 2 ==> 2 * d.1 <= height < 2 * d.1 + 2
            &&& f == Fourcc::Uly2 && 1 <= p <= 2 ==> d.1 == height
            &&& halved && p >= 3 ==> d.0 == 0 && d.1 == 0
        }),
{
}

/// The label of a plane. Numbers past the last plane get the last label.
pub proof fn law_label(f: Fourcc, p: usize, l: PlaneLabel)
    requires
        call_ensures(PlaneLabel::for_fourcc, (f, p), l),
    ensures
        ({
            let rgb = f == Fourcc::Ulrg || f == Fourcc::Ulra;
            &&& l == PlaneLabel::Y <==> !rgb && p == 0
            &&& l == PlaneLabel::U <==> !rgb && p == 1
            &&& l == PlaneLabel::V <==> !rgb && p >= 2
            &&& l == PlaneLabel::G <==> rgb && p == 0
            &&& l == PlaneLabel::B <==> rgb && p == 1
            &&& l == PlaneLabel::R <==> f == Fourcc::Ulrg && p >= 2 || f == Fourcc::Ulra && p == 2
            &&& l == PlaneLabel::A <==> f == Fourcc::Ulra && p >= 3
        }),
{
}

/// The answers on a code agree with its characters.
pub proof fn law_code_answers(f: Fourcc, planes: usize, rgb: bool, alpha: bool)
    requires
        call_ensures(Fourcc::plane_count, (f,), planes),
        call_ensures(Fourcc::is_rgb_family, (f,), rgb),
        call_ensures(Fourcc::has_alpha, (f,), alpha),
    ensures
        rgb <==> f.code()[2] as char == 'R',
        alpha <==> f.code()[3] as char == 'A',
        planes == (if alpha {
            4usize
        } else {
            3usize
        }),
{
}

/// The predictor of a plane without samples is gradient. Any other one is chosen
/// by its first eight rows: if the judge prefers residuals that cost less, the
/// chosen predictor costs least, and among equals it is the first of gradient,
/// median, left and identity.
pub proof fn law_choose_predictor<F: Fn(&[u8], &[u8]) -> bool>(
    plane: &[u8],
    w: usize,
    h: usize,
    beats: F,
    p: Predictor,
    cost: spec_fn(Seq<u8>) -> int,
)
    requires
        call_ensures(predict::choose_predictor::<F>, (plane, w, h, beats), p),
        w > 0 && h > 0 ==> plane@.len() == w * h,
        forall|x: &[u8], y: &[u8], b: bool| #[trigger]
            call_ensures(beats, (x, y), b) ==> b == (cost(x@) < cost(y@)),
    ensures
        w == 0 || h == 0 ==> p == Predictor::Gradient,
        w > 0 && h > 0 ==> {
            let rows = if h < 8 {
                h as int
            } else {
                8
            };
            let top = plane@.take(w * rows);
            let gradient = cost(predict::residuals(Predictor::Gradient, top, w as int));
            let median = cost(predict::residuals(Predictor::Median, top, w as int));
            let left = cost(predict::residuals(Predictor::Left, top, w as int));
            let identity = cost(predict::residuals(Predictor::Identity, top, w as int));
            &&& p == Predictor::Gradient <==> gradient <= median && gradient <= left && gradient
                <= identity
            &&& p == Predictor::Median <==> median < gradient && median <= left && median
                <= identity
            &&& p == Predictor::Left <==> left < gradient && left < median && left <= identity
            &&& p == Predictor::Identity <==> identity < gradient && identity < median && identity
                < left
        },
{
    if w > 0 && h > 0 {
        sample_laws::law_choice_is_cheapest(beats, cost, plane@, w as int, h as int, p);
    }
}

/// The rows of a slice.
pub proof fn law_slice_rows(h: usize, n: usize, s: usize, r: (usize, usize))
    requires
        call_ensures(predict::slice_rows, (h, n, s), r),
        s < n,
    ensures
        r.0 == h * s / n as int,
        r.1 == h * (s + 1) / n as int,
{
}

/// The number of workers of a frame is one below 65536 pixels and for a single
/// slice; else it is as great as the budget and the slices allow.
pub proof fn law_frame_workers(slices: usize, pixels: usize, budget: usize, n: usize, k: usize)
    requires
        call_ensures(workers::frame_workers, (slices, pixels, budget), n),
    ensures
        n >= 1,
        pixels < 65536 || slices <= 1 ==> n == 1,
        n > 1 ==> n <= slices && n <= budget,
        pixels >= 65536 && 1 <= k <= slices && k <= budget ==> k <= n,
{
}

/// The slices of neighbouring workers follow on each other, the first worker
/// begins with the first slice and the last one ends with the last.
pub proof fn law_buckets(
    slices: usize,
    n: usize,
    b: usize,
    r: (usize, usize),
    next: (usize, usize),
)
    requires
        1 <= n <= 256,
        slices <= 256,
        b < n,
        call_ensures(workers::bucket, (slices, n, b), r),
        b + 1 < n ==> call_ensures(workers::bucket, (slices, n, (b + 1) as usize), next),
    ensures
        r.0 <= r.1 <= slices,
        b == 0 ==> r.0 == 0,
        b + 1 == n ==> r.1 == slices,
        b + 1 < n ==> r.1 == next.0,
        n * (r.1 - r.0) < slices + n,
        b + 1 < n && next.0 < next.1 ==> n * (r.1 - r.0) >= slices,
{
    config_laws::law_bucket_sizes(slices as int, n as int, b as int);
    workers::law_buckets_partition(slices as int, n as int, b as int);
    config_laws::law_bucket_sizes(slices as int, n as int, 0);
    let size = r.1 - r.0;
    let first = workers::bucket_start(slices as int, n as int, 1);
    let c = workers::share(slices as int, n as int);
    lemma_mul_basics_1(c);
    lemma_mul_basics_3(c);
    vstd::arithmetic::div_mod::lemma_fundamental_div_mod(slices + n - 1, n as int);
    vstd::arithmetic::div_mod::lemma_mod_bound(slices + n - 1, n as int);
    lemma_mul_inequality(size, c, n as int);
    lemma_mul_is_commutative(size, n as int);
    lemma_mul_is_commutative(c, n as int);
}

/// The block for a number of slices announces that number; only 1 to 256 slices
/// have one.
pub proof fn law_ffmpeg_for(f: Fourcc, n: usize, r: Result<Extradata, Error>, k: usize)
    requires
        call_ensures(Extradata::ffmpeg_for, (f, n), r),
        r is Ok ==> call_ensures(Extradata::num_slices, (&(r->Ok_0),), k),
    ensures
        1 <= n <= 256 ==> r is Ok && k == n,
        n == 0 || n > 256 ==> r == Err::<Extradata, Error>(Error::InvalidSliceCount),
        r matches Ok(x) ==> x.source_format_tag@ == f.source_tag() && x.frame_info_size == 4
            && x.encoder_version == 0x0100_00f0 && x.flags % 0x100_0000 == 1,
{
}

/// Which blocks of extradata are parsed, and what is read from their bytes.
pub proof fn law_parse(b: &[u8], r: Result<Extradata, Error>)
    requires
        call_ensures(Extradata::parse, (b,), r),
    ensures
        r is Ok <==> b@.len() >= 16 && b@[8] == 4 && b@[9] == 0 && b@[10] == 0 && b@[11] == 0
            && b@[12] % 2 == 1 && b@[13] / 8 % 2 == 0,
        r matches Ok(x) ==> {
            &&& x.encoder_version == b@[0] + 256 * b@[1] + 65536 * b@[2] + 16777216 * b@[3]
            &&& x.source_format_tag@ == b@.subrange(4, 8)
            &&& x.frame_info_size == 4
            &&& x.flags == b@[12] + 256 * b@[13] + 65536 * b@[14] + 16777216 * b@[15]
        },
{
    config_laws::law_extradata_errors(b@);
    if r is Ok {
        let x = r->Ok_0;
        let e = b@.take(16);
        config_laws::law_extradata_bytes(x);
        assert forall|i: int| 0 <= i < 16 implies #[trigger] e[i] == b@[i] by {}
        assert(x.source_format_tag@ =~= b@.subrange(4, 8));
    }
}

/// The configuration of a stream to decode: none as long as a part is missing,
/// else the given parts, or what is wrong with them.
pub proof fn law_stream_config(
    tag: Option<[u8; 4]>,
    width: Option<u32>,
    height: Option<u32>,
    b: &[u8],
    r: Result<Option<StreamConfig>, Error>,
)
    requires
        call_ensures(registry::build_stream_config, (tag, width, height, b), r),
    ensures
        registry::tagged(tag) is None || width is None || height is None || b@.len() == 0 ==> r
            == Ok::<Option<StreamConfig>, Error>(None),
        registry::tagged(tag) is Some && width is Some && height is Some && b@.len() > 0
            ==> match r {
            Ok(Some(c)) => {
                &&& c.fourcc == registry::tagged(tag)->0
                &&& c.width == width->0
                &&& c.height == height->0
                &&& c.extradata.encoded() == b@.take(16)
                &&& Extradata::parse_error(b@) is None
                &&& c.fourcc.dims_error(c.width, c.height) is None
            },
            Ok(None) => false,
            Err(e) => if Extradata::parse_error(b@) is Some {
                Extradata::parse_error(b@) == Some(e)
            } else {
                (registry::tagged(tag)->0).dims_error(width->0, height->0) == Some(e)
            },
        },
{
}

/// The configuration of a stream to encode. The code is asked for first, then
/// the dimensions; without extradata the stream has one slice.
pub proof fn law_encoder_config(
    tag: Option<[u8; 4]>,
    layout: Option<PixelLayout>,
    width: Option<u32>,
    height: Option<u32>,
    b: &[u8],
    r: Result<StreamConfig, ConfigError>,
)
    requires
        call_ensures(registry::build_encoder_config, (tag, layout, width, height, b), r),
    ensures
        registry::encoder_fourcc(tag, layout) matches Err(e) ==> r == Err::<
            StreamConfig,
            ConfigError,
        >(e),
        registry::encoder_fourcc(tag, layout) is Ok && (width is None || height is None) ==> r
            == Err::<StreamConfig, ConfigError>(ConfigError::NoDimensions),
        registry::encoder_fourcc(tag, layout) matches Ok(f) ==> width is Some && height is Some
            ==> match r {
            Ok(c) => {
                &&& c.fourcc == f
                &&& c.width == width->0
                &&& c.height == height->0
                &&& f.dims_error(c.width, c.height) is None
                &&& b@.len() > 0 ==> c.extradata.encoded() == b@.take(16)
                    && Extradata::parse_error(b@) is None
                &&& b@.len() == 0 ==> c.extradata.slices() == 1 && c.extradata.flags == 1
                    && c.extradata.frame_info_size == 4 && c.extradata.source_format_tag@
                    == f.source_tag() && c.extradata.encoder_version == 0x0100_00f0
            },
            Err(ConfigError::Codec(e)) => if b@.len() > 0 && Extradata::parse_error(b@) is Some {
                Extradata::parse_error(b@) == Some(e)
            } else {
                f.dims_error(width->0, height->0) == Some(e)
            },
            Err(_) => false,
        },
{
}

/// A code-length table: accepted exactly if it describes a code. The code of a
/// symbol has the length that the table gives it; a symbol without a code, and
/// every symbol of a plane with one symbol, has none.
pub proof fn law_table(
    d: [u8; 256],
    r: Result<HuffmanTable, Error>,
    s: u8,
    code: Option<(u32, u8)>,
    longest: u8,
)
    requires
        call_ensures(HuffmanTable::build, (&d,), r),
        r is Ok ==> call_ensures(HuffmanTable::code_for, (&(r->Ok_0), s), code),
        r is Ok ==> call_ensures(HuffmanTable::max_code_length, (&(r->Ok_0),), longest),
    ensures
        r is Ok <==> canonical::shape(d@) is Ok,
        r matches Err(e) ==> canonical::shape(d@) == Err::<Shape, Error>(e),
        canonical::shape(d@) == Ok::<Shape, Error>(Shape::Coded) ==> {
            &&& code is Some <==> d@[s as int] != 0 && d@[s as int] != 255
            &&& code matches Some(c) ==> c.1 == d@[s as int] && c.0 == canonical::code(
                d@,
                s as int,
            ) as u32
            &&& d@[s as int] != 255 ==> d@[s as int] <= longest
            &&& d@.contains(longest) && longest != 255
        },
        canonical::shape(d@) matches Ok(Shape::Single(x)) ==> code is None && longest == 0,
{
    if canonical::shape(d@) == Ok::<Shape, Error>(Shape::Coded) {
        crate::code_laws::law_coded_shape(d@);
        assert(d@[s as int] != 0);
    }
}

/// Code lengths for a histogram: none for a symbol that does not occur, and at
/// most the limit for one of several that do. Of two that occur the rarer one,
/// or the lower one where both occur equally often, has no shorter a code.
pub proof fn law_build_lengths(
    counts: [u64; 256],
    limit: u8,
    r: Result<Vec<u8>, Error>,
    a: int,
    b: int,
)
    requires
        limit < 64,
        call_ensures(lengths::build_lengths, (&counts, limit), r),
        0 <= a < 256,
        0 <= b < 256,
    ensures
        r is Err <==> counts@.filter(|c: u64| c > 0).len() >= 2 && counts@.filter(
            |c: u64| c > 0,
        ).len() > pow2(limit as nat),
        r matches Ok(v) ==> {
            &&& v@.len() == 256
            &&& v@[a] > 0 <==> counts@[a] > 0
            &&& 0 < counts@[a] < counts@[b] ==> v@[a] >= v@[b]
            &&& 0 < counts@[a] == counts@[b] && a < b ==> v@[a] >= v@[b]
            &&& counts@[a] > 0 && counts@[b] > 0 && a != b ==> v@[a] <= limit
        },
{
    length_laws::law_used(counts@);
    if r is Ok && 0 < counts@[a] && (counts@[a] < counts@[b] || (counts@[a] == counts@[b] && a < b))
    {
        length_laws::law_rarer_is_longer(counts@, limit as nat, a, b);
    }
    if r is Ok && counts@[a] > 0 && counts@[b] > 0 && a != b {
        length_laws::lemma_two_used(counts@, a, b);
    }
}

/// What a slice of a layout measures.
pub proof fn law_slice_measures(l: SliceLayout, n: usize, empty: bool, rows: u32)
    requires
        call_ensures(SliceLayout::len, (&l,), n),
        call_ensures(SliceLayout::is_empty, (&l,), empty),
        call_ensures(SliceLayout::row_count, (&l,), rows),
    ensures
        l.start + n == l.end,
        l.row_start + rows == l.row_end,
        empty <==> n == 0,
{
}

/// What a plane of a layout measures.
pub proof fn law_plane_measures(
    l: PlaneLayout,
    data: usize,
    size: usize,
    pixels: u64,
    unused: u32,
    kraft: u128,
    complete: bool,
)
    requires
        call_ensures(PlaneLayout::slice_data_total, (&l,), data),
        call_ensures(PlaneLayout::total_size, (&l,), size),
        call_ensures(PlaneLayout::total_pixels, (&l,), pixels),
        call_ensures(PlaneLayout::unused_symbol_count, (&l,), unused),
        call_ensures(PlaneLayout::kraft_numerator, (&l,), kraft),
        call_ensures(PlaneLayout::is_kraft_complete, (&l,), complete),
    ensures
        l.slices@.len() > 0 && l.slices@.last().end >= l.slice_data_start ==> l.slice_data_start
            + data == l.slices@.last().end,
        l.slices@.len() == 0 || l.slices@.last().end < l.slice_data_start ==> data == 0,
        size == 256 + 4 * l.slices@.len() + data,
        pixels == l.slices@.fold_left(0int, |sum: int, s: SliceLayout| sum + s.pixel_count),
        l.active_symbol_count + unused + (if l.is_single_symbol {
            1int
        } else {
            0int
        }) == 256,
        (forall|i: int|
            0 <= i < l.code_length_histogram@.len() ==> l.max_code_length - (
            #[trigger] l.code_length_histogram@[i]).0 < 128) && l.kraft() <= u128::MAX ==> kraft
            == l.kraft(),
        l.kraft() > u128::MAX ==> kraft == u128::MAX,
        complete <==> l.is_single_symbol || (l.code_length_histogram@.len() > 0 && l.kraft()
            == pow2(l.max_code_length as nat)),
{
    survey_laws::law_pixel_sum(l.slices@);
}

/// What a frame of a layout measures.
pub proof fn law_frame_measures(f: FrameLayout, data: usize, size: usize, complete: bool)
    requires
        call_ensures(FrameLayout::total_slice_data_bytes, (&f,), data),
        call_ensures(FrameLayout::total_size, (&f,), size),
        call_ensures(FrameLayout::all_planes_kraft_complete, (&f,), complete),
        forall|p: int|
            0 <= p < f.planes@.len() ==> (#[trigger] f.planes@[p]).slices@.len() == f.num_slices,
    ensures
        size == data + f.planes@.len() * (256 + 4 * f.num_slices) + 4,
        complete <==> forall|p: int|
            0 <= p < f.planes@.len() ==> (#[trigger] f.planes@[p]).is_single_symbol || (
            f.planes@[p].code_length_histogram@.len() > 0 && f.planes@[p].kraft() == pow2(
                f.planes@[p].max_code_length as nat,
            )),
{
    lemma_frame_sums(f, f.planes@.len());
    if complete {
        assert forall|p: int| 0 <= p < f.planes@.len() implies (
        #[trigger] f.planes@[p]).is_single_symbol || (f.planes@[p].code_length_histogram@.len() > 0
            && f.planes@[p].kraft() == pow2(f.planes@[p].max_code_length as nat)) by {
            assert(inspect::plane_complete(f.planes@[p]));
        }
    }
}

proof fn lemma_frame_sums(f: FrameLayout, k: nat)
    requires
        k <= f.planes@.len(),
        forall|p: int|
            0 <= p < f.planes@.len() ==> (#[trigger] f.planes@[p]).slices@.len() == f.num_slices,
    ensures
        inspect::size_sum(f.planes@, k) == inspect::data_sum(f.planes@, k) + k * (256 + 4
            * f.num_slices),
    decreases k,
{
    let u = 256 + 4 * f.num_slices;
    if k == 0 {
        lemma_mul_basics_1(u);
    } else {
        lemma_frame_sums(f, (k - 1) as nat);
        assert(f.planes@[k - 1].slices@.len() == f.num_slices);
        let m = k - 1;
        assert((m + 1) * u == m * u + u) by (nonlinear_arith);
    }
}

/// The frame-info word of a payload is its last four bytes, the least
/// significant one first; the low two bits of the second one name the predictor.
pub proof fn law_frame_info(data: &[u8], r: Result<(u32, Predictor), Error>)
    requires
        call_ensures(inspect::peek_frame_info, (data,), r),
    ensures
        data@.len() < 4 <==> r == Err::<(u32, Predictor), Error>(Error::MissingFrameInfo),
        data@.len() >= 4 ==> {
            let k = data@.len() - 4;
            let mode = data@[k + 1] % 4;
            &&& r matches Ok(x)
            &&& x.0 == data@[k] + 256 * data@[k + 1] + 65536 * data@[k + 2] + 16777216 * data@[k
                + 3]
            &&& x.1 == Predictor::Identity <==> mode == 0
            &&& x.1 == Predictor::Left <==> mode == 1
            &&& x.1 == Predictor::Gradient <==> mode == 2
            &&& x.1 == Predictor::Median <==> mode == 3
        },
{
    if data@.len() >= 4 {
        let k = data@.len() - 4;
        wire_laws::lemma_third_byte(
            data@[k] as int,
            data@[k + 1] as int,
            data@[k + 2] as int,
            data@[k + 3] as int,
        );
    }
}

/// What is inspected has the structure of a frame.
pub proof fn law_inspected(cfg: StreamConfig, data: &[u8], r: Result<FrameLayout, Error>)
    requires
        call_ensures(inspect::peek_frame, (&cfg, data), r),
    ensures
        match payload::walk_error(data@, cfg.extradata.slices(), cfg.fourcc.planes(), false) {
            Some(e) => r == Err::<FrameLayout, Error>(e),
            None => r matches Ok(f) && inspect::frame_located(f, cfg, data@),
        },
{
}

/// Walking over a plane of a payload: where its parts begin, and the end offset
/// of each slice, the least significant byte first.
pub proof fn law_walked_plane(
    data: &[u8],
    o: usize,
    n: usize,
    r: Result<PlaneSpan, Error>,
    s: int,
)
    requires
        call_ensures(payload::walk_plane, (data, o, n), r),
        0 <= s < n,
    ensures
        r is Ok <==> payload::plane_error(data@, o as int, n as nat) is None,
        r matches Err(e) ==> payload::plane_error(data@, o as int, n as nat) == Some(e),
        r matches Ok(span) ==> {
            let t = o + 256 + 4 * s;
            &&& span.descriptor_start == o
            &&& span.table_start == o + 256
            &&& span.data_start == o + 256 + 4 * n
            &&& span.ends@.len() == n
            &&& span.ends@[s] == data@[t] + 256 * data@[t + 1] + 65536 * data@[t + 2] + 16777216
                * data@[t + 3]
        },
{
}

/// A payload is made of the bytes of its planes in order and the bytes 0, mode,
/// 0 and 0.
pub proof fn law_assembled(blobs: &[Vec<u8>], p: Predictor, out: Vec<u8>, i: int)
    requires
        call_ensures(encoder::assemble_payload, (blobs, p), out),
    ensures
        ({
            let all = bytes::concat(predict::views(blobs@));
            let k = all.len() as int;
            &&& out@.len() == k + 4
            &&& 0 <= i < k ==> out@[i] == all[i]
            &&& out@[k] == 0
            &&& out@[k + 2] == 0
            &&& out@[k + 3] == 0
            &&& p == Predictor::Identity ==> out@[k + 1] == 0
            &&& p == Predictor::Left ==> out@[k + 1] == 1
            &&& p == Predictor::Gradient ==> out@[k + 1] == 2
            &&& p == Predictor::Median ==> out@[k + 1] == 3
        }),
{
}

/// Looking at the next bits gives a number of as many binary digits, the first
/// bit being the most significant one; bits past the end of the data are zero.
pub proof fn law_peek(br: BitReader, n: usize, v: u32, j: int)
    requires
        call_ensures(BitReader::peek_bits, (&br, n), v),
        0 <= j < n,
    ensures
        ({
            let bits = crate::bitstream::stream_bits(br.source());
            let at = br.cursor() + j;
            v as int / pow2((n - 1 - j) as nat) as int % 2 == 1 <==> at < bits.len() && bits[at]
        }),
{
    let bits = crate::bitstream::stream_bits(br.source());
    crate::bit_laws::law_read_bits(bits, br.cursor() as int, n as nat, j);
}

/// A plane without its padding: sample `c` of row `y`, found by the stride.
pub proof fn law_repacked(
    plane: StridedPlane,
    idx: usize,
    w: usize,
    h: usize,
    r: Result<Vec<u8>, registry::FrameError>,
    y: int,
    c: int,
)
    requires
        call_ensures(registry::repack_plane, (&plane, idx, w, h), r),
    ensures
        r is Ok <==> w <= plane.stride && plane.stride * h <= plane.data@.len(),
        r matches Ok(v) ==> v@.len() == w * h,
        r matches Ok(v) ==> 0 <= y < h && 0 <= c < w ==> v@[y * w + c] == plane.data@[y
            * plane.stride + c],
        plane.stride < w ==> r == Err::<Vec<u8>, registry::FrameError>(
            registry::FrameError::StrideTooSmall { plane: idx, stride: plane.stride, width: w },
        ),
{
    survey_laws::law_repack_errors(plane, idx, w as int, h as int);
    lemma_mul_is_commutative(plane.stride as int, h as int);
    lemma_mul_is_commutative(w as int, h as int);
    if r is Ok && 0 <= y < h && 0 <= c < w {
        survey_laws::law_unpadded(plane, w as int, h as nat, y, c);
    }
}

/// The median of three numbers, the third being left plus top minus top-left
/// reduced to a byte.
pub proof fn law_mid_pred(a: u8, b: u8, c: u8, m: u8)
    requires
        call_ensures(predictor::mid_pred, (a, b, c), m),
    ensures
        ({
            let g = (a + b - c) % 256;
            &&& a <= b <= g || g <= b <= a ==> m == b
            &&& b <= a <= g || g <= a <= b ==> m == a
            &&& a <= g <= b || b <= g <= a ==> m == g
        }),
{
}

/// Which errors on extradata are a matter of features that are not there.
pub proof fn law_unsupported(e: ExtraDataError, b: bool)
    requires
        call_ensures(ExtraDataError::is_unsupported, (&e,), b),
    ensures
        b <==> e is CompressionBitClear || e is FrameInfoSize,
{
}

/// Reading bits: nothing is read at first; moving on moves by as many bits; and
/// there are as many bits as the data has.
pub proof fn law_reader(
    data: &[u8],
    a: BitReader,
    b: &mut BitReader,
    n: usize,
    p: usize,
    q: usize,
    k: usize,
    more: bool,
)
    requires
        call_ensures(BitReader::new, (data,), a),
        call_ensures(BitReader::position, (&a,), p),
        call_ensures(BitReader::consume_bits, (b, n), ()),
        *old(b) == a,
        call_ensures(BitReader::position, (&*final(b),), q),
        call_ensures(BitReader::has_bits, (&*final(b), k), more),
    ensures
        p == 0,
        q == n,
        final(b).source() == data@,
        more <==> n + k <= 8 * data@.len(),
{
}

/// Writing codes: the bits stand in the order in which they were written.
pub proof fn law_writer(
    a: BitWriter,
    b: &mut BitWriter,
    code: u32,
    length: u8,
    c: &mut BitWriter,
    next: u32,
    size: u8,
    out: Vec<u8>,
    j: int,
)
    requires
        call_ensures(BitWriter::new, (), a),
        *old(b) == a,
        call_ensures(BitWriter::write_code, (b, code, length), ()),
        *old(c) == *final(b),
        call_ensures(BitWriter::write_code, (c, next, size), ()),
        call_ensures(BitWriter::finish, (*final(c),), out),
    ensures
        ({
            let bits = crate::bitstream::stream_bits(out@);
            let all = length + size;
            &&& out@.len() % 4 == 0
            &&& all <= 8 * out@.len() < all + 32
            &&& 0 <= j < length ==> bits[j] == (code as int / pow2(
                (length - 1 - j) as nat,
            ) as int % 2 == 1)
            &&& 0 <= j < size ==> bits[length + j] == (next as int / pow2(
                (size - 1 - j) as nat,
            ) as int % 2 == 1)
            &&& all <= j < 8 * out@.len() ==> !bits[j]
        }),
{
    let bits = final(c).written();
    crate::code_laws::law_packed_bits(bits, j);
    crate::code_laws::law_packed_bits(bits, length + j);
}

} // verus!
