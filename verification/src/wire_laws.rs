//! What stands where in a payload, which error a broken payload gives, and
//! what a decoded frame says of its payload, byte by byte.

use crate::bitstream;
use crate::canonical;
use crate::canonical::Shape;
use crate::decoder;
use crate::decoder::{DecodedFrame, DecodedPlane, PlaneLabel};
use crate::encoder;
use crate::encoder::{EncodedFrame, PlaneInput};
use crate::error::Error;
use crate::fourcc::{Fourcc, Predictor, StreamConfig};
use crate::laws;
use crate::payload;
use crate::predict;
use crate::registry;
use vstd::prelude::*;

verus! {

/// A plane is made of 256 bytes of descriptor, four bytes per slice that say
/// where the slice ends, and the slice data. The planes follow on each other
/// from the first byte on and end four bytes before the end of the payload.
pub proof fn law_plane_places(data: Seq<u8>, n: nat, planes: nat, tables: bool, p: nat)
    requires
        n >= 1,
        payload::walk_error(data, n, planes, tables) is None,
        p < planes,
    ensures
        ({
            let o = payload::plane_offset(data, n, p);
            let t = o + 256 + 4 * (n - 1);
            &&& data.len() >= 4
            &&& payload::plane_offset(data, n, 0) == 0
            &&& payload::plane_offset(data, n, planes) == data.len() - 4
            &&& 0 <= o
            &&& payload::plane_offset(data, n, p + 1) == o + 256 + 4 * n + data[t] + 256 * data[t
                + 1] + 65536 * data[t + 2] + 16777216 * data[t + 3]
            &&& payload::plane_offset(data, n, p + 1) <= data.len() - 4
            &&& payload::descriptor(data, n, p) == data.subrange(o, o + 256)
            &&& tables ==> canonical::shape(data.subrange(o, o + 256)) is Ok
        }),
{
    payload::lemma_planes_inside(data, n, planes, p, tables);
    payload::lemma_planes_inside(data, n, planes, p + 1, tables);
}

/// The data of slice `s` of a plane at `o` begins where the slice before it
/// ends, or right after the end offsets, and ends at its own end offset, which
/// is a multiple of four.
pub proof fn law_slice_places(data: Seq<u8>, n: nat, planes: nat, tables: bool, p: nat, s: int)
    requires
        n >= 1,
        payload::walk_error(data, n, planes, tables) is None,
        p < planes,
        0 <= s < n,
    ensures
        ({
            let o = payload::plane_offset(data, n, p);
            let t = o + 256 + 4 * s;
            let start = o + 256 + 4 * n;
            let end = data[t] + 256 * data[t + 1] + 65536 * data[t + 2] + 16777216 * data[t + 3];
            let begin = if s == 0 {
                0
            } else {
                data[t - 4] + 256 * data[t - 3] + 65536 * data[t - 2] + 16777216 * data[t - 1]
            };
            &&& begin <= end
            &&& end % 4 == 0
            &&& start + end <= data.len() - 4
            &&& payload::slice_data(data, n, p, s) == data.subrange(start + begin, start + end)
        }),
{
    let o = payload::plane_offset(data, n, p);
    payload::lemma_planes_inside(data, n, planes, p, tables);
    payload::lemma_offsets(data, o + 256, n, s, n - 1);
    assert(payload::slice_end(data, o + 256, s) <= payload::slice_end(data, o + 256, n - 1));
}

/// What is wrong with a plane at `o`: no room for the descriptor; no room for
/// the end offsets; an end offset that is below the one before it or that is
/// not a multiple of four, the first such one counting and the order of the
/// two tests being this; or no room for the slice data.
pub proof fn law_plane_errors(data: Seq<u8>, o: int, n: nat, s: int)
    requires
        1 <= n <= 256,
        0 <= o <= data.len() - 4,
        0 <= s < n,
    ensures
        ({
            let room = data.len() - 4 - o;
            let t = o + 256 + 4 * s;
            let end = data[t] + 256 * data[t + 1] + 65536 * data[t + 2] + 16777216 * data[t + 3];
            let begin = if s == 0 {
                0
            } else {
                data[t - 4] + 256 * data[t - 3] + 65536 * data[t - 2] + 16777216 * data[t - 1]
            };
            &&& room < 256 ==> payload::plane_error(data, o, n) == Some(
                Error::ChunkTooShort { offset: o as usize, needed: 256, have: room as usize },
            )
            &&& 256 <= room < 256 + 4 * n ==> payload::plane_error(data, o, n) == Some(
                Error::ChunkTooShort {
                    offset: (o + 256) as usize,
                    needed: (4 * n) as usize,
                    have: (room - 256) as usize,
                },
            )
            &&& room >= 256 + 4 * n && payload::offsets_error(data, o + 256, s as nat) is None && end
                < begin ==> payload::plane_error(data, o, n) == Some(
                Error::NonMonotonicSliceOffsets,
            )
            &&& room >= 256 + 4 * n && payload::offsets_error(data, o + 256, s as nat) is None && end
                >= begin && end % 4 != 0 ==> payload::plane_error(data, o, n) == Some(
                Error::SliceNotWordAligned(end as usize),
            )
            &&& s + 1 == n && room >= 256 + 4 * n && payload::offsets_error(
                data,
                o + 256,
                s as nat,
            ) is None && end >= begin && end % 4 == 0 ==> payload::plane_error(data, o, n) == (
            if end > room - 256 - 4 * n {
                Some(
                    Error::ChunkTooShort {
                        offset: (o + 256 + 4 * n) as usize,
                        needed: end as usize,
                        have: (room - 256 - 4 * n) as usize,
                    },
                )
            } else {
                None
            })
            &&& payload::offsets_error(data, o + 256, (s + 1) as nat) is None <==> {
                &&& payload::offsets_error(data, o + 256, s as nat) is None
                &&& begin <= end
                &&& end % 4 == 0
            }
            &&& payload::offsets_error(data, o + 256, 0) is None
        }),
{
    let k = (s + 1) as nat;
    if payload::offsets_error(data, o + 256, k) is Some {
        payload::lemma_offsets_error_grows(data, o + 256, k, n);
    }
}

/// The error of a payload is that of the first plane that has one; a broken
/// code of a plane counts after a broken structure of the same plane and before
/// anything in the next one; bytes left over after the last plane count last.
pub proof fn law_first_plane_error(data: Seq<u8>, n: nat, planes: nat, p: nat)
    requires
        p < planes,
        payload::planes_error(data, n, p, true) is None,
    ensures
        data.len() < 4 ==> payload::walk_error(data, n, planes, true) == Some(
            Error::MissingFrameInfo,
        ),
        data.len() >= 4 ==> {
            let o = payload::plane_offset(data, n, p);
            let d = data.subrange(o, o + 256);
            &&& payload::plane_error(data, o, n) is Some ==> payload::walk_error(
                data,
                n,
                planes,
                true,
            ) == payload::plane_error(data, o, n)
            &&& payload::plane_error(data, o, n) is None ==> match canonical::shape(d) {
                Err(e) => payload::walk_error(data, n, planes, true) == Some(e),
                Ok(_) => payload::planes_error(data, n, p + 1, true) is None,
            }
            &&& payload::planes_error(data, n, planes, true) is None ==> {
                let end = payload::plane_offset(data, n, planes);
                payload::walk_error(data, n, planes, true) == (if end == data.len() - 4 {
                    None
                } else {
                    Some(
                        Error::ChunkTooShort {
                            offset: end as usize,
                            needed: (data.len() - 4 - end) as usize,
                            have: 0,
                        },
                    )
                })
            }
        },
        payload::planes_error(data, n, 0, true) is None,
{
    if payload::planes_error(data, n, p + 1, true) is Some {
        payload::lemma_planes_error_grows(data, n, p + 1, planes, true);
    }
}

/// The inspector's walk finds the errors of the structure and no others.
pub proof fn law_first_structure_error(data: Seq<u8>, n: nat, planes: nat, p: nat)
    requires
        p < planes,
        payload::planes_error(data, n, p, false) is None,
        data.len() >= 4,
    ensures
        ({
            let o = payload::plane_offset(data, n, p);
            &&& payload::plane_error(data, o, n) is Some ==> payload::walk_error(
                data,
                n,
                planes,
                false,
            ) == payload::plane_error(data, o, n)
            &&& payload::plane_error(data, o, n) is None ==> payload::planes_error(
                data,
                n,
                p + 1,
                false,
            ) is None
            &&& payload::planes_error(data, n, planes, false) is None ==> {
                let end = payload::plane_offset(data, n, planes);
                payload::walk_error(data, n, planes, false) == (if end == data.len() - 4 {
                    None
                } else {
                    Some(
                        Error::ChunkTooShort {
                            offset: end as usize,
                            needed: (data.len() - 4 - end) as usize,
                            have: 0,
                        },
                    )
                })
            }
        }),
        payload::planes_error(data, n, 0, false) is None,
{
    if payload::planes_error(data, n, p + 1, false) is Some {
        payload::lemma_planes_error_grows(data, n, p + 1, planes, false);
    }
}

/// The residuals of slice `s` of `n` of plane `p`: one for each sample of rows
/// `height * s / n` to `height * (s + 1) / n`, decoded from the data of the
/// slice with the code of the plane.
pub proof fn law_slice_outcome(cfg: StreamConfig, data: Seq<u8>, p: nat, s: int)
    requires
        0 <= s < cfg.extradata.slices(),
    ensures
        ({
            let (w, h) = cfg.fourcc.dims(p as int, cfg.width, cfg.height);
            let n = cfg.extradata.slices();
            let d = payload::descriptor(data, n, p);
            let part = payload::slice_data(data, n, p, s);
            let pixels = ((h * (s + 1) / n as int - h * s / n as int) * w) as nat;
            &&& pixels == 0 ==> decoder::residuals_outcome(cfg, data, p, s, false) == Ok::<
                Seq<u8>,
                Error,
            >(Seq::empty()) && decoder::residuals_outcome(cfg, data, p, s, true) == Ok::<
                Seq<u8>,
                Error,
            >(Seq::empty())
            &&& pixels > 0 ==> decoder::residuals_outcome(cfg, data, p, s, false)
                == canonical::decode_outcome(d, part, pixels)
            &&& pixels > 0 ==> decoder::residuals_outcome(cfg, data, p, s, true)
                == canonical::strict_outcome(d, part, pixels, p as usize, s as usize)
        }),
{
}

proof fn lemma_joined_all_ok(results: Seq<Result<Seq<u8>, Error>>, k: nat)
    requires
        forall|i: int| 0 <= i < k ==> #[trigger] results[i] is Ok,
    ensures
        decoder::joined(results, k) is Ok,
    decreases k,
{
    if k > 0 {
        lemma_joined_all_ok(results, (k - 1) as nat);
        assert(results[k - 1] is Ok);
    }
}

proof fn lemma_planes_all_ok(cfg: StreamConfig, data: Seq<u8>, k: nat, strict: bool)
    requires
        forall|q: nat| q < k ==> #[trigger] decoder::plane_outcome(cfg, data, q, strict) is Ok,
    ensures
        decoder::planes_outcome(cfg, data, k, strict) is Ok,
    decreases k,
{
    if k > 0 {
        lemma_planes_all_ok(cfg, data, (k - 1) as nat, strict);
        assert(decoder::plane_outcome(cfg, data, (k - 1) as nat, strict) is Ok);
    }
}

/// Strips are joined in the order of their slices; the first error among them
/// stays.
pub proof fn law_joined(results: Seq<Result<Seq<u8>, Error>>, k: nat)
    ensures
        decoder::joined(results, 0) == Ok::<Seq<u8>, Error>(Seq::empty()),
        decoder::joined(results, k) matches Err(e) ==> decoder::joined(results, k + 1) == Err::<
            Seq<u8>,
            Error,
        >(e),
        decoder::joined(results, k) matches Ok(all) ==> match results[k as int] {
            Err(e) => decoder::joined(results, k + 1) == Err::<Seq<u8>, Error>(e),
            Ok(part) => decoder::joined(results, k + 1) == Ok::<Seq<u8>, Error>(all + part),
        },
{
}

/// The contents of results, planes and vectors, one by one.
pub proof fn law_contents(
    r: Seq<Result<Vec<u8>, Error>>,
    v: Seq<Vec<u8>>,
    shown: Seq<DecodedPlane>,
    given: Seq<PlaneInput>,
    i: int,
)
    ensures
        decoder::outcomes(r).len() == r.len(),
        predict::views(v).len() == v.len(),
        decoder::samples_of(shown).len() == shown.len(),
        encoder::input_samples(given).len() == given.len(),
        0 <= i < r.len() ==> match r[i] {
            Ok(x) => decoder::outcomes(r)[i] == Ok::<Seq<u8>, Error>(x@),
            Err(e) => decoder::outcomes(r)[i] == Err::<Seq<u8>, Error>(e),
        },
        0 <= i < v.len() ==> predict::views(v)[i] == v[i]@,
        0 <= i < shown.len() ==> decoder::samples_of(shown)[i] == shown[i].samples@,
        0 <= i < given.len() ==> encoder::input_samples(given)[i] == given[i].samples@,
{
}

/// A payload with a good structure fails with the error of its first slice that
/// fails, in the order of the planes and, inside a plane, of the slices; if
/// none fails it decodes.
pub proof fn law_first_slice_error(cfg: StreamConfig, data: Seq<u8>, p: nat, s: int, strict: bool)
    requires
        p < cfg.fourcc.planes(),
        0 <= s < cfg.extradata.slices(),
        payload::walk_error(
            data,
            cfg.extradata.slices(),
            cfg.fourcc.planes(),
            true,
        ) is None,
        forall|q: nat, t: int|
            q < cfg.fourcc.planes() && 0 <= t < cfg.extradata.slices() && (q < p || (q == p && t
                < s)) ==> #[trigger] decoder::residuals_outcome(cfg, data, q, t, strict) is Ok,
    ensures
        decoder::residuals_outcome(cfg, data, p, s, strict) matches Err(e)
            ==> decoder::frame_outcome(cfg, data, strict) == Err::<Seq<Seq<u8>>, Error>(e),
        p + 1 == cfg.fourcc.planes() && s + 1 == cfg.extradata.slices()
            && decoder::residuals_outcome(cfg, data, p, s, strict) is Ok ==> decoder::frame_outcome(
            cfg,
            data,
            strict,
        ) is Ok,
{
    let n = cfg.extradata.slices();
    let planes = cfg.fourcc.planes();
    assert forall|q: nat| q < p implies #[trigger] decoder::plane_outcome(
        cfg,
        data,
        q,
        strict,
    ) is Ok by {
        let results = decoder::strips(cfg, data, q, strict);
        assert forall|t: int| 0 <= t < n implies #[trigger] results[t] is Ok by {
            assert(decoder::residuals_outcome(cfg, data, q, t, strict) is Ok);
        }
        lemma_joined_all_ok(results, n);
    }
    lemma_planes_all_ok(cfg, data, p, strict);
    let results = decoder::strips(cfg, data, p, strict);
    assert forall|t: int| 0 <= t < s implies #[trigger] results[t] is Ok by {
        assert(decoder::residuals_outcome(cfg, data, p, t, strict) is Ok);
    }
    lemma_joined_all_ok(results, s as nat);
    assert(results[s] == decoder::strip_outcome(cfg, data, p, s, strict));
    if decoder::residuals_outcome(cfg, data, p, s, strict) is Err {
        decoder::lemma_joined_error_grows(results, (s + 1) as nat, n);
        decoder::lemma_planes_outcome_error_grows(cfg, data, p + 1, planes, strict);
    } else if p + 1 == planes && s + 1 == n {
        assert(decoder::joined(results, n) is Ok);
    }
}

/// A payload with a broken structure fails with the error of its structure.
pub proof fn law_structure_error(cfg: StreamConfig, data: Seq<u8>, strict: bool)
    ensures
        payload::walk_error(
            data,
            cfg.extradata.slices(),
            cfg.fourcc.planes(),
            true,
        ) matches Some(e) ==> decoder::frame_outcome(cfg, data, strict) == Err::<
            Seq<Seq<u8>>,
            Error,
        >(e),
{
}

/// A result of decoding holds the samples that the payload decodes to, or the
/// error that it gives; a result of encoding holds the payload of the frame, or
/// the error of its input.
pub proof fn law_results(
    d: Result<DecodedFrame, Error>,
    cfg: StreamConfig,
    data: Seq<u8>,
    strict: bool,
    e: Result<Vec<u8>, Error>,
    frame: EncodedFrame,
    p: int,
)
    ensures
        decoder::decodes(d, cfg, data, strict) ==> match d {
            Ok(f) => {
                &&& decoder::frame_outcome(cfg, data, strict) is Ok
                &&& (decoder::frame_outcome(cfg, data, strict)->Ok_0).len() == f.planes@.len()
                &&& 0 <= p < f.planes@.len() ==> (decoder::frame_outcome(
                    cfg,
                    data,
                    strict,
                )->Ok_0)[p] == f.planes@[p].samples@
            },
            Err(x) => decoder::frame_outcome(cfg, data, strict) == Err::<Seq<Seq<u8>>, Error>(x),
        },
        encoder::encodes(e, frame) ==> match e {
            Ok(v) => frame.input_error() is None && v@ == encoder::encoded_payload(frame),
            Err(x) => frame.input_error() == Some(x),
        },
{
}

/// Frames below 2^31 pixels and 2^24 rows, and payloads below 2^29 bytes, can
/// be decoded and encoded on every machine.
pub proof fn law_ordinary_frames(cfg: StreamConfig, data: Seq<u8>, frame: EncodedFrame)
    requires
        cfg.width * cfg.height < 0x8000_0000,
        cfg.height < 0x100_0000,
        data.len() < 0x2000_0000,
        frame.width * frame.height < 0x8000_0000,
        frame.height < 0x100_0000,
    ensures
        decoder::addressable(cfg),
        decoder::decodable(cfg, data),
        registry::measurable(cfg),
        registry::countable(cfg),
        frame.countable(),
{
    let h = cfg.height as int;
    let n = cfg.extradata.slices() as int;
    assert(h * n <= 0xff_ffff * 256) by (nonlinear_arith)
        requires
            0 <= h <= 0xff_ffff,
            0 <= n <= 256,
    ;
    let k = frame.height as int;
    let m = frame.num_slices as int;
    if m <= 256 {
        assert(k * m <= 0xff_ffff * 256) by (nonlinear_arith)
            requires
                0 <= k <= 0xff_ffff,
                0 <= m <= 256,
        ;
    }
}

/// What a decoded frame says of itself: the code and the dimensions of the
/// stream, the last four bytes of the payload as a little-endian word, the
/// predictor that the low two bits of the third byte from the end name, and of
/// each plane its label and dimensions.
pub proof fn law_decoded_header(f: DecodedFrame, cfg: StreamConfig, data: Seq<u8>, strict: bool)
    requires
        decoder::decodes(Ok(f), cfg, data, strict),
    ensures
        ({
            let k = data.len() - 4;
            let mode = data[k + 1] % 4;
            &&& data.len() >= 4
            &&& f.fourcc == cfg.fourcc
            &&& f.width == cfg.width
            &&& f.height == cfg.height
            &&& f.frame_info == data[k] + 256 * data[k + 1] + 65536 * data[k + 2] + 16777216
                * data[k + 3]
            &&& f.predictor == Predictor::Identity <==> mode == 0
            &&& f.predictor == Predictor::Left <==> mode == 1
            &&& f.predictor == Predictor::Gradient <==> mode == 2
            &&& f.predictor == Predictor::Median <==> mode == 3
            &&& f.planes@.len() == (if cfg.fourcc == Fourcc::Ulra {
                4nat
            } else {
                3nat
            })
        }),
        forall|p: int|
            0 <= p < f.planes@.len() ==> {
                let plane = #[trigger] f.planes@[p];
                let rgb = cfg.fourcc == Fourcc::Ulrg || cfg.fourcc == Fourcc::Ulra;
                &&& (plane.width, plane.height) == cfg.fourcc.dims(p, cfg.width, cfg.height)
                &&& plane.samples@.len() == plane.width * plane.height
                &&& plane.label == PlaneLabel::Y <==> !rgb && p == 0
                &&& plane.label == PlaneLabel::U <==> !rgb && p == 1
                &&& plane.label == PlaneLabel::V <==> !rgb && p == 2
                &&& plane.label == PlaneLabel::G <==> rgb && p == 0
                &&& plane.label == PlaneLabel::B <==> rgb && p == 1
                &&& plane.label == PlaneLabel::R <==> rgb && p == 2
                &&& plane.label == PlaneLabel::A <==> rgb && p == 3
            },
{
    let k = data.len() - 4;
    let info = payload::frame_info(data);
    lemma_third_byte(data[k] as int, data[k + 1] as int, data[k + 2] as int, data[k + 3] as int);
    let planes = cfg.fourcc.planes();
    let stored = decoder::planes_outcome(cfg, data, planes, strict)->Ok_0;
    lemma_plane_lens(cfg, data, planes, strict);
    assert forall|p: int| 0 <= p < f.planes@.len() implies (#[trigger] f.planes@[p]).samples@.len()
        == f.planes@[p].width * f.planes@[p].height by {
        assert(decoder::samples_of(f.planes@)[p] == f.planes@[p].samples@);
        assert(decoder::recolored(cfg.fourcc, stored)[p].len() == stored[p].len());
    }
}

proof fn lemma_plane_lens(cfg: StreamConfig, data: Seq<u8>, k: nat, strict: bool)
    requires
        decoder::planes_outcome(cfg, data, k, strict) is Ok,
    ensures
        ({
            let list = decoder::planes_outcome(cfg, data, k, strict)->Ok_0;
            &&& list.len() == k
            &&& forall|p: int|
                0 <= p < k ==> (#[trigger] list[p]).len() == cfg.fourcc.dims(
                    p,
                    cfg.width,
                    cfg.height,
                ).0 * cfg.fourcc.dims(p, cfg.width, cfg.height).1
        }),
    decreases k,
{
    if k > 0 {
        let m = (k - 1) as nat;
        lemma_plane_lens(cfg, data, m, strict);
        decoder::lemma_plane_len(cfg, data, m, strict);
    }
}

pub proof fn lemma_third_byte(a: int, b: int, c: int, d: int)
    requires
        0 <= a < 256,
        0 <= b < 256,
        0 <= c < 256,
        0 <= d < 256,
    ensures
        (a + 256 * b + 65536 * c + 16777216 * d) / 256 % 4 == b % 4,
        0 <= a + 256 * b + 65536 * c + 16777216 * d <= u32::MAX,
{
    assert((a + 256 * b + 65536 * c + 16777216 * d) / 256 == b + 256 * c + 65536 * d);
}

/// The payload of an encoded frame ends with the bytes 0, mode, 0, 0, the mode
/// being 0 without prediction, 1 for left, 2 for gradient and 3 for median.
pub proof fn law_encoded_frame_info(frame: EncodedFrame)
    ensures
        ({
            let data = encoder::encoded_payload(frame);
            let k = data.len() - 4;
            &&& data.len() >= 4
            &&& data[k] == 0
            &&& data[k + 2] == 0
            &&& data[k + 3] == 0
            &&& frame.predictor == Predictor::Identity ==> data[k + 1] == 0
            &&& frame.predictor == Predictor::Left ==> data[k + 1] == 1
            &&& frame.predictor == Predictor::Gradient ==> data[k + 1] == 2
            &&& frame.predictor == Predictor::Median ==> data[k + 1] == 3
        }),
{
}

/// The payload of an encoded frame has a good structure; the descriptor of
/// plane `p` is the one of its residuals, and the data of slice `s` is, in a
/// plane with codes, the codes of the residuals of the slice followed by fewer
/// than 32 zero bits, and nothing in a plane with one symbol.
pub proof fn law_encoded_slice(frame: EncodedFrame, p: nat, s: int, j: int)
    requires
        frame.input_error() is None,
        frame.countable(),
        laws::offsets_fit(frame),
        p < frame.fourcc.planes(),
        0 <= s < frame.num_slices,
    ensures
        ({
            let data = encoder::encoded_payload(frame);
            let n = frame.num_slices as nat;
            let res = encoder::frame_residuals(frame, p as int);
            let d = encoder::plane_descriptor(res);
            let part = payload::slice_data(data, n, p, s);
            let bits = bitstream::stream_bits(part);
            let codes = canonical::encoded_bits(d, res[s]);
            &&& payload::descriptor(data, n, p) == d
            &&& canonical::shape(d) is Ok
            &&& part.len() % 4 == 0
            &&& canonical::shape(d) matches Ok(Shape::Single(_)) ==> part.len() == 0
            &&& canonical::shape(d) == Ok::<Shape, Error>(Shape::Coded) ==> {
                &&& codes.len() <= 8 * part.len() < codes.len() + 32
                &&& bits.len() == 8 * part.len()
                &&& 0 <= j < codes.len() ==> bits[j] == codes[j]
                &&& codes.len() <= j < bits.len() ==> !bits[j]
            }
        }),
{
    let res = encoder::frame_residuals(frame, p as int);
    let d = encoder::plane_descriptor(res);
    laws::lemma_slice_found(frame, p, s);
    encoder::lemma_frame_residuals(frame, p as int);
    encoder::lemma_plane_descriptor(res);
    let codes = canonical::encoded_bits(d, res[s]);
    assert(encoder::pack_outcome(d, res[s]) is Ok);
    crate::code_laws::law_packed_bits(codes, j);
}

/// What is wrong with a frame to encode, in this order: its dimensions, the
/// number of its planes, the number of its slices, the size of a plane.
pub proof fn law_input_errors(frame: EncodedFrame, p: int)
    requires
        0 <= p < frame.fourcc.planes(),
    ensures
        ({
            let count: nat = if frame.fourcc == Fourcc::Ulra {
                4
            } else {
                3
            };
            let dims = frame.fourcc.dims_error(frame.width, frame.height);
            &&& dims is Some ==> frame.input_error() == dims
            &&& dims is None && frame.planes@.len() != count ==> frame.input_error() == Some(
                Error::EncoderPlaneSizeMismatch {
                    plane: frame.planes@.len() as usize,
                    expected: count as usize,
                    got: frame.planes@.len() as usize,
                },
            )
            &&& dims is None && frame.planes@.len() == count && !(1 <= frame.num_slices <= 256)
                ==> frame.input_error() == Some(Error::InvalidSliceCount)
            &&& dims is None && frame.planes@.len() == count && 1 <= frame.num_slices <= 256 && (
            forall|q: int|
                0 <= q < p ==> (#[trigger] frame.planes@[q]).samples@.len() == frame.fourcc.dims(
                    q,
                    frame.width,
                    frame.height,
                ).0 * frame.fourcc.dims(q, frame.width, frame.height).1) ==> {
                let (w, h) = frame.fourcc.dims(p, frame.width, frame.height);
                &&& frame.planes@[p].samples@.len() != w * h ==> frame.input_error() == Some(
                    Error::EncoderPlaneSizeMismatch {
                        plane: p as usize,
                        expected: (w * h) as usize,
                        got: frame.planes@[p].samples@.len() as usize,
                    },
                )
                &&& frame.planes@[p].samples@.len() == w * h && p + 1 == count
                    ==> frame.input_error() is None
            }
        }),
{
    let count = frame.fourcc.planes();
    if frame.planes@.len() == count && forall|q: int|
        0 <= q < p ==> (#[trigger] frame.planes@[q]).samples@.len() == frame.fourcc.dims(
            q,
            frame.width,
            frame.height,
        ).0 * frame.fourcc.dims(q, frame.width, frame.height).1 {
        lemma_no_error_before(frame, p as nat);
        if frame.size_error((p + 1) as nat) is Some {
            lemma_size_error_stays(frame, (p + 1) as nat, count);
        }
    }
}

proof fn lemma_no_error_before(frame: EncodedFrame, k: nat)
    requires
        forall|q: int|
            0 <= q < k ==> (#[trigger] frame.planes@[q]).samples@.len() == frame.fourcc.dims(
                q,
                frame.width,
                frame.height,
            ).0 * frame.fourcc.dims(q, frame.width, frame.height).1,
    ensures
        frame.size_error(k) is None,
    decreases k,
{
    if k > 0 {
        lemma_no_error_before(frame, (k - 1) as nat);
        assert(frame.planes@[k - 1].samples@.len() == frame.plane_size(k - 1));
    }
}

proof fn lemma_size_error_stays(frame: EncodedFrame, j: nat, k: nat)
    requires
        j <= k,
        frame.size_error(j) is Some,
    ensures
        frame.size_error(k) == frame.size_error(j),
    decreases k,
{
    if j < k {
        lemma_size_error_stays(frame, j, (k - 1) as nat);
    }
}

} // verus!
