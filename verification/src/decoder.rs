//! Frame decoder: walks a frame's payload, decodes every slice with its
//! plane's codebook, undoes the prediction and, for RGB, the decorrelation.
//!
//! Slices do not depend on each other, so they may be decoded in any order or
//! at the same time; the strips are joined in the order of the slices.

use crate::bytes;
use crate::canonical;
use crate::error::Error;
use crate::fourcc::{Fourcc, Predictor, StreamConfig};
use crate::huffman;
use crate::huffman::HuffmanTable;
use crate::payload;
use crate::payload::PlaneSpan;
use crate::predict;
use vstd::arithmetic::mul::*;
use vstd::prelude::*;

verus! {

/// Frames of at least this many pixels are decoded slice by slice and joined.
pub const PARALLEL_PIXEL_THRESHOLD: usize = 65536;

/// One decoded plane.
#[derive(Debug, Clone, PartialEq, Eq)]
pub struct DecodedPlane {
    pub label: PlaneLabel,
    pub width: u32,
    pub height: u32,
    pub samples: Vec<u8>,
}

/// What a plane holds.
#[derive(Debug, Clone, Copy, PartialEq, Eq, Hash, Structural)]
pub enum PlaneLabel {
    Y,
    U,
    V,
    G,
    B,
    R,
    A,
}

impl PlaneLabel {
    /// The label of plane `idx`.
    pub open spec fn label_of(fc: Fourcc, idx: int) -> PlaneLabel {
        if fc.is_rgb() {
            if idx == 0 {
                PlaneLabel::G
            } else if idx == 1 {
                PlaneLabel::B
            } else if idx == 2 || fc == Fourcc::Ulrg {
                PlaneLabel::R
            } else {
                PlaneLabel::A
            }
        } else {
            if idx == 0 {
                PlaneLabel::Y
            } else if idx == 1 {
                PlaneLabel::U
            } else {
                PlaneLabel::V
            }
        }
    }

    /// The label of plane `idx` in wire order.
    pub fn for_fourcc(fc: Fourcc, idx: usize) -> (l: Self)
        ensures
            l == PlaneLabel::label_of(fc, idx as int),
    {
        match fc {
            Fourcc::Uly0 | Fourcc::Uly2 | Fourcc::Uly4 => match idx {
                0 => PlaneLabel::Y,
                1 => PlaneLabel::U,
                _ => PlaneLabel::V,
            },
            Fourcc::Ulrg => match idx {
                0 => PlaneLabel::G,
                1 => PlaneLabel::B,
                _ => PlaneLabel::R,
            },
            Fourcc::Ulra => match idx {
                0 => PlaneLabel::G,
                1 => PlaneLabel::B,
                2 => PlaneLabel::R,
                _ => PlaneLabel::A,
            },
        }
    }
}

/// A decoded frame.
#[derive(Debug, Clone, PartialEq, Eq)]
pub struct DecodedFrame {
    pub fourcc: Fourcc,
    pub width: u32,
    pub height: u32,
    pub predictor: Predictor,
    pub planes: Vec<DecodedPlane>,
    /// The frame-info word as stored; the predictor is taken from its bits.
    pub frame_info: u32,
}

/// The predictor that a payload names.
pub open spec fn predictor_of(payload: Seq<u8>) -> Predictor {
    Predictor::of_frame_info(payload::frame_info(payload) as u32)
}

/// The residuals that slice `s` of plane `p` decodes to, or why it does not.
pub open spec fn residuals_outcome(
    cfg: StreamConfig,
    payload: Seq<u8>,
    p: nat,
    s: int,
    strict: bool,
) -> Result<Seq<u8>, Error> {
    let n = cfg.extradata.slices();
    let (w, h) = cfg.fourcc.dims(p as int, cfg.width, cfg.height);
    let pixels = (predict::row_count(h as int, n as int, s) * w) as nat;
    let d = payload::descriptor(payload, n, p);
    let data = payload::slice_data(payload, n, p, s);
    if pixels == 0 {
        Ok(Seq::empty())
    } else if strict {
        canonical::strict_outcome(d, data, pixels, p as usize, s as usize)
    } else {
        canonical::decode_outcome(d, data, pixels)
    }
}

/// The samples that slice `s` of plane `p` decodes to, or why it does not.
pub open spec fn strip_outcome(
    cfg: StreamConfig,
    payload: Seq<u8>,
    p: nat,
    s: int,
    strict: bool,
) -> Result<Seq<u8>, Error> {
    let (w, h) = cfg.fourcc.dims(p as int, cfg.width, cfg.height);
    match residuals_outcome(cfg, payload, p, s, strict) {
        Err(e) => Err(e),
        Ok(res) => Ok(predict::restored_slice(predictor_of(payload), res, w as int)),
    }
}

/// The outcomes of all slices of plane `p`.
pub open spec fn strips(cfg: StreamConfig, payload: Seq<u8>, p: nat, strict: bool) -> Seq<
    Result<Seq<u8>, Error>,
> {
    Seq::new(cfg.extradata.slices(), |s: int| strip_outcome(cfg, payload, p, s, strict))
}

/// The first `k` strips one after the other, or the first error among them.
pub open spec fn joined(results: Seq<Result<Seq<u8>, Error>>, k: nat) -> Result<Seq<u8>, Error>
    decreases k,
{
    if k == 0 {
        Ok(Seq::empty())
    } else {
        match joined(results, (k - 1) as nat) {
            Err(e) => Err(e),
            Ok(a) => match results[k - 1] {
                Err(e) => Err(e),
                Ok(b) => Ok(a + b),
            },
        }
    }
}

/// The samples that plane `p` decodes to, or why it does not.
pub open spec fn plane_outcome(cfg: StreamConfig, payload: Seq<u8>, p: nat, strict: bool) -> Result<
    Seq<u8>,
    Error,
> {
    joined(strips(cfg, payload, p, strict), cfg.extradata.slices())
}

/// The samples of the first `k` planes, or the first error among them.
pub open spec fn planes_outcome(
    cfg: StreamConfig,
    payload: Seq<u8>,
    k: nat,
    strict: bool,
) -> Result<Seq<Seq<u8>>, Error>
    decreases k,
{
    if k == 0 {
        Ok(Seq::empty())
    } else {
        match planes_outcome(cfg, payload, (k - 1) as nat, strict) {
            Err(e) => Err(e),
            Ok(list) => match plane_outcome(cfg, payload, (k - 1) as nat, strict) {
                Err(e) => Err(e),
                Ok(x) => Ok(list.push(x)),
            },
        }
    }
}

/// The planes with the blue and red ones no longer relative to green.
pub open spec fn recolored(fourcc: Fourcc, planes: Seq<Seq<u8>>) -> Seq<Seq<u8>> {
    if fourcc.is_rgb() {
        planes.update(1, predict::recorrelated(planes[0], planes[1])).update(
            2,
            predict::recorrelated(planes[0], planes[2]),
        )
    } else {
        planes
    }
}

/// The samples of the planes that a payload decodes to, or why it does not
/// decode. With `strict`, the padding of the slices has to be zero.
pub open spec fn frame_outcome(cfg: StreamConfig, payload: Seq<u8>, strict: bool) -> Result<
    Seq<Seq<u8>>,
    Error,
> {
    match payload::walk_error(payload, cfg.extradata.slices(), cfg.fourcc.planes(), true) {
        Some(e) => Err(e),
        None => match planes_outcome(cfg, payload, cfg.fourcc.planes(), strict) {
            Err(e) => Err(e),
            Ok(planes) => Ok(recolored(cfg.fourcc, planes)),
        },
    }
}

/// The samples of the planes of a frame.
pub open spec fn samples_of(planes: Seq<DecodedPlane>) -> Seq<Seq<u8>> {
    Seq::new(planes.len(), |i: int| planes[i].samples@)
}

/// A frame carries the configuration and the frame-info word of its payload,
/// and each plane its label and dimensions.
pub open spec fn headed(f: DecodedFrame, cfg: StreamConfig, payload: Seq<u8>) -> bool {
    &&& f.fourcc == cfg.fourcc
    &&& f.width == cfg.width
    &&& f.height == cfg.height
    &&& f.frame_info == payload::frame_info(payload)
    &&& f.predictor == predictor_of(payload)
    &&& f.planes@.len() == cfg.fourcc.planes()
    &&& forall|i: int|
        0 <= i < f.planes@.len() ==> {
            &&& (#[trigger] f.planes@[i]).label == PlaneLabel::label_of(cfg.fourcc, i)
            &&& (f.planes@[i].width, f.planes@[i].height) == cfg.fourcc.dims(
                i,
                cfg.width,
                cfg.height,
            )
        }
}

/// A result is what a payload decodes to.
pub open spec fn decodes(
    r: Result<DecodedFrame, Error>,
    cfg: StreamConfig,
    payload: Seq<u8>,
    strict: bool,
) -> bool {
    match r {
        Ok(f) => frame_outcome(cfg, payload, strict) == Ok::<Seq<Seq<u8>>, Error>(
            samples_of(f.planes@),
        ) && headed(f, cfg, payload),
        Err(e) => frame_outcome(cfg, payload, strict) == Err::<Seq<Seq<u8>>, Error>(e),
    }
}

/// The planes of a frame fit into memory and the row arithmetic does not
/// overflow.
pub open spec fn addressable(cfg: StreamConfig) -> bool {
    &&& cfg.width * cfg.height <= isize::MAX
    &&& cfg.height * cfg.extradata.slices() <= usize::MAX
}

/// The samples and the bits of a payload can be counted, if it has samples to
/// decode at all.
pub open spec fn decodable(cfg: StreamConfig, payload: Seq<u8>) -> bool {
    payload::walk_error(payload, cfg.extradata.slices(), cfg.fourcc.planes(), true) is None ==> {
        &&& addressable(cfg)
        &&& 8 * payload.len() <= usize::MAX
    }
}

/// The planes of an addressable frame are no greater than the frame.
proof fn lemma_addressable(cfg: StreamConfig, p: nat)
    requires
        addressable(cfg),
    ensures
        ({
            let (w, h) = cfg.fourcc.dims(p as int, cfg.width, cfg.height);
            &&& w * h <= isize::MAX
            &&& h * cfg.extradata.slices() <= usize::MAX
        }),
{
    let (w, h) = cfg.fourcc.dims(p as int, cfg.width, cfg.height);
    let n = cfg.extradata.slices();
    lemma_mul_upper_bound(w as int, cfg.width as int, h as int, cfg.height as int);
    lemma_mul_inequality(h as int, cfg.height as int, n as int);
}

/// Decoding gives as many symbols as asked for.
pub proof fn lemma_outcome_len(d: Seq<u8>, data: Seq<u8>, n: nat)
    ensures
        canonical::decode_outcome(d, data, n) matches Ok(out) ==> out.len() == n,
{
}

/// An error among the first strips stays the error.
pub proof fn lemma_joined_error_grows(results: Seq<Result<Seq<u8>, Error>>, j: nat, k: nat)
    requires
        j <= k,
        joined(results, j) is Err,
    ensures
        joined(results, k) == joined(results, j),
    decreases k,
{
    if j < k {
        lemma_joined_error_grows(results, j, (k - 1) as nat);
    }
}

/// The first strips of a plane cover its first rows.
pub proof fn lemma_joined_len(cfg: StreamConfig, payload: Seq<u8>, p: nat, k: nat, strict: bool)
    requires
        k <= cfg.extradata.slices(),
    ensures
        ({
            let (w, h) = cfg.fourcc.dims(p as int, cfg.width, cfg.height);
            joined(strips(cfg, payload, p, strict), k) matches Ok(x) ==> x.len()
                == predict::row_start(
                h as int,
                cfg.extradata.slices() as int,
                k as int,
            ) * w
        }),
    decreases k,
{
    let (w, h) = cfg.fourcc.dims(p as int, cfg.width, cfg.height);
    let n = cfg.extradata.slices();
    predict::law_rows_partition(h as int, n as int, 0);
    lemma_mul_basics_1(w as int);
    if k > 0 {
        let s = k - 1;
        lemma_joined_len(cfg, payload, p, s as nat, strict);
        predict::law_rows_partition(h as int, n as int, s);
        let a = predict::row_start(h as int, n as int, s);
        let b = predict::row_start(h as int, n as int, s + 1);
        let ww = w as int;
        assert((b - a) * ww == b * ww - a * ww) by (nonlinear_arith);
        lemma_mul_nonnegative(b - a, ww);
        match residuals_outcome(cfg, payload, p, s, strict) {
            Ok(res) => {
                lemma_outcome_len(
                    payload::descriptor(payload, n, p),
                    payload::slice_data(payload, n, p, s),
                    ((b - a) * ww) as nat,
                );
                assert(res.len() == (b - a) * ww);
                predict::lemma_restored_prefix(
                    predictor_of(payload),
                    res,
                    ww,
                    res.len(),
                    res.len(),
                );
            },
            Err(_) => {},
        }
    }
}

/// A decoded plane has a sample for each pixel.
pub proof fn lemma_plane_len(cfg: StreamConfig, payload: Seq<u8>, p: nat, strict: bool)
    ensures
        ({
            let (w, h) = cfg.fourcc.dims(p as int, cfg.width, cfg.height);
            plane_outcome(cfg, payload, p, strict) matches Ok(x) ==> x.len() == w * h
        }),
{
    let (w, h) = cfg.fourcc.dims(p as int, cfg.width, cfg.height);
    let n = cfg.extradata.slices();
    lemma_joined_len(cfg, payload, p, n, strict);
    predict::law_rows_partition(h as int, n as int, 0);
    lemma_mul_is_commutative(w as int, h as int);
}

/// Structure of one plane of a payload, ready for slice decoding.
struct ParsedPlane<'a> {
    width: u32,
    height: u32,
    table: HuffmanTable,
    slice_bytes: Vec<&'a [u8]>,
}

/// Structure of a payload, ready for slice decoding.
pub struct ParsedFrame<'a> {
    cfg: StreamConfig,
    payload: &'a [u8],
    planes: Vec<ParsedPlane<'a>>,
    frame_info: u32,
}

impl<'a> ParsedPlane<'a> {
    /// The plane is plane `p` of a payload.
    spec fn is_plane(&self, cfg: StreamConfig, payload: Seq<u8>, p: nat) -> bool {
        let n = cfg.extradata.slices();
        &&& (self.width, self.height) == cfg.fourcc.dims(p as int, cfg.width, cfg.height)
        &&& self.table.wf()
        &&& self.table.descriptor() == payload::descriptor(payload, n, p)
        &&& self.slice_bytes@.len() == n
        &&& forall|s: int|
            0 <= s < n ==> (#[trigger] self.slice_bytes@[s])@ == payload::slice_data(
                payload,
                n,
                p,
                s,
            )
    }
}

/// The 256 bytes of a descriptor.
pub(crate) fn read_descriptor(payload: &[u8], offset: usize) -> (d: [u8; 256])
    requires
        offset + 256 <= payload@.len(),
    ensures
        d@ == payload@.subrange(offset as int, offset + 256),
{
    let total: usize = payload.len();
    let mut d: [u8; 256] = [0; 256];
    let mut i: usize = 0;
    while i < 256
        invariant
            i <= 256,
            total == payload@.len(),
            offset + 256 <= total,
            forall|k: int| 0 <= k < i ==> #[trigger] d@[k] == payload@[offset + k],
        decreases 256 - i,
    {
        d[i] = payload[offset + i];
        i = i + 1;
    }
    assert(d@ =~= payload@.subrange(offset as int, offset + 256));
    d
}

/// The data of each slice of a plane.
fn split_slices<'a>(payload: &'a [u8], span: &PlaneSpan, num_slices: usize) -> (out: Vec<&'a [u8]>)
    requires
        1 <= num_slices <= 256,
        payload@.len() >= 4,
        payload::plane_error(payload@, span.descriptor_start as int, num_slices as nat) is None,
        span.describes(payload@, span.descriptor_start as int, num_slices as nat),
    ensures
        out@.len() == num_slices,
        forall|s: int|
            0 <= s < num_slices ==> (#[trigger] out@[s])@ == payload@.subrange(
                span.data_start + payload::slice_begin(payload@, span.table_start as int, s),
                span.data_start + payload::slice_end(payload@, span.table_start as int, s),
            ),
{
    let ghost n = num_slices as nat;
    let ghost table = span.table_start as int;
    let total: usize = payload.len();
    let mut out: Vec<&'a [u8]> = Vec::new();
    let mut prev: usize = 0;
    let mut s: usize = 0;
    while s < num_slices
        invariant
            s <= num_slices,
            n == num_slices,
            table == span.table_start,
            total == payload@.len(),
            total >= 4,
            payload::plane_error(payload@, span.descriptor_start as int, n) is None,
            span.describes(payload@, span.descriptor_start as int, n),
            prev == payload::slice_begin(payload@, table, s as int),
            out@.len() == s,
            forall|k: int|
                0 <= k < s ==> (#[trigger] out@[k])@ == payload@.subrange(
                    span.data_start + payload::slice_begin(payload@, table, k),
                    span.data_start + payload::slice_end(payload@, table, k),
                ),
        decreases num_slices - s,
    {
        let end: usize = span.ends[s];
        proof {
            payload::lemma_offsets(payload@, table, n, s as int, n - 1);
        }
        out.push(
            vstd::slice::slice_subrange(payload, span.data_start + prev, span.data_start + end),
        );
        prev = end;
        s = s + 1;
    }
    out
}

/// Walks over a payload and builds the codebooks of its planes.
pub fn parse_payload<'a>(cfg: &StreamConfig, chunk_payload: &'a [u8]) -> (r: Result<
    ParsedFrame<'a>,
    Error,
>)
    ensures
        match r {
            Ok(f) => f.wf() && f.config() == *cfg && f.source() == chunk_payload@
                && payload::walk_error(
                chunk_payload@,
                cfg.extradata.slices(),
                cfg.fourcc.planes(),
                true,
            ) is None,
            Err(e) => payload::walk_error(
                chunk_payload@,
                cfg.extradata.slices(),
                cfg.fourcc.planes(),
                true,
            ) == Some(e),
        },
{
    let ghost data = chunk_payload@;
    let ghost n = cfg.extradata.slices();
    let ghost count = cfg.fourcc.planes();
    let num_slices: usize = cfg.num_slices();
    if chunk_payload.len() < 4 {
        return Err(Error::MissingFrameInfo);
    }
    let limit: usize = chunk_payload.len() - 4;
    let plane_count: usize = cfg.fourcc.plane_count();
    let mut offset: usize = 0;
    let mut planes: Vec<ParsedPlane<'a>> = Vec::new();
    let mut p: usize = 0;
    while p < plane_count
        invariant
            p <= plane_count,
            plane_count == count,
            count == cfg.fourcc.planes(),
            n == num_slices,
            n == cfg.extradata.slices(),
            1 <= num_slices <= 256,
            data == chunk_payload@,
            data.len() >= 4,
            limit == payload::info_offset(data),
            offset == payload::plane_offset(data, n, p as nat),
            offset <= limit,
            payload::planes_error(data, n, p as nat, true) is None,
            planes@.len() == p,
            forall|i: int|
                0 <= i < p ==> (#[trigger] planes@[i]).is_plane(*cfg, data, i as nat),
        decreases plane_count - p,
    {
        let (width, height) = cfg.fourcc.plane_dim(p, cfg.width, cfg.height);
        match payload::walk_plane(chunk_payload, offset, num_slices) {
            Err(e) => {
                proof {
                    payload::lemma_planes_error_grows(data, n, (p + 1) as nat, count, true);
                }
                return Err(e);
            },
            Ok(span) => {
                let code_length: [u8; 256] = read_descriptor(chunk_payload, offset);
                let slice_bytes: Vec<&'a [u8]> = split_slices(chunk_payload, &span, num_slices);
                match HuffmanTable::build(&code_length) {
                    Err(e) => {
                        proof {
                            payload::lemma_planes_error_grows(
                                data,
                                n,
                                (p + 1) as nat,
                                count,
                                true,
                            );
                        }
                        return Err(e);
                    },
                    Ok(table) => {
                        proof {
                            payload::lemma_offsets(
                                data,
                                span.table_start as int,
                                n,
                                n - 1,
                                n - 1,
                            );
                        }
                        let plane = ParsedPlane { width, height, table, slice_bytes };
                        assert(plane.is_plane(*cfg, data, p as nat));
                        planes.push(plane);
                        offset = span.data_start + span.ends[num_slices - 1];
                    },
                }
            },
        }
        p = p + 1;
    }
    if offset != limit {
        return Err(Error::ChunkTooShort { offset, needed: limit - offset, have: 0 });
    }
    let frame_info: u32 = payload::read_frame_info(chunk_payload);
    Ok(ParsedFrame { cfg: *cfg, payload: chunk_payload, planes, frame_info })
}

/// Results as mathematical values.
pub open spec fn outcomes(v: Seq<Result<Vec<u8>, Error>>) -> Seq<Result<Seq<u8>, Error>> {
    Seq::new(v.len(), |i: int| huffman::outcome_of(v[i]))
}

/// Joins the strips of a plane in the order of its slices. If strips failed,
/// the error of the first of them is returned.
pub fn join_strips(strips: Vec<Result<Vec<u8>, Error>>) -> (r: Result<Vec<u8>, Error>)
    ensures
        huffman::outcome_of(r) == joined(outcomes(strips@), strips@.len()),
{
    let ghost all = outcomes(strips@);
    let mut rest: Vec<Result<Vec<u8>, Error>> = strips;
    let mut out: Vec<u8> = Vec::new();
    let mut i: usize = 0;
    proof {
        assert(out@ =~= Seq::<u8>::empty());
    }
    while i < rest.len()
        invariant
            rest@ == strips@,
            i <= rest@.len(),
            all == outcomes(rest@),
            joined(all, i as nat) == Ok::<Seq<u8>, Error>(out@),
        decreases rest@.len() - i,
    {
        let failed: bool = match &rest[i] {
            Ok(v) => {
                bytes::push_bytes(&mut out, v.as_slice());
                false
            },
            Err(_) => true,
        };
        assert(all[i as int] == huffman::outcome_of(rest@[i as int]));
        if failed {
            proof {
                lemma_joined_error_grows(all, (i + 1) as nat, rest@.len());
            }
            return rest.swap_remove(i);
        }
        i = i + 1;
    }
    Ok(out)
}

impl<'a> ParsedFrame<'a> {
    /// The configuration that the payload was read with.
    pub closed spec fn config(&self) -> StreamConfig {
        self.cfg
    }

    /// The payload.
    pub closed spec fn source(&self) -> Seq<u8> {
        self.payload@
    }

    /// The structure is that of the payload.
    pub closed spec fn wf(&self) -> bool {
        &&& payload::walk_error(
            self.payload@,
            self.cfg.extradata.slices(),
            self.cfg.fourcc.planes(),
            true,
        ) is None
        &&& self.frame_info == payload::frame_info(self.payload@)
        &&& self.planes@.len() == self.cfg.fourcc.planes()
        &&& forall|p: int|
            0 <= p < self.planes@.len() ==> (#[trigger] self.planes@[p]).is_plane(
                self.cfg,
                self.payload@,
                p as nat,
            )
    }

    /// Decodes slice `s` of plane `p` and restores its samples.
    pub fn decode_strip(&self, p: usize, s: usize, strict: bool) -> (r: Result<Vec<u8>, Error>)
        requires
            self.wf(),
            addressable(self.config()),
            8 * self.source().len() <= usize::MAX,
            p < self.config().fourcc.planes(),
            s < self.config().extradata.slices(),
        ensures
            huffman::outcome_of(r) == strip_outcome(
                self.config(),
                self.source(),
                p as nat,
                s as int,
                strict,
            ),
    {
        let plane: &ParsedPlane = &self.planes[p];
        let num_slices: usize = self.cfg.num_slices();
        let width: usize = plane.width as usize;
        let height: usize = plane.height as usize;
        let ghost n = num_slices as nat;
        let ghost data = self.payload@;
        proof {
            assert(plane.is_plane(self.cfg, data, p as nat));
            lemma_addressable(self.cfg, p as nat);
            payload::lemma_planes_inside(data, n, self.cfg.fourcc.planes(), p as nat, true);
            payload::lemma_offsets(
                data,
                payload::plane_offset(data, n, p as nat) + 256,
                n,
                s as int,
                n - 1,
            );
        }
        let (r_start, r_end) = predict::slice_rows(height, num_slices, s);
        let rows: usize = r_end - r_start;
        proof {
            assert(rows * width <= height * width) by (nonlinear_arith)
                requires
                    0 <= rows <= height,
                    0 <= width,
            ;
            lemma_mul_is_commutative(height as int, width as int);
            lemma_mul_is_commutative(rows as int, width as int);
        }
        let n_pixels: usize = rows * width;
        if n_pixels == 0 {
            let none: Vec<u8> = Vec::new();
            proof {
                assert(none@ =~= Seq::<u8>::empty());
            }
            return Ok(none);
        }
        let slice_bytes: &[u8] = plane.slice_bytes[s];
        assert(slice_bytes@ == payload::slice_data(data, n, p as nat, s as int));
        let decoded: Result<Vec<u8>, Error> = if strict {
            plane.table.decode_slice_strict(slice_bytes, n_pixels, p, s)
        } else {
            plane.table.decode_slice(slice_bytes, n_pixels)
        };
        match decoded {
            Err(e) => Err(e),
            Ok(residuals) => {
                proof {
                    lemma_outcome_len(
                        payload::descriptor(data, n, p as nat),
                        slice_bytes@,
                        n_pixels as nat,
                    );
                }
                let predictor: Predictor = Predictor::from_frame_info(self.frame_info);
                let mut strip: Vec<u8> = bytes::fill_bytes(0, n_pixels);
                predict::apply_slice(
                    predictor,
                    strip.as_mut_slice(),
                    width,
                    rows,
                    residuals.as_slice(),
                );
                Ok(strip)
            },
        }
    }

    /// Decodes plane `p`, one slice after the other; stops at the first slice
    /// that fails.
    fn decode_plane_serial(&self, p: usize, strict: bool) -> (r: Result<Vec<u8>, Error>)
        requires
            self.wf(),
            addressable(self.config()),
            8 * self.source().len() <= usize::MAX,
            p < self.config().fourcc.planes(),
        ensures
            huffman::outcome_of(r) == plane_outcome(
                self.config(),
                self.source(),
                p as nat,
                strict,
            ),
    {
        let num_slices: usize = self.cfg.num_slices();
        let ghost all = strips(self.cfg, self.payload@, p as nat, strict);
        let mut out: Vec<u8> = Vec::new();
        let mut s: usize = 0;
        proof {
            assert(out@ =~= Seq::<u8>::empty());
        }
        while s < num_slices
            invariant
                s <= num_slices,
                num_slices == self.cfg.extradata.slices(),
                self.wf(),
                addressable(self.config()),
                8 * self.source().len() <= usize::MAX,
                p < self.config().fourcc.planes(),
                all == strips(self.cfg, self.payload@, p as nat, strict),
                joined(all, s as nat) == Ok::<Seq<u8>, Error>(out@),
            decreases num_slices - s,
        {
            match self.decode_strip(p, s, strict) {
                Err(e) => {
                    proof {
                        lemma_joined_error_grows(all, (s + 1) as nat, num_slices as nat);
                    }
                    return Err(e);
                },
                Ok(strip) => {
                    bytes::push_bytes(&mut out, strip.as_slice());
                },
            }
            s = s + 1;
        }
        Ok(out)
    }

    /// Decodes every slice of plane `p` on its own and joins the strips.
    fn decode_plane_parallel(&self, p: usize) -> (r: Result<Vec<u8>, Error>)
        requires
            self.wf(),
            addressable(self.config()),
            8 * self.source().len() <= usize::MAX,
            p < self.config().fourcc.planes(),
        ensures
            huffman::outcome_of(r) == plane_outcome(
                self.config(),
                self.source(),
                p as nat,
                false,
            ),
    {
        let num_slices: usize = self.cfg.num_slices();
        let ghost all = strips(self.cfg, self.payload@, p as nat, false);
        let mut results: Vec<Result<Vec<u8>, Error>> = Vec::new();
        let mut s: usize = 0;
        while s < num_slices
            invariant
                s <= num_slices,
                num_slices == self.cfg.extradata.slices(),
                self.wf(),
                addressable(self.config()),
                8 * self.source().len() <= usize::MAX,
                p < self.config().fourcc.planes(),
                all == strips(self.cfg, self.payload@, p as nat, false),
                results@.len() == s,
                forall|i: int|
                    0 <= i < s ==> huffman::outcome_of(#[trigger] results@[i]) == all[i],
            decreases num_slices - s,
        {
            let r: Result<Vec<u8>, Error> = self.decode_strip(p, s, false);
            results.push(r);
            s = s + 1;
        }
        proof {
            assert(outcomes(results@) =~= all);
        }
        join_strips(results)
    }

    /// Assembles the frame from the samples of its planes.
    pub fn finish(self, planes: Vec<Vec<u8>>) -> (f: DecodedFrame)
        requires
            self.wf(),
            planes@.len() == self.config().fourcc.planes(),
            self.config().fourcc.is_rgb() ==> planes@[1]@.len() == planes@[0]@.len()
                && planes@[2]@.len() == planes@[0]@.len(),
        ensures
            headed(f, self.config(), self.source()),
            samples_of(f.planes@) == recolored(
                self.config().fourcc,
                predict::views(planes@),
            ),
    {
        let cfg: StreamConfig = self.cfg;
        let frame_info: u32 = self.frame_info;
        let planes: Vec<Vec<u8>> = recolor(cfg.fourcc, planes);
        let ghost all = predict::views(planes@);
        let mut rest: Vec<Vec<u8>> = planes;
        let mut out: Vec<DecodedPlane> = Vec::new();
        let plane_count: usize = cfg.fourcc.plane_count();
        let mut p: usize = 0;
        proof {
            assert(all.skip(0) =~= all);
        }
        while p < plane_count
            invariant
                p <= plane_count,
                plane_count == cfg.fourcc.planes(),
                all.len() == plane_count,
                rest@.len() == plane_count - p,
                predict::views(rest@) == all.skip(p as int),
                out@.len() == p,
                samples_of(out@) == all.take(p as int),
                forall|i: int|
                    0 <= i < p ==> {
                        &&& (#[trigger] out@[i]).label == PlaneLabel::label_of(cfg.fourcc, i)
                        &&& (out@[i].width, out@[i].height) == cfg.fourcc.dims(
                            i,
                            cfg.width,
                            cfg.height,
                        )
                    },
            decreases plane_count - p,
        {
            let (width, height) = cfg.fourcc.plane_dim(p, cfg.width, cfg.height);
            let ghost was_rest = rest@;
            let ghost was = out@;
            let samples: Vec<u8> = rest.remove(0);
            proof {
                assert(samples@ == predict::views(was_rest)[0]);
                assert(predict::views(rest@) =~= all.skip(p + 1)) by {
                    assert forall|i: int| 0 <= i < rest@.len() implies predict::views(rest@)[i]
                        == all.skip(p + 1)[i] by {
                        assert(rest@[i] == was_rest[i + 1]);
                        assert(predict::views(was_rest)[i + 1] == all.skip(p as int)[i + 1]);
                    }
                }
            }
            let plane = DecodedPlane {
                label: PlaneLabel::for_fourcc(cfg.fourcc, p),
                width,
                height,
                samples,
            };
            out.push(plane);
            proof {
                assert(samples_of(out@) =~= samples_of(was).push(samples@));
                assert(all.take(p + 1) =~= all.take(p as int).push(all[p as int]));
            }
            p = p + 1;
        }
        proof {
            assert(all.take(plane_count as int) =~= all);
        }
        DecodedFrame {
            fourcc: cfg.fourcc,
            width: cfg.width,
            height: cfg.height,
            predictor: Predictor::from_frame_info(frame_info),
            planes: out,
            frame_info,
        }
    }
}

/// Undoes the decorrelation of RGB planes; other planes stay as they are.
fn recolor(fourcc: Fourcc, planes: Vec<Vec<u8>>) -> (out: Vec<Vec<u8>>)
    requires
        planes@.len() == fourcc.planes(),
        fourcc.is_rgb() ==> planes@[1]@.len() == planes@[0]@.len() && planes@[2]@.len()
            == planes@[0]@.len(),
    ensures
        predict::views(out@) == recolored(fourcc, predict::views(planes@)),
{
    let ghost all = predict::views(planes@);
    let mut planes: Vec<Vec<u8>> = planes;
    if fourcc.is_rgb_family() {
        let mut blue: Vec<u8> = planes.remove(1);
        let mut red: Vec<u8> = planes.remove(1);
        predict::inverse_decorrelate_rgb(
            planes[0].as_slice(),
            blue.as_mut_slice(),
            red.as_mut_slice(),
        );
        planes.insert(1, red);
        planes.insert(1, blue);
        proof {
            assert(predict::views(planes@) =~= recolored(fourcc, all));
        }
    }
    planes
}

/// Decodes the planes of a payload and assembles the frame.
fn finish_decode(cfg: &StreamConfig, chunk_payload: &[u8], parallel: bool, strict: bool) -> (r:
    Result<DecodedFrame, Error>)
    requires
        decodable(*cfg, chunk_payload@),
        parallel ==> !strict,
    ensures
        decodes(r, *cfg, chunk_payload@, strict),
{
    let ghost data = chunk_payload@;
    let parsed: ParsedFrame = match parse_payload(cfg, chunk_payload) {
        Err(e) => {
            return Err(e);
        },
        Ok(f) => f,
    };
    let plane_count: usize = cfg.fourcc.plane_count();
    let several: bool = cfg.num_slices() > 1;
    let mut planes: Vec<Vec<u8>> = Vec::new();
    let mut p: usize = 0;
    proof {
        assert(predict::views(planes@) =~= Seq::<Seq<u8>>::empty());
    }
    while p < plane_count
        invariant
            p <= plane_count,
            plane_count == cfg.fourcc.planes(),
            data == chunk_payload@,
            parsed.wf(),
            parsed.config() == *cfg,
            parsed.source() == data,
            addressable(*cfg),
            8 * data.len() <= usize::MAX,
            parallel ==> !strict,
            payload::walk_error(
                data,
                cfg.extradata.slices(),
                cfg.fourcc.planes(),
                true,
            ) is None,
            planes@.len() == p,
            planes_outcome(*cfg, data, p as nat, strict) == Ok::<Seq<Seq<u8>>, Error>(
                predict::views(planes@),
            ),
            forall|i: int|
                0 <= i < p ==> (#[trigger] planes@[i])@.len() == cfg.fourcc.dims(
                    i,
                    cfg.width,
                    cfg.height,
                ).0 * cfg.fourcc.dims(i, cfg.width, cfg.height).1,
        decreases plane_count - p,
    {
        let decoded: Result<Vec<u8>, Error> = if parallel && several {
            parsed.decode_plane_parallel(p)
        } else {
            parsed.decode_plane_serial(p, strict)
        };
        match decoded {
            Err(e) => {
                proof {
                    lemma_planes_outcome_error_grows(
                        *cfg,
                        data,
                        (p + 1) as nat,
                        plane_count as nat,
                        strict,
                    );
                }
                return Err(e);
            },
            Ok(samples) => {
                let ghost was = planes@;
                proof {
                    lemma_plane_len(*cfg, data, p as nat, strict);
                }
                planes.push(samples);
                proof {
                    assert(predict::views(planes@) =~= predict::views(was).push(samples@));
                }
            },
        }
        p = p + 1;
    }
    let frame: DecodedFrame = parsed.finish(planes);
    Ok(frame)
}

/// An error among the first planes stays the error.
pub proof fn lemma_planes_outcome_error_grows(
    cfg: StreamConfig,
    payload: Seq<u8>,
    j: nat,
    k: nat,
    strict: bool,
)
    requires
        j <= k,
        planes_outcome(cfg, payload, j, strict) is Err,
    ensures
        planes_outcome(cfg, payload, k, strict) == planes_outcome(cfg, payload, j, strict),
    decreases k,
{
    if j < k {
        lemma_planes_outcome_error_grows(cfg, payload, j, (k - 1) as nat, strict);
    }
}

/// Decodes a frame. Large frames of several slices are decoded slice by slice
/// and joined; the result is the same.
pub fn decode_frame(cfg: &StreamConfig, chunk_payload: &[u8]) -> (r: Result<DecodedFrame, Error>)
    requires
        decodable(*cfg, chunk_payload@),
    ensures
        decodes(r, *cfg, chunk_payload@, false),
{
    proof {
        let w = cfg.width as int;
        let h = cfg.height as int;
        assert(0 <= w * h <= 0xffff_ffff * 0xffff_ffff) by (nonlinear_arith)
            requires
                0 <= w <= 0xffff_ffff,
                0 <= h <= 0xffff_ffff,
        ;
    }
    let total: u64 = cfg.width as u64 * cfg.height as u64;
    if cfg.num_slices() > 1 && total >= PARALLEL_PIXEL_THRESHOLD as u64 {
        decode_frame_parallel(cfg, chunk_payload)
    } else {
        decode_frame_serial(cfg, chunk_payload)
    }
}

/// Decodes a frame one slice after the other.
pub fn decode_frame_serial(cfg: &StreamConfig, chunk_payload: &[u8]) -> (r: Result<
    DecodedFrame,
    Error,
>)
    requires
        decodable(*cfg, chunk_payload@),
    ensures
        decodes(r, *cfg, chunk_payload@, false),
{
    finish_decode(cfg, chunk_payload, false, false)
}

/// Decodes every slice of a frame on its own and joins the strips.
pub fn decode_frame_parallel(cfg: &StreamConfig, chunk_payload: &[u8]) -> (r: Result<
    DecodedFrame,
    Error,
>)
    requires
        decodable(*cfg, chunk_payload@),
    ensures
        decodes(r, *cfg, chunk_payload@, false),
{
    finish_decode(cfg, chunk_payload, true, false)
}

/// Decodes a frame and rejects slices whose padding is not zero.
pub fn decode_frame_strict(cfg: &StreamConfig, chunk_payload: &[u8]) -> (r: Result<
    DecodedFrame,
    Error,
>)
    requires
        decodable(*cfg, chunk_payload@),
    ensures
        decodes(r, *cfg, chunk_payload@, true),
{
    finish_decode(cfg, chunk_payload, false, true)
}

} // verus!
