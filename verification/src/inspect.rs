//! Frame inspector: where everything stands in a frame's payload, and what its
//! descriptors say, without decoding anything.

use crate::bitstream;
use crate::canonical;
use crate::decoder;
use crate::error::Error;
use crate::fourcc::{Predictor, StreamConfig};
use crate::huffman;
use crate::payload;
use crate::payload::PlaneSpan;
use crate::predict;
use vstd::arithmetic::div_mod::*;
use vstd::arithmetic::mul::*;
use vstd::arithmetic::power2::*;
use vstd::prelude::*;

verus! {

/// Where one slice stands and what it covers.
#[derive(Debug, Clone, Copy, PartialEq, Eq)]
pub struct SliceLayout {
    /// Offset of the first byte of the slice.
    pub start: usize,
    /// Offset just past the last byte of the slice.
    pub end: usize,
    /// First row of the slice.
    pub row_start: u32,
    /// One past the last row of the slice.
    pub row_end: u32,
    /// Number of samples of the slice.
    pub pixel_count: u32,
}

impl SliceLayout {
    /// Length of the slice in bytes.
    pub fn len(&self) -> (n: usize)
        requires
            self.start <= self.end,
        ensures
            n == self.end - self.start,
    {
        self.end - self.start
    }

    /// True if the slice has no bytes.
    pub fn is_empty(&self) -> (b: bool)
        ensures
            b == (self.start == self.end),
    {
        self.start == self.end
    }

    /// Number of rows of the slice.
    pub fn row_count(&self) -> (n: u32)
        requires
            self.row_start <= self.row_end,
        ensures
            n == self.row_end - self.row_start,
    {
        self.row_end - self.row_start
    }
}

/// Where one plane stands and what its descriptor says.
#[derive(Debug, Clone, PartialEq, Eq)]
pub struct PlaneLayout {
    /// Number of the plane on the wire.
    pub plane_idx: usize,
    /// Width of the plane in samples.
    pub width: u32,
    /// Height of the plane in samples.
    pub height: u32,
    /// Offset of the 256-byte descriptor.
    pub descriptor_start: usize,
    /// Offset of the table of slice end offsets.
    pub end_offsets_start: usize,
    /// Offset of the slice data.
    pub slice_data_start: usize,
    /// The slices in order.
    pub slices: Vec<SliceLayout>,
    /// One symbol has length zero and all others are unused.
    pub is_single_symbol: bool,
    /// Number of symbols with a code.
    pub active_symbol_count: u32,
    /// Greatest code length; zero without codes.
    pub max_code_length: u8,
    /// Least code length; zero without codes.
    pub min_code_length: u8,
    /// Number of symbols with the least code length.
    pub min_code_length_symbol_count: u32,
    /// The lengths in use, rising, each with the number of symbols that have
    /// it.
    pub code_length_histogram: Vec<(u8, u32)>,
}

/// Where everything stands in a frame.
#[derive(Debug, Clone, PartialEq, Eq)]
pub struct FrameLayout {
    /// The planes in wire order.
    pub planes: Vec<PlaneLayout>,
    /// The frame-info word.
    pub frame_info: u32,
    /// The predictor that the frame-info word names.
    pub predictor: Predictor,
    /// Number of slices per plane.
    pub num_slices: usize,
}

/// How many of the first `n` symbols have a code of at most `top` bits.
pub open spec fn coded_tally(d: Seq<u8>, top: int, n: nat) -> nat
    decreases n,
{
    if n == 0 {
        0
    } else {
        coded_tally(d, top, (n - 1) as nat) + if 1 <= d[n - 1] <= top {
            1nat
        } else {
            0nat
        }
    }
}

/// The number of symbols with a code.
pub open spec fn active_count(d: Seq<u8>) -> nat {
    coded_tally(d, 254, 256)
}

/// `m` is the least length of a code.
pub open spec fn is_shortest(d: Seq<u8>, m: u8) -> bool {
    &&& exists|s: int| 0 <= s < 256 && canonical::is_active(d[s]) && #[trigger] d[s] == m
    &&& forall|s: int| 0 <= s < 256 && canonical::is_active(#[trigger] d[s]) ==> m <= d[s]
}

/// The lengths of at most `top` that are in use, rising, with their counts.
pub open spec fn length_histogram(d: Seq<u8>, top: nat) -> Seq<(u8, u32)>
    decreases top,
{
    if top == 0 {
        Seq::empty()
    } else if canonical::count(d, top as int) > 0 {
        length_histogram(d, (top - 1) as nat).push(
            (top as u8, canonical::count(d, top as int) as u32),
        )
    } else {
        length_histogram(d, (top - 1) as nat)
    }
}

/// A layout says of a descriptor what is in it.
pub open spec fn summarizes(l: PlaneLayout, d: Seq<u8>) -> bool {
    &&& l.is_single_symbol == (canonical::count(d, 0) == 1 && canonical::count(d, 255) == 255)
    &&& l.active_symbol_count == active_count(d)
    &&& if canonical::has_active(d) {
        huffman::is_longest(d, l.max_code_length) && is_shortest(d, l.min_code_length)
    } else {
        l.max_code_length == 0 && l.min_code_length == 0
    }
    &&& l.min_code_length_symbol_count == (if l.min_code_length == 0 {
        0
    } else {
        canonical::count(d, l.min_code_length as int)
    })
    &&& l.code_length_histogram@ == length_histogram(d, 254)
}

/// A slice layout belongs to slice `s` of plane `p`.
pub open spec fn slice_located(
    l: SliceLayout,
    cfg: StreamConfig,
    data: Seq<u8>,
    p: nat,
    s: int,
) -> bool {
    let n = cfg.extradata.slices();
    let o = payload::plane_offset(data, n, p);
    let (w, h) = cfg.fourcc.dims(p as int, cfg.width, cfg.height);
    &&& l.start == payload::data_start(o, n) + payload::slice_begin(data, o + 256, s)
    &&& l.end == payload::data_start(o, n) + payload::slice_end(data, o + 256, s)
    &&& l.row_start == predict::row_start(h as int, n as int, s)
    &&& l.row_end == predict::row_start(h as int, n as int, s + 1)
    &&& l.pixel_count == predict::row_count(h as int, n as int, s) * w
}

/// A layout belongs to plane `p`.
pub open spec fn plane_located(l: PlaneLayout, cfg: StreamConfig, data: Seq<u8>, p: nat) -> bool {
    let n = cfg.extradata.slices();
    let o = payload::plane_offset(data, n, p);
    &&& l.plane_idx == p
    &&& (l.width, l.height) == cfg.fourcc.dims(p as int, cfg.width, cfg.height)
    &&& l.descriptor_start == o
    &&& l.end_offsets_start == o + 256
    &&& l.slice_data_start == payload::data_start(o, n)
    &&& l.slices@.len() == n
    &&& forall|s: int|
        0 <= s < n ==> slice_located(#[trigger] l.slices@[s], cfg, data, p, s)
    &&& summarizes(l, payload::descriptor(data, n, p))
}

/// A layout belongs to a payload.
pub open spec fn frame_located(f: FrameLayout, cfg: StreamConfig, data: Seq<u8>) -> bool {
    &&& f.frame_info == payload::frame_info(data)
    &&& f.predictor == decoder::predictor_of(data)
    &&& f.num_slices == cfg.extradata.slices()
    &&& f.planes@.len() == cfg.fourcc.planes()
    &&& forall|p: int|
        0 <= p < f.planes@.len() ==> plane_located(#[trigger] f.planes@[p], cfg, data, p as nat)
}

/// The number of samples of slice `s` of plane `p` fits its field.
pub open spec fn pixels_fit(cfg: StreamConfig, p: int, s: int) -> bool {
    let (w, h) = cfg.fourcc.dims(p, cfg.width, cfg.height);
    predict::row_count(h as int, cfg.extradata.slices() as int, s) * w <= u32::MAX
}

/// Reads the frame-info word and the predictor that it names.
pub fn peek_frame_info(chunk_payload: &[u8]) -> (r: Result<(u32, Predictor), Error>)
    ensures
        r == (if chunk_payload@.len() < 4 {
            Err::<(u32, Predictor), Error>(Error::MissingFrameInfo)
        } else {
            Ok(
                (
                    payload::frame_info(chunk_payload@) as u32,
                    decoder::predictor_of(chunk_payload@),
                ),
            )
        }),
{
    if chunk_payload.len() < 4 {
        return Err(Error::MissingFrameInfo);
    }
    let frame_info: u32 = payload::read_frame_info(chunk_payload);
    Ok((frame_info, Predictor::from_frame_info(frame_info)))
}

/// Symbols are unused, the only one, or have a code.
pub proof fn lemma_tallies(d: Seq<u8>, n: nat)
    ensures
        coded_tally(d, 254, n) + canonical::tally(d, 0, n) + canonical::tally(d, 255, n) == n,
    decreases n,
{
    if n > 0 {
        lemma_tallies(d, (n - 1) as nat);
    }
}

/// The shortest code length in use, or zero.
fn shortest_active(code_length: &[u8; 256]) -> (m: u8)
    ensures
        m == 0 ==> !canonical::has_active(code_length@),
        m != 0 ==> is_shortest(code_length@, m),
{
    let mut m: u8 = 0;
    let mut i: usize = 0;
    while i < 256
        invariant
            i <= 256,
            m != 0 ==> exists|s: int|
                0 <= s < 256 && canonical::is_active(code_length@[s]) && #[trigger] code_length@[s]
                    == m,
            forall|s: int|
                0 <= s < i && canonical::is_active(#[trigger] code_length@[s]) ==> m != 0 && m
                    <= code_length@[s],
        decreases 256 - i,
    {
        let l: u8 = code_length[i];
        if l != 0 && l != 255 && (m == 0 || l < m) {
            m = l;
            assert(code_length@[i as int] == m);
        }
        i = i + 1;
    }
    m
}

/// The lengths in use, rising, with their counts.
fn build_histogram(code_length: &[u8; 256], counts: &[usize; 256]) -> (hist: Vec<(u8, u32)>)
    requires
        forall|l: int| 0 <= l < 256 ==> #[trigger] counts@[l] == canonical::count(code_length@, l),
    ensures
        hist@ == length_histogram(code_length@, 254),
{
    let mut hist: Vec<(u8, u32)> = Vec::new();
    let mut l: usize = 1;
    while l <= 254
        invariant
            1 <= l <= 255,
            forall|k: int|
                0 <= k < 256 ==> #[trigger] counts@[k] == canonical::count(code_length@, k),
            hist@ == length_histogram(code_length@, (l - 1) as nat),
        decreases 255 - l,
    {
        proof {
            canonical::lemma_tally_monotone(code_length@, l as int, 0, 256);
        }
        if counts[l] > 0 {
            hist.push((l as u8, counts[l] as u32));
        }
        l = l + 1;
    }
    hist
}

/// Describes the slices of a plane.
fn describe_slices(span: &PlaneSpan, width: u32, height: u32, num_slices: usize) -> (out: Vec<
    SliceLayout,
>)
    requires
        1 <= num_slices <= 256,
        span.ends@.len() == num_slices,
        forall|s: int|
            0 <= s < num_slices ==> span.data_start + (#[trigger] span.ends@[s]) <= usize::MAX,
        forall|s: int|
            0 <= s < num_slices ==> #[trigger] predict::row_count(
                height as int,
                num_slices as int,
                s,
            ) * width <= u32::MAX,
    ensures
        out@.len() == num_slices,
        forall|s: int|
            0 <= s < num_slices ==> {
                &&& (#[trigger] out@[s]).start == span.data_start + (if s == 0 {
                    0
                } else {
                    span.ends@[s - 1] as int
                })
                &&& out@[s].end == span.data_start + span.ends@[s]
                &&& out@[s].row_start == predict::row_start(height as int, num_slices as int, s)
                &&& out@[s].row_end == predict::row_start(height as int, num_slices as int, s + 1)
                &&& out@[s].pixel_count == predict::row_count(
                    height as int,
                    num_slices as int,
                    s,
                ) * width
            },
{
    let mut out: Vec<SliceLayout> = Vec::new();
    let mut prev: usize = 0;
    let mut s: usize = 0;
    while s < num_slices
        invariant
            s <= num_slices,
            1 <= num_slices <= 256,
            span.ends@.len() == num_slices,
            forall|s: int|
                0 <= s < num_slices ==> span.data_start + (#[trigger] span.ends@[s]) <= usize::MAX,
            forall|s: int|
                0 <= s < num_slices ==> #[trigger] predict::row_count(
                    height as int,
                    num_slices as int,
                    s,
                ) * width <= u32::MAX,
            prev == (if s == 0 {
                0
            } else {
                span.ends@[s - 1] as int
            }),
            out@.len() == s,
            forall|s: int|
                0 <= s < out@.len() ==> {
                    &&& (#[trigger] out@[s]).start == span.data_start + (if s == 0 {
                        0
                    } else {
                        span.ends@[s - 1] as int
                    })
                    &&& out@[s].end == span.data_start + span.ends@[s]
                    &&& out@[s].row_start == predict::row_start(
                        height as int,
                        num_slices as int,
                        s,
                    )
                    &&& out@[s].row_end == predict::row_start(
                        height as int,
                        num_slices as int,
                        s + 1,
                    )
                    &&& out@[s].pixel_count == predict::row_count(
                        height as int,
                        num_slices as int,
                        s,
                    ) * width
                },
        decreases num_slices - s,
    {
        let end: usize = span.ends[s];
        proof {
            let h = height as int;
            let n = num_slices as int;
            predict::law_rows_partition(h, n, s as int);
            assert(0 <= h * s && h * (s + 1) <= 0x1_0000_0000 * 256) by (nonlinear_arith)
                requires
                    0 <= h <= 0xffff_ffff,
                    0 <= s < 256,
            ;
            assert(h * s <= h * (s + 1)) by (nonlinear_arith)
                requires
                    0 <= h,
            ;
            assert(predict::row_count(h, n, s as int) * width <= u32::MAX);
            lemma_mul_nonnegative(predict::row_count(h, n, s as int), width as int);
        }
        let row_start: u64 = (height as u64 * s as u64) / num_slices as u64;
        let row_end: u64 = (height as u64 * (s as u64 + 1)) / num_slices as u64;
        let rows: u32 = (row_end - row_start) as u32;
        if s > 0 {
            assert(span.data_start + span.ends@[s - 1] <= usize::MAX);
        }
        out.push(
            SliceLayout {
                start: span.data_start + prev,
                end: span.data_start + end,
                row_start: row_start as u32,
                row_end: row_end as u32,
                pixel_count: rows * width,
            },
        );
        prev = end;
        s = s + 1;
    }
    out
}

/// Walks over a payload and says where everything stands, without building a
/// codebook or decoding a slice.
pub fn peek_frame(cfg: &StreamConfig, chunk_payload: &[u8]) -> (r: Result<FrameLayout, Error>)
    requires
        forall|p: nat, s: int|
            p < cfg.fourcc.planes() && 0 <= s < cfg.extradata.slices() && payload::planes_error(
                chunk_payload@,
                cfg.extradata.slices(),
                p + 1,
                false,
            ) is None ==> #[trigger] pixels_fit(*cfg, p as int, s),
    ensures
        match r {
            Ok(f) => payload::walk_error(
                chunk_payload@,
                cfg.extradata.slices(),
                cfg.fourcc.planes(),
                false,
            ) is None && frame_located(f, *cfg, chunk_payload@),
            Err(e) => payload::walk_error(
                chunk_payload@,
                cfg.extradata.slices(),
                cfg.fourcc.planes(),
                false,
            ) == Some(e),
        },
{
    let ghost data = chunk_payload@;
    let ghost n = cfg.extradata.slices();
    let ghost count = cfg.fourcc.planes();
    let num_slices: usize = cfg.num_slices();
    if chunk_payload.len() < 4 {
        return Err(Error::MissingFrameInfo);
    }
    let limit: usize = chunk_payload.len() - 4;
    let plane_count: usize = cfg.fourcc.plane_count();
    let mut offset: usize = 0;
    let mut planes: Vec<PlaneLayout> = Vec::new();
    let mut p: usize = 0;
    while p < plane_count
        invariant
            p <= plane_count,
            plane_count == count,
            count == cfg.fourcc.planes(),
            n == num_slices,
            n == cfg.extradata.slices(),
            1 <= num_slices <= 256,
            data == chunk_payload@,
            data.len() >= 4,
            limit == payload::info_offset(data),
            offset == payload::plane_offset(data, n, p as nat),
            offset <= limit,
            payload::planes_error(data, n, p as nat, false) is None,
            forall|p: nat, s: int|
                p < count && 0 <= s < n && payload::planes_error(data, n, p + 1, false) is None
                    ==> #[trigger] pixels_fit(*cfg, p as int, s),
            planes@.len() == p,
            forall|i: int|
                0 <= i < p ==> plane_located(#[trigger] planes@[i], *cfg, data, i as nat),
        decreases plane_count - p,
    {
        let (width, height) = cfg.fourcc.plane_dim(p, cfg.width, cfg.height);
        match payload::walk_plane(chunk_payload, offset, num_slices) {
            Err(e) => {
                proof {
                    payload::lemma_planes_error_grows(data, n, (p + 1) as nat, count, false);
                }
                return Err(e);
            },
            Ok(span) => {
                let ghost table = span.table_start as int;
                proof {
                    assert forall|s: int| 0 <= s < n implies span.data_start + (
                    #[trigger] span.ends@[s]) <= limit by {
                        payload::lemma_offsets(data, table, n, s, n - 1);
                    }
                    assert forall|s: int| 0 <= s < n implies #[trigger] predict::row_count(
                        height as int,
                        n as int,
                        s,
                    ) * width <= u32::MAX by {
                        assert(payload::planes_error(data, n, (p as nat) + 1, false) is None);
                        assert(pixels_fit(*cfg, (p as nat) as int, s));
                    }
                }
                let layout: PlaneLayout = describe_plane(
                    chunk_payload,
                    &span,
                    p,
                    width,
                    height,
                    num_slices,
                );
                assert(plane_located(layout, *cfg, data, p as nat));
                planes.push(layout);
                offset = span.data_start + span.ends[num_slices - 1];
            },
        }
        p = p + 1;
    }
    if offset != limit {
        return Err(Error::ChunkTooShort { offset, needed: limit - offset, have: 0 });
    }
    let frame_info: u32 = payload::read_frame_info(chunk_payload);
    Ok(
        FrameLayout {
            planes,
            frame_info,
            predictor: Predictor::from_frame_info(frame_info),
            num_slices,
        },
    )
}

/// Describes a plane.
fn describe_plane(
    chunk_payload: &[u8],
    span: &PlaneSpan,
    plane_idx: usize,
    width: u32,
    height: u32,
    num_slices: usize,
) -> (l: PlaneLayout)
    requires
        1 <= num_slices <= 256,
        span.descriptor_start + 256 <= chunk_payload@.len(),
        span.ends@.len() == num_slices,
        forall|s: int|
            0 <= s < num_slices ==> span.data_start + (#[trigger] span.ends@[s]) <= usize::MAX,
        forall|s: int|
            0 <= s < num_slices ==> #[trigger] predict::row_count(
                height as int,
                num_slices as int,
                s,
            ) * width <= u32::MAX,
    ensures
        l.plane_idx == plane_idx,
        l.width == width,
        l.height == height,
        l.descriptor_start == span.descriptor_start,
        l.end_offsets_start == span.table_start,
        l.slice_data_start == span.data_start,
        l.slices@.len() == num_slices,
        forall|s: int|
            0 <= s < num_slices ==> {
                &&& (#[trigger] l.slices@[s]).start == span.data_start + (if s == 0 {
                    0
                } else {
                    span.ends@[s - 1] as int
                })
                &&& l.slices@[s].end == span.data_start + span.ends@[s]
                &&& l.slices@[s].row_start == predict::row_start(
                    height as int,
                    num_slices as int,
                    s,
                )
                &&& l.slices@[s].row_end == predict::row_start(
                    height as int,
                    num_slices as int,
                    s + 1,
                )
                &&& l.slices@[s].pixel_count == predict::row_count(
                    height as int,
                    num_slices as int,
                    s,
                ) * width
            },
        summarizes(
            l,
            chunk_payload@.subrange(
                span.descriptor_start as int,
                span.descriptor_start + 256,
            ),
        ),
{
    let d: [u8; 256] = decoder::read_descriptor(chunk_payload, span.descriptor_start);
    let counts: [usize; 256] = huffman::length_counts(&d);
    let max_code_length: u8 = huffman::longest_active(&d);
    let min_code_length: u8 = shortest_active(&d);
    proof {
        lemma_tallies(d@, 256);
        assert(counts@[0] == canonical::count(d@, 0));
        assert(counts@[255] == canonical::count(d@, 255));
        canonical::lemma_tally_monotone(d@, min_code_length as int, 0, 256);
        assert(counts@[min_code_length as int] == canonical::count(d@, min_code_length as int));
        if !canonical::has_active(d@) {
            if max_code_length != 0 || min_code_length != 0 {
                assert(false);
            }
        }
    }
    let slices: Vec<SliceLayout> = describe_slices(span, width, height, num_slices);
    PlaneLayout {
        plane_idx,
        width,
        height,
        descriptor_start: span.descriptor_start,
        end_offsets_start: span.table_start,
        slice_data_start: span.data_start,
        slices,
        is_single_symbol: counts[0] == 1 && counts[255] == 255,
        active_symbol_count: (256 - counts[0] - counts[255]) as u32,
        max_code_length,
        min_code_length,
        min_code_length_symbol_count: if min_code_length == 0 {
            0
        } else {
            counts[min_code_length as usize] as u32
        },
        code_length_histogram: build_histogram(&d, &counts),
    }
}

/// The samples of the first `k` slices.
pub open spec fn pixel_sum(slices: Seq<SliceLayout>, k: nat) -> nat
    decreases k,
{
    if k == 0 {
        0
    } else {
        pixel_sum(slices, (k - 1) as nat) + slices[k - 1].pixel_count as nat
    }
}

/// The Kraft sum of the first `k` tiers of a histogram, in units of 2^-max.
pub open spec fn kraft_total(hist: Seq<(u8, u32)>, max: int, k: nat) -> nat
    decreases k,
{
    if k == 0 {
        0
    } else {
        kraft_total(hist, max, (k - 1) as nat) + hist[k - 1].1 as nat * pow2(
            (max - hist[k - 1].0) as nat,
        )
    }
}

/// The symbols of the first `k` tiers of a histogram.
pub open spec fn symbol_total(hist: Seq<(u8, u32)>, k: nat) -> nat
    decreases k,
{
    if k == 0 {
        0
    } else {
        symbol_total(hist, (k - 1) as nat) + hist[k - 1].1 as nat
    }
}

/// A histogram lists rising lengths from one on, the last of which is `max`,
/// and its symbols can be counted.
pub open spec fn tiered(hist: Seq<(u8, u32)>, max: u8) -> bool {
    &&& forall|i: int, j: int|
        0 <= i < j < hist.len() ==> (#[trigger] hist[i]).0 < (#[trigger] hist[j]).0
    &&& forall|i: int| 0 <= i < hist.len() ==> 1 <= (#[trigger] hist[i]).0
    &&& hist.len() > 0 ==> hist.last().0 == max
    &&& symbol_total(hist, hist.len()) <= u32::MAX
}

proof fn lemma_kraft_monotone(hist: Seq<(u8, u32)>, max: int, j: nat, k: nat)
    requires
        j <= k <= hist.len(),
    ensures
        kraft_total(hist, max, j) <= kraft_total(hist, max, k),
    decreases k,
{
    if j < k {
        lemma_kraft_monotone(hist, max, j, (k - 1) as nat);
        lemma_mul_nonnegative(
            hist[k - 1].1 as int,
            pow2((max - hist[k - 1].0) as nat) as int,
        );
    }
}

/// Tiers shorter than `depth` fill whole units of the next shorter length.
proof fn lemma_kraft_divisible(hist: Seq<(u8, u32)>, max: int, depth: int, k: nat) -> (q: nat)
    requires
        k <= hist.len(),
        0 <= depth <= max,
        forall|i: int| 0 <= i < k ==> (#[trigger] hist[i]).0 < depth,
    ensures
        kraft_total(hist, max, k) == q * pow2((max - depth + 1) as nat),
    decreases k,
{
    let u = pow2((max - depth + 1) as nat) as int;
    if k == 0 {
        lemma_mul_basics_1(u);
        0
    } else {
        let r = lemma_kraft_divisible(hist, max, depth, (k - 1) as nat);
        let l = hist[k - 1].0 as int;
        assert(hist[k - 1].0 < depth);
        let c = hist[k - 1].1 as int;
        let e = (depth - 1 - l) as nat;
        lemma_pow2_adds(e, (max - depth + 1) as nat);
        let v = pow2(e) as int;
        assert(c * (v * u) == (c * v) * u) by (nonlinear_arith);
        assert((r + c * v) * u == r * u + (c * v) * u) by (nonlinear_arith);
        lemma_mul_nonnegative(c, v);
        (r + c * v) as nat
    }
}

/// 2^n as a 128-bit number.
fn wide_power_of_two(n: u32) -> (p: u128)
    requires
        n < 127,
    ensures
        p == pow2(n as nat),
{
    let a: u32 = n / 2;
    let b: u32 = n - a;
    proof {
        lemma_pow2_adds(a as nat, b as nat);
        let x = pow2(a as nat) as int;
        let y = pow2(b as nat) as int;
        lemma_mul_nonnegative(x, y);
        lemma2_to64_rest();
        if a < 63 {
            lemma_pow2_strictly_increases(a as nat, 63);
        }
        if b < 63 {
            lemma_pow2_strictly_increases(b as nat, 63);
        }
        assert(x * y <= 0x8000_0000_0000_0000 * 0x8000_0000_0000_0000) by (nonlinear_arith)
            requires
                0 <= x <= 0x8000_0000_0000_0000,
                0 <= y <= 0x8000_0000_0000_0000,
        ;
    }
    bitstream::power_of_two(a) as u128 * bitstream::power_of_two(b) as u128
}

/// `count` times 2^`shift`, or nothing if that is 2^128 or more.
fn shifted(count: u32, shift: u32) -> (r: Option<u128>)
    requires
        shift < 128,
    ensures
        match r {
            Some(v) => v == count * pow2(shift as nat),
            None => count * pow2(shift as nat) > u128::MAX,
        },
{
    if shift < 127 {
        (count as u128).checked_mul(wide_power_of_two(shift))
    } else {
        proof {
            lemma_pow2_unfold(127);
        }
        match (count as u128).checked_mul(wide_power_of_two(126)) {
            None => {
                proof {
                    let c = count as int;
                    let q = pow2(126) as int;
                    lemma_mul_nonnegative(c, q);
                    assert(c * (2 * q) == 2 * (c * q)) by (nonlinear_arith);
                }
                None
            },
            Some(v) => {
                proof {
                    let c = count as int;
                    let q = pow2(126) as int;
                    assert(c * (2 * q) == 2 * (c * q)) by (nonlinear_arith);
                }
                v.checked_mul(2)
            },
        }
    }
}

impl PlaneLayout {
    /// The number of bytes of slice data.
    pub open spec fn data_size(&self) -> int {
        if self.slices@.len() > 0 && self.slices@.last().end > self.slice_data_start {
            self.slices@.last().end - self.slice_data_start
        } else {
            0
        }
    }

    /// The number of bytes of slice data.
    pub fn slice_data_total(&self) -> (n: usize)
        ensures
            n == self.data_size(),
    {
        if self.slices.len() == 0 {
            return 0;
        }
        let end: usize = self.slices[self.slices.len() - 1].end;
        if end > self.slice_data_start {
            end - self.slice_data_start
        } else {
            0
        }
    }

    /// The number of bytes of the plane: descriptor, end offsets and slice
    /// data.
    pub fn total_size(&self) -> (n: usize)
        requires
            256 + 4 * self.slices@.len() + self.data_size() <= usize::MAX,
        ensures
            n == 256 + 4 * self.slices@.len() + self.data_size(),
    {
        256 + 4 * self.slices.len() + self.slice_data_total()
    }

    /// The number of samples of all slices.
    pub fn total_pixels(&self) -> (n: u64)
        requires
            pixel_sum(self.slices@, self.slices@.len()) <= u64::MAX,
        ensures
            n == pixel_sum(self.slices@, self.slices@.len()),
    {
        let mut sum: u64 = 0;
        let mut i: usize = 0;
        while i < self.slices.len()
            invariant
                i <= self.slices@.len(),
                sum == pixel_sum(self.slices@, i as nat),
                pixel_sum(self.slices@, self.slices@.len()) <= u64::MAX,
            decreases self.slices@.len() - i,
        {
            proof {
                lemma_pixels_monotone(self.slices@, (i + 1) as nat, self.slices@.len());
            }
            sum = sum + self.slices[i].pixel_count as u64;
            i = i + 1;
        }
        sum
    }

    /// The number of unused symbols.
    pub fn unused_symbol_count(&self) -> (n: u32)
        requires
            self.active_symbol_count + (if self.is_single_symbol {
                1int
            } else {
                0
            }) <= 256,
        ensures
            n == 256 - self.active_symbol_count - (if self.is_single_symbol {
                1int
            } else {
                0
            }),
    {
        let single: u32 = if self.is_single_symbol { 1 } else { 0 };
        256 - self.active_symbol_count - single
    }

    /// No length of the histogram is greater than the greatest length.
    pub open spec fn bounded(&self) -> bool {
        forall|i: int|
            0 <= i < self.code_length_histogram@.len() ==> (
            #[trigger] self.code_length_histogram@[i]).0 <= self.max_code_length
    }

    /// Some length of the histogram is 128 or more below the greatest length.
    pub open spec fn wide(&self) -> bool {
        exists|i: int|
            0 <= i < self.code_length_histogram@.len() && self.max_code_length - (
            #[trigger] self.code_length_histogram@[i]).0 >= 128
    }

    /// The Kraft sum in units of 2^-`max_code_length`.
    pub open spec fn kraft(&self) -> nat {
        kraft_total(
            self.code_length_histogram@,
            self.max_code_length as int,
            self.code_length_histogram@.len(),
        )
    }

    /// The Kraft sum of the code lengths in units of 2^-`max_code_length`, or
    /// the greatest 128-bit number if a term or the sum does not fit.
    pub fn kraft_numerator(&self) -> (n: u128)
        requires
            self.bounded(),
        ensures
            n == (if self.wide() || self.kraft() > u128::MAX {
                u128::MAX as nat
            } else {
                self.kraft()
            }),
    {
        let ghost hist = self.code_length_histogram@;
        let ghost max = self.max_code_length as int;
        let mut sum: u128 = 0;
        let mut i: usize = 0;
        while i < self.code_length_histogram.len()
            invariant
                i <= hist.len(),
                hist == self.code_length_histogram@,
                max == self.max_code_length,
                self.bounded(),
                sum == kraft_total(hist, max, i as nat),
                forall|k: int| 0 <= k < i ==> max - (#[trigger] hist[k]).0 < 128,
            decreases hist.len() - i,
        {
            let (len, count): (u8, u32) = self.code_length_histogram[i];
            let shift: u32 = (self.max_code_length - len) as u32;
            if shift >= 128 {
                assert(max - hist[i as int].0 >= 128);
                return u128::MAX;
            }
            proof {
                lemma_kraft_monotone(hist, max, (i + 1) as nat, hist.len());
                assert(hist[i as int] == (len, count));
            }
            match shifted(count, shift) {
                None => {
                    return u128::MAX;
                },
                Some(term) => match sum.checked_add(term) {
                    None => {
                        return u128::MAX;
                    },
                    Some(s) => {
                        sum = s;
                    },
                },
            }
            i = i + 1;
        }
        sum
    }

    /// True if the descriptor stands for a complete prefix code: one symbol
    /// alone, or lengths that fill the code space exactly.
    pub fn is_kraft_complete(&self) -> (b: bool)
        requires
            tiered(self.code_length_histogram@, self.max_code_length),
        ensures
            b == (self.is_single_symbol || (self.code_length_histogram@.len() > 0 && self.kraft()
                == pow2(self.max_code_length as nat))),
    {
        if self.is_single_symbol {
            return true;
        }
        if self.code_length_histogram.len() == 0 {
            return false;
        }
        let ghost hist = self.code_length_histogram@;
        let ghost max = self.max_code_length as int;
        let mut nodes: u32 = 0;
        let mut depth: u8 = self.max_code_length;
        let mut idx: usize = self.code_length_histogram.len();
        proof {
            lemma2_to64();
            lemma_mul_basics_1(1);
        }
        while depth > 0
            invariant
                hist == self.code_length_histogram@,
                max == self.max_code_length,
                tiered(hist, self.max_code_length),
                hist.len() > 0,
                depth <= max,
                idx <= hist.len(),
                forall|i: int| 0 <= i < idx ==> (#[trigger] hist[i]).0 <= depth,
                self.kraft() == kraft_total(hist, max, idx as nat) + nodes * pow2(
                    (max - depth) as nat,
                ),
                nodes + symbol_total(hist, idx as nat) <= u32::MAX,
                !self.is_single_symbol,
            decreases depth,
        {
            if idx > 0 && self.code_length_histogram[idx - 1].0 == depth {
                proof {
                    let c = hist[idx - 1].1 as int;
                    let q = pow2((max - depth) as nat) as int;
                    let m = nodes as int;
                    assert((m + c) * q == m * q + c * q) by (nonlinear_arith);
                }
                nodes = nodes + self.code_length_histogram[idx - 1].1;
                idx = idx - 1;
            }
            proof {
                assert forall|i: int| 0 <= i < idx implies (#[trigger] hist[i]).0 < depth by {
                    if idx < hist.len() {
                        assert(hist[i].0 < hist[idx as int].0);
                    }
                    if i < idx - 1 {
                        assert(hist[i].0 < hist[idx - 1].0);
                    }
                }
                lemma_pow2_unfold((max - depth + 1) as nat);
            }
            if nodes % 2 != 0 {
                proof {
                    let q = lemma_kraft_divisible(hist, max, depth as int, idx as nat);
                    lemma_odd_sum(q, nodes as nat, (max - depth) as nat, max as nat);
                }
                return false;
            }
            proof {
                let h = (nodes / 2) as int;
                let q = pow2((max - depth) as nat) as int;
                assert((2 * h) * q == h * (2 * q)) by (nonlinear_arith);
            }
            nodes = nodes / 2;
            depth = depth - 1;
        }
        proof {
            if idx > 0 {
                assert(hist[0].0 >= 1);
                assert(false);
            }
            lemma_pow2_pos(max as nat);
            let q = pow2(max as nat) as int;
            let m = nodes as int;
            assert(m * q == q <==> m == 1) by (nonlinear_arith)
                requires
                    q > 0,
            ;
        }
        nodes == 1
    }
}

/// An odd number of units is no whole number of double units.
proof fn lemma_odd_sum(q: nat, nodes: nat, e: nat, max: nat)
    requires
        nodes % 2 == 1,
        e < max,
    ensures
        q * pow2(e + 1) + nodes * pow2(e) != pow2(max),
{
    lemma_pow2_unfold(e + 1);
    lemma_pow2_pos(e);
    lemma_pow2_adds((max - e) as nat, e);
    lemma_pow2_unfold((max - e) as nat);
    let u = pow2(e) as int;
    let a = q as int;
    let b = nodes as int;
    let c = pow2((max - e - 1) as nat) as int;
    if a * (2 * u) + b * u == (2 * c) * u {
        assert(a * (2 * u) + b * u == (2 * a + b) * u) by (nonlinear_arith);
        assert(2 * a + b == 2 * c) by (nonlinear_arith)
            requires
                (2 * a + b) * u == (2 * c) * u,
                u > 0,
        ;
    }
}

proof fn lemma_pixels_monotone(slices: Seq<SliceLayout>, j: nat, k: nat)
    requires
        j <= k <= slices.len(),
    ensures
        pixel_sum(slices, j) <= pixel_sum(slices, k),
    decreases k,
{
    if j < k {
        lemma_pixels_monotone(slices, j, (k - 1) as nat);
    }
}

/// The slice data of the first `k` planes.
pub open spec fn data_sum(planes: Seq<PlaneLayout>, k: nat) -> int
    decreases k,
{
    if k == 0 {
        0
    } else {
        data_sum(planes, (k - 1) as nat) + planes[k - 1].data_size()
    }
}

/// The bytes of the first `k` planes.
pub open spec fn size_sum(planes: Seq<PlaneLayout>, k: nat) -> int
    decreases k,
{
    if k == 0 {
        0
    } else {
        size_sum(planes, (k - 1) as nat) + 256 + 4 * planes[k - 1].slices@.len() + planes[k
            - 1].data_size()
    }
}

proof fn lemma_sums_monotone(planes: Seq<PlaneLayout>, j: nat, k: nat)
    requires
        j <= k <= planes.len(),
    ensures
        0 <= data_sum(planes, j) <= data_sum(planes, k),
        0 <= size_sum(planes, j) <= size_sum(planes, k),
    decreases k,
{
    if j < k {
        lemma_sums_monotone(planes, j, (k - 1) as nat);
    } else if j > 0 {
        lemma_sums_monotone(planes, (j - 1) as nat, (j - 1) as nat);
    }
}

impl FrameLayout {
    /// The number of bytes of slice data of all planes.
    pub fn total_slice_data_bytes(&self) -> (n: usize)
        requires
            data_sum(self.planes@, self.planes@.len()) <= usize::MAX,
        ensures
            n == data_sum(self.planes@, self.planes@.len()),
    {
        let mut sum: usize = 0;
        let mut i: usize = 0;
        while i < self.planes.len()
            invariant
                i <= self.planes@.len(),
                sum == data_sum(self.planes@, i as nat),
                data_sum(self.planes@, self.planes@.len()) <= usize::MAX,
            decreases self.planes@.len() - i,
        {
            proof {
                lemma_sums_monotone(self.planes@, (i + 1) as nat, self.planes@.len());
            }
            sum = sum + self.planes[i].slice_data_total();
            i = i + 1;
        }
        sum
    }

    /// The number of bytes of the frame: all planes and the frame-info word.
    pub fn total_size(&self) -> (n: usize)
        requires
            size_sum(self.planes@, self.planes@.len()) + 4 <= usize::MAX,
        ensures
            n == size_sum(self.planes@, self.planes@.len()) + 4,
    {
        let mut sum: usize = 0;
        let mut i: usize = 0;
        while i < self.planes.len()
            invariant
                i <= self.planes@.len(),
                sum == size_sum(self.planes@, i as nat),
                size_sum(self.planes@, self.planes@.len()) + 4 <= usize::MAX,
            decreases self.planes@.len() - i,
        {
            proof {
                lemma_sums_monotone(self.planes@, i as nat, i as nat);
                lemma_sums_monotone(self.planes@, (i + 1) as nat, self.planes@.len());
            }
            sum = sum + self.planes[i].total_size();
            i = i + 1;
        }
        sum + 4
    }

    /// True if the descriptor of every plane stands for a complete prefix
    /// code.
    pub fn all_planes_kraft_complete(&self) -> (b: bool)
        requires
            forall|i: int|
                0 <= i < self.planes@.len() ==> tiered(
                    (#[trigger] self.planes@[i]).code_length_histogram@,
                    self.planes@[i].max_code_length,
                ),
        ensures
            b == (forall|i: int|
                0 <= i < self.planes@.len() ==> plane_complete(#[trigger] self.planes@[i])),
    {
        let mut i: usize = 0;
        while i < self.planes.len()
            invariant
                i <= self.planes@.len(),
                forall|i: int|
                    0 <= i < self.planes@.len() ==> tiered(
                        (#[trigger] self.planes@[i]).code_length_histogram@,
                        self.planes@[i].max_code_length,
                    ),
                forall|k: int| 0 <= k < i ==> plane_complete(#[trigger] self.planes@[k]),
            decreases self.planes@.len() - i,
        {
            assert(tiered(
                self.planes@[i as int].code_length_histogram@,
                self.planes@[i as int].max_code_length,
            ));
            if !self.planes[i].is_kraft_complete() {
                assert(!plane_complete(self.planes@[i as int]));
                return false;
            }
            i = i + 1;
        }
        true
    }
}

/// The descriptor of a plane stands for a complete prefix code.
pub open spec fn plane_complete(l: PlaneLayout) -> bool {
    l.is_single_symbol || (l.code_length_histogram@.len() > 0 && l.kraft() == pow2(
        l.max_code_length as nat,
    ))
}

} // verus!
