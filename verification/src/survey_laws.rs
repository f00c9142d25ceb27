//! What an inspected layout and a padded frame say, field by field and byte by
//! byte.

use crate::canonical;
use crate::fourcc::{Fourcc, Predictor, StreamConfig};
use crate::inspect;
use crate::inspect::{FrameLayout, PlaneLayout, SliceLayout};
use crate::payload;
use crate::registry;
use crate::registry::{FrameError, StridedPlane};
use vstd::arithmetic::mul::*;
use vstd::arithmetic::power2::*;
use vstd::prelude::*;

verus! {

/// The layout of a frame names the last four bytes as a word, the predictor
/// that the low two bits of its second byte stand for, the number of slices and
/// one layout for each plane.
pub proof fn law_frame_layout(f: FrameLayout, cfg: StreamConfig, data: Seq<u8>)
    requires
        data.len() >= 4,
        inspect::frame_located(f, cfg, data),
    ensures
        ({
            let k = data.len() - 4;
            let mode = data[k + 1] % 4;
            &&& f.frame_info == data[k] + 256 * data[k + 1] + 65536 * data[k + 2] + 16777216
                * data[k + 3]
            &&& f.predictor == Predictor::Identity <==> mode == 0
            &&& f.predictor == Predictor::Left <==> mode == 1
            &&& f.predictor == Predictor::Gradient <==> mode == 2
            &&& f.predictor == Predictor::Median <==> mode == 3
            &&& f.num_slices == cfg.extradata.flags / 16777216 + 1
            &&& f.planes@.len() == (if cfg.fourcc == Fourcc::Ulra {
                4nat
            } else {
                3nat
            })
        }),
{
    let k = data.len() - 4;
    let (a, b, c, d) = (
        data[k] as int,
        data[k + 1] as int,
        data[k + 2] as int,
        data[k + 3] as int,
    );
    assert((a + 256 * b + 65536 * c + 16777216 * d) / 256 == b + 256 * c + 65536 * d);
}

/// The layout of a plane at `o`: the descriptor, after 256 bytes the end
/// offsets, and after four bytes per slice the data; each slice begins where
/// the one before it ends and covers the rows from `height * s / n` on.
pub proof fn law_plane_layout(l: PlaneLayout, cfg: StreamConfig, data: Seq<u8>, p: nat, s: int)
    requires
        inspect::plane_located(l, cfg, data, p),
        0 <= s < cfg.extradata.slices(),
    ensures
        ({
            let n = cfg.extradata.flags / 16777216 + 1;
            let o = payload::plane_offset(data, n as nat, p);
            let t = o + 256 + 4 * s;
            let part = l.slices@[s];
            let h = l.height as int;
            &&& l.plane_idx == p
            &&& (l.width, l.height) == cfg.fourcc.dims(p as int, cfg.width, cfg.height)
            &&& l.descriptor_start == o
            &&& l.end_offsets_start == o + 256
            &&& l.slice_data_start == o + 256 + 4 * n
            &&& l.slices@.len() == n
            &&& part.end == o + 256 + 4 * n + data[t] + 256 * data[t + 1] + 65536 * data[t + 2]
                + 16777216 * data[t + 3]
            &&& s == 0 ==> part.start == l.slice_data_start
            &&& s > 0 ==> part.start == l.slices@[s - 1].end
            &&& part.row_start == h * s / n
            &&& part.row_end == h * (s + 1) / n
            &&& part.pixel_count == (part.row_end - part.row_start) * l.width
        }),
{
    assert(inspect::slice_located(l.slices@[s], cfg, data, p, s));
    if s > 0 {
        assert(inspect::slice_located(l.slices@[s - 1], cfg, data, p, s - 1));
    }
}

proof fn lemma_coded_filter(d: Seq<u8>, n: nat)
    requires
        n <= d.len(),
    ensures
        inspect::coded_tally(d, 254, n) == d.take(n as int).filter(|l: u8| 1 <= l <= 254).len(),
    decreases n,
{
    reveal(Seq::filter);
    if n > 0 {
        lemma_coded_filter(d, (n - 1) as nat);
        assert(d.take(n as int).drop_last() =~= d.take(n - 1));
    }
}

/// What a layout says of a descriptor: whether one symbol has length zero and
/// all others 255; how many symbols have a length from 1 to 254; the greatest
/// and the least of these lengths, and how many symbols have the least.
pub proof fn law_plane_summary(l: PlaneLayout, d: Seq<u8>, s: int)
    requires
        d.len() == 256,
        inspect::summarizes(l, d),
        0 <= s < 256,
    ensures
        l.is_single_symbol && d[s] == 0 ==> forall|t: int|
            0 <= t < 256 && t != s ==> #[trigger] d[t] == 255,
        l.is_single_symbol ==> d.contains(0),
        d[s] == 0 && (forall|t: int| 0 <= t < 256 && t != s ==> #[trigger] d[t] == 255)
            ==> l.is_single_symbol,
        l.active_symbol_count == d.filter(|x: u8| 1 <= x <= 254).len(),
        1 <= d[s] <= 254 ==> 1 <= l.min_code_length <= d[s] <= l.max_code_length <= 254,
        1 <= d[s] <= 254 ==> d.contains(l.min_code_length) && d.contains(l.max_code_length),
        1 <= d[s] <= 254 ==> l.min_code_length_symbol_count == d.to_multiset().count(
            l.min_code_length,
        ),
        (forall|t: int| 0 <= t < 256 ==> !(1 <= #[trigger] d[t] <= 254)) ==> l.min_code_length == 0
            && l.max_code_length == 0 && l.min_code_length_symbol_count == 0,
{
    lemma_coded_filter(d, 256);
    assert(d.take(256) =~= d);
    crate::code_laws::law_count(d, l.min_code_length);
    if d[s] == 0 && (forall|t: int| 0 <= t < 256 && t != s ==> #[trigger] d[t] == 255) {
        lemma_alone(d, s, 256);
    }
    if l.is_single_symbol {
        let only = canonical::lemma_rank_find(d, 0, 0);
        assert(d[only] == 0);
        assert forall|t: int| 0 <= t < 256 && t != only implies #[trigger] d[t] == 255 by {
            lemma_rest(d, only, t, 256);
        }
    }
    if 1 <= d[s] <= 254 {
        assert(canonical::is_active(d[s]));
    }
}

proof fn lemma_alone(d: Seq<u8>, s: int, n: nat)
    requires
        n <= 256,
        0 <= s < 256,
        d[s] == 0,
        forall|t: int| 0 <= t < 256 && t != s ==> #[trigger] d[t] == 255,
    ensures
        canonical::tally(d, 0, n) == (if s < n {
            1nat
        } else {
            0nat
        }),
        canonical::tally(d, 255, n) == (if s < n {
            n - 1
        } else {
            n as int
        }),
    decreases n,
{
    if n > 0 {
        lemma_alone(d, s, (n - 1) as nat);
    }
}

/// Two tallies count no symbol twice.
proof fn lemma_rest(d: Seq<u8>, only: int, t: int, n: nat)
    requires
        n <= 256,
        0 <= only,
        d[only] == 0,
        0 <= t,
        t != only,
    ensures
        canonical::tally(d, 0, n) + canonical::tally(d, 255, n) <= n,
        t < n && d[t] != 0 && d[t] != 255 ==> canonical::tally(d, 0, n) + canonical::tally(
            d,
            255,
            n,
        ) <= n - 1,
        only < n ==> canonical::tally(d, 0, n) >= 1,
        only < n && t < n && d[t] == 0 ==> canonical::tally(d, 0, n) >= 2,
        t < n && d[t] == 0 ==> canonical::tally(d, 0, n) >= 1,
    decreases n,
{
    if n > 0 {
        lemma_rest(d, only, t, (n - 1) as nat);
    }
}

proof fn lemma_pixels_folded(slices: Seq<SliceLayout>, k: nat)
    requires
        k <= slices.len(),
    ensures
        inspect::pixel_sum(slices, k) == slices.take(k as int).fold_left(
            0int,
            |sum: int, s: SliceLayout| sum + s.pixel_count,
        ),
    decreases k,
{
    if k > 0 {
        lemma_pixels_folded(slices, (k - 1) as nat);
        assert(slices.take(k as int).drop_last() =~= slices.take(k - 1));
    }
}

/// The samples of a plane are those of its slices.
pub proof fn law_pixel_sum(slices: Seq<SliceLayout>)
    ensures
        inspect::pixel_sum(slices, slices.len()) == slices.fold_left(
            0int,
            |sum: int, s: SliceLayout| sum + s.pixel_count,
        ),
{
    lemma_pixels_folded(slices, slices.len());
    assert(slices.take(slices.len() as int) =~= slices);
}

proof fn lemma_kraft_folded(hist: Seq<(u8, u32)>, max: int, k: nat)
    requires
        k <= hist.len(),
    ensures
        inspect::kraft_total(hist, max, k) == hist.take(k as int).fold_left(
            0int,
            |sum: int, t: (u8, u32)| sum + t.1 * pow2((max - t.0) as nat),
        ),
    decreases k,
{
    if k > 0 {
        lemma_kraft_folded(hist, max, (k - 1) as nat);
        assert(hist.take(k as int).drop_last() =~= hist.take(k - 1));
    }
}

/// The Kraft sum of a plane adds up, for each length, its symbols times two to
/// the power of how much the length is below the greatest one.
pub proof fn law_kraft_sum(l: PlaneLayout)
    ensures
        l.kraft() == l.code_length_histogram@.fold_left(
            0int,
            |sum: int, t: (u8, u32)| sum + t.1 * pow2((l.max_code_length - t.0) as nat),
        ),
{
    let hist = l.code_length_histogram@;
    let max = l.max_code_length as int;
    lemma_kraft_folded(hist, max, hist.len());
    assert(hist.take(hist.len() as int) =~= hist);
    assert((|sum: int, t: (u8, u32)| sum + t.1 * pow2((max - t.0) as nat)) =~= (
    |sum: int, t: (u8, u32)| sum + t.1 * pow2((l.max_code_length - t.0) as nat)));
}

/// Taking the padding out keeps sample `c` of row `r`, wherever its row begins.
pub proof fn law_unpadded(plane: StridedPlane, w: int, rows: nat, r: int, c: int)
    requires
        0 <= r < rows,
        0 <= c < w,
        w <= plane.stride,
        rows * plane.stride <= plane.data@.len(),
    ensures
        registry::tight(plane, w, rows).len() == rows * w,
        r * w + c < rows * w,
        registry::tight(plane, w, rows)[r * w + c] == plane.data@[r * plane.stride + c],
    decreases rows,
{
    let a = rows - 1;
    let stride = plane.stride as int;
    lemma_tight_len(plane, w, rows);
    assert((a + 1) * w == a * w + w) by (nonlinear_arith);
    lemma_mul_inequality(r, a, w);
    lemma_mul_inequality(r, a, stride);
    lemma_mul_nonnegative(r, w);
    lemma_mul_nonnegative(r, stride);
    assert((a + 1) * stride == a * stride + stride) by (nonlinear_arith);
    lemma_tight_len(plane, w, a as nat);
    if r < a {
        assert((r + 1) * w == r * w + w) by (nonlinear_arith);
        lemma_mul_inequality(r + 1, a, w);
        law_unpadded(plane, w, a as nat, r, c);
    }
}

proof fn lemma_tight_len(plane: StridedPlane, w: int, rows: nat)
    requires
        0 <= w <= plane.stride,
        rows * plane.stride <= plane.data@.len(),
    ensures
        registry::tight(plane, w, rows).len() == rows * w,
    decreases rows,
{
    let stride = plane.stride as int;
    if rows == 0 {
        lemma_mul_basics_1(w);
    } else {
        let a = rows - 1;
        assert((a + 1) * w == a * w + w) by (nonlinear_arith);
        assert((a + 1) * stride == a * stride + stride) by (nonlinear_arith);
        lemma_mul_nonnegative(a, stride);
        lemma_tight_len(plane, w, a as nat);
    }
}

/// Which plane cannot be packed: one whose rows are shorter than its width, or
/// one with fewer bytes than rows of its stride take.
pub proof fn law_repack_errors(plane: StridedPlane, idx: usize, w: int, h: int)
    ensures
        ({
            let r = registry::repack_error(plane, idx, w, h);
            let got = plane.data@.len() as usize;
            let need = plane.stride * h;
            &&& r is None <==> w <= plane.stride && need <= plane.data@.len()
            &&& plane.stride < w ==> r == Some(
                FrameError::StrideTooSmall { plane: idx, stride: plane.stride, width: w as usize },
            )
            &&& plane.stride == w && plane.data@.len() < need ==> r == Some(
                FrameError::TooShort { plane: idx, got, expected: need as usize },
            )
            &&& plane.stride > w && plane.data@.len() < need ==> r == Some(
                FrameError::PaddedTooShort { plane: idx, got, expected: need as u128 },
            )
        }),
{
}

proof fn lemma_repack_none(cfg: StreamConfig, planes: Seq<StridedPlane>, k: nat)
    requires
        forall|q: int|
            0 <= q < k ==> #[trigger] registry::repack_error(
                planes[q],
                q as usize,
                cfg.fourcc.dims(q, cfg.width, cfg.height).0 as int,
                cfg.fourcc.dims(q, cfg.width, cfg.height).1 as int,
            ) is None,
    ensures
        registry::repack_planes_error(cfg, planes, k) is None,
    decreases k,
{
    if k > 0 {
        lemma_repack_none(cfg, planes, (k - 1) as nat);
    }
}

proof fn lemma_repack_stays(cfg: StreamConfig, planes: Seq<StridedPlane>, j: nat, k: nat)
    requires
        j <= k,
        registry::repack_planes_error(cfg, planes, j) is Some,
    ensures
        registry::repack_planes_error(cfg, planes, k) == registry::repack_planes_error(
            cfg,
            planes,
            j,
        ),
    decreases k,
{
    if j < k {
        lemma_repack_stays(cfg, planes, j, (k - 1) as nat);
    }
}

/// What is wrong with the planes of a frame: their number first, then the first
/// plane that cannot be packed at its width and height.
pub proof fn law_planes_errors(cfg: StreamConfig, planes: Seq<StridedPlane>, p: int)
    requires
        0 <= p < planes.len(),
        forall|q: int|
            0 <= q < p ==> #[trigger] registry::repack_error(
                planes[q],
                q as usize,
                cfg.fourcc.dims(q, cfg.width, cfg.height).0 as int,
                cfg.fourcc.dims(q, cfg.width, cfg.height).1 as int,
            ) is None,
    ensures
        ({
            let count: nat = if cfg.fourcc == Fourcc::Ulra {
                4
            } else {
                3
            };
            let (w, h) = cfg.fourcc.dims(p, cfg.width, cfg.height);
            let own = registry::repack_error(planes[p], p as usize, w as int, h as int);
            &&& planes.len() != count ==> registry::planes_error(cfg, planes) == Some(
                FrameError::PlaneCount { expected: count as usize, got: planes.len() as usize },
            )
            &&& planes.len() == count && own is Some ==> registry::planes_error(cfg, planes) == own
            &&& planes.len() == count && own is None && p + 1 == count ==> registry::planes_error(
                cfg,
                planes,
            ) is None
        }),
{
    lemma_repack_none(cfg, planes, p as nat);
    let (w, h) = cfg.fourcc.dims(p, cfg.width, cfg.height);
    let own = registry::repack_error(planes[p], p as usize, w as int, h as int);
    if own is Some {
        lemma_repack_stays(cfg, planes, (p + 1) as nat, planes.len());
    }
}

/// The samples of an accepted frame: sample `c` of row `r` of plane `p`, found
/// by the stride of its plane.
pub proof fn law_frame_samples(
    cfg: StreamConfig,
    planes: Seq<StridedPlane>,
    p: int,
    r: int,
    c: int,
)
    requires
        registry::planes_error(cfg, planes) is None,
        0 <= p < planes.len(),
        0 <= r < cfg.fourcc.dims(p, cfg.width, cfg.height).1,
        0 <= c < cfg.fourcc.dims(p, cfg.width, cfg.height).0,
    ensures
        ({
            let (w, h) = cfg.fourcc.dims(p, cfg.width, cfg.height);
            let all = registry::tight_planes(cfg, planes);
            &&& all.len() == planes.len()
            &&& all[p].len() == w * h
            &&& all[p][r * w + c] == planes[p].data@[r * planes[p].stride + c]
        }),
{
    let (w, h) = cfg.fourcc.dims(p, cfg.width, cfg.height);
    if registry::repack_planes_error(cfg, planes, (p + 1) as nat) is Some {
        lemma_repack_stays(cfg, planes, (p + 1) as nat, planes.len());
    }
    let own = registry::repack_error(planes[p], p as usize, w as int, h as int);
    assert(own is None) by {
        if registry::repack_planes_error(cfg, planes, p as nat) is Some {
            lemma_repack_stays(cfg, planes, p as nat, (p + 1) as nat);
        }
    }
    law_repack_errors(planes[p], p as usize, w as int, h as int);
    lemma_mul_is_commutative(planes[p].stride as int, h as int);
    lemma_mul_is_commutative(w as int, h as int);
    law_unpadded(planes[p], w as int, h as nat, r, c);
}

} // verus!
