//! What prediction, decorrelation and the choice of a predictor do to single
//! samples, said by row and column.

use crate::decoder;
use crate::encoder;
use crate::encoder::EncodedFrame;
use crate::error::Error;
use crate::fourcc::{Fourcc, Predictor, StreamConfig};
use crate::payload;
use crate::predict;
use vstd::arithmetic::div_mod::*;
use vstd::arithmetic::mul::*;
use vstd::prelude::*;

verus! {

/// Row and column of sample `r * w + c`.
pub proof fn lemma_index(w: int, r: int, c: int)
    requires
        w >= 1,
        r >= 0,
        0 <= c < w,
    ensures
        0 <= r * w + c,
        (r * w + c) % w == c,
        (r * w + c) / w == r,
        r == 0 ==> r * w + c < w,
        r >= 1 ==> r * w + c >= w && (r - 1) * w == r * w - w && (r - 1) * w >= 0,
        r >= 2 ==> r * w + c >= 2 * w && (r - 2) * w == r * w - 2 * w && (r - 2) * w >= 0,
        r == 1 ==> r * w == w,
{
    lemma_mul_nonnegative(r, w);
    lemma_fundamental_div_mod_converse(r * w + c, w, r, c);
    assert((r - 1) * w == r * w - w) by (nonlinear_arith);
    assert((r - 2) * w == r * w - 2 * w) by (nonlinear_arith);
    if r >= 1 {
        lemma_mul_nonnegative(r - 1, w);
    }
    if r >= 2 {
        lemma_mul_nonnegative(r - 2, w);
    }
    if r == 1 {
        lemma_mul_basics_4(w);
    }
}

/// A residual is a sample minus its prediction, modulo 256.
proof fn lemma_residual(pred: Predictor, samples: Seq<u8>, w: int, i: int)
    requires
        0 <= i < samples.len(),
    ensures
        (predict::residuals(pred, samples, w)[i] + predict::predicted(pred, samples, w, i)) % 256
            == samples[i],
{
    let m = predict::predicted(pred, samples, w, i);
    predict::lemma_wrap_back(samples[i], m);
}

/// Without prediction the residuals are the samples.
pub proof fn law_identity_residuals(samples: Seq<u8>, w: int)
    ensures
        predict::residuals(Predictor::Identity, samples, w) == samples,
{
    assert forall|i: int| 0 <= i < samples.len() implies #[trigger] predict::residuals(
        Predictor::Identity,
        samples,
        w,
    )[i] == samples[i] by {
        lemma_residual(Predictor::Identity, samples, w, i);
    }
    assert(predict::residuals(Predictor::Identity, samples, w) =~= samples);
}

/// Left prediction: the first sample of a slice is predicted as 128, and every
/// other one as the sample before it in scan order, across the ends of rows.
pub proof fn law_left_residual(samples: Seq<u8>, w: int, i: int)
    requires
        0 <= i < samples.len(),
    ensures
        predict::residuals(Predictor::Left, samples, w).len() == samples.len(),
        i == 0 ==> (predict::residuals(Predictor::Left, samples, w)[0] + 128) % 256 == samples[0],
        i > 0 ==> (predict::residuals(Predictor::Left, samples, w)[i] + samples[i - 1]) % 256
            == samples[i],
{
    lemma_residual(Predictor::Left, samples, w, i);
}

/// Gradient prediction by row and column: 128 for the first sample, the sample
/// to the left in the rest of the first row, the sample above in the rest of
/// the first column, and left plus top minus top-left everywhere else.
pub proof fn law_gradient_residual(samples: Seq<u8>, w: int, r: int, c: int)
    requires
        w >= 1,
        r >= 0,
        0 <= c < w,
        r * w + c < samples.len(),
    ensures
        ({
            let res = predict::residuals(Predictor::Gradient, samples, w);
            let i = r * w + c;
            &&& res.len() == samples.len()
            &&& r == 0 && c == 0 ==> (res[i] + 128) % 256 == samples[i]
            &&& r == 0 && c >= 1 ==> (res[i] + samples[c - 1]) % 256 == samples[i]
            &&& r >= 1 && c == 0 ==> (res[i] + samples[(r - 1) * w]) % 256 == samples[i]
            &&& r >= 1 && c >= 1 ==> (res[i] + samples[r * w + c - 1] + samples[(r - 1) * w + c]
                - samples[(r - 1) * w + c - 1]) % 256 == samples[i]
        }),
{
    let i = r * w + c;
    let res = predict::residuals(Predictor::Gradient, samples, w);
    lemma_index(w, r, c);
    lemma_residual(Predictor::Gradient, samples, w, i);
    if r >= 1 && c >= 1 {
        let g = samples[i - 1] + samples[i - w] - samples[i - w - 1];
        lemma_add_mod_noop_right(res[i] as int, g, 256);
    }
}

/// Median prediction by row and column. The first row is predicted like a left
/// row that begins with 128, and the first sample of the second row by the
/// sample above it. Everywhere else the prediction is the median of left, top
/// and left plus top minus top-left. In the first column the sample to the left
/// is the last one of the row above, and the one to the top-left is the last
/// one of the row above that.
pub proof fn law_median_residual(
    samples: Seq<u8>,
    w: int,
    r: int,
    c: int,
    left: int,
    top: int,
    corner: int,
    m: int,
)
    requires
        w >= 1,
        r >= 0,
        0 <= c < w,
        r * w + c < samples.len(),
        r >= 1 && c >= 1 ==> left == samples[r * w + c - 1] && top == samples[(r - 1) * w + c]
            && corner == samples[(r - 1) * w + c - 1],
        r >= 2 && c == 0 ==> left == samples[(r - 1) * w + w - 1] && top == samples[(r - 1) * w]
            && corner == samples[(r - 2) * w + w - 1],
        ({
            let g = left + top - corner;
            (r >= 1 && c >= 1) || (r >= 2 && c == 0) ==> {
                &&& (top <= left <= g || g <= left <= top) ==> m == left
                &&& (left <= top <= g || g <= top <= left) ==> m == top
                &&& (left <= g <= top || top <= g <= left) ==> m == g
            }
        }),
    ensures
        ({
            let res = predict::residuals(Predictor::Median, samples, w);
            let i = r * w + c;
            &&& res.len() == samples.len()
            &&& r == 0 && c == 0 ==> (res[i] + 128) % 256 == samples[i]
            &&& r == 0 && c >= 1 ==> (res[i] + samples[c - 1]) % 256 == samples[i]
            &&& r == 1 && c == 0 ==> (res[i] + samples[0]) % 256 == samples[i]
            &&& (r >= 1 && c >= 1) || (r >= 2 && c == 0) ==> (res[i] + m) % 256 == samples[i]
        }),
{
    let i = r * w + c;
    lemma_index(w, r, c);
    lemma_residual(Predictor::Median, samples, w, i);
}

/// The restored samples have the residuals that they were restored from, so
/// what is said of residuals by row and column holds of restored samples too.
pub proof fn law_restored_has_residuals(pred: Predictor, res: Seq<u8>, w: int)
    requires
        w >= 1,
    ensures
        predict::restored_slice(pred, res, w).len() == res.len(),
        predict::residuals(pred, predict::restored_slice(pred, res, w), w) == res,
{
    predict::lemma_restored_prefix(pred, res, w, res.len(), res.len());
    predict::law_residuals_restored(pred, res, w);
}

/// Restored samples of a slice without prediction, and of one with left
/// prediction.
pub proof fn law_simple_restored(res: Seq<u8>, w: int, i: int)
    requires
        w >= 1,
        0 <= i < res.len(),
    ensures
        predict::restored_slice(Predictor::Identity, res, w)[i] == res[i],
        ({
            let x = predict::restored_slice(Predictor::Left, res, w);
            &&& x.len() == res.len()
            &&& i == 0 ==> x[0] == (res[0] + 128) % 256
            &&& i > 0 ==> x[i] == (res[i] + x[i - 1]) % 256
        }),
{
    law_restored_has_residuals(Predictor::Identity, res, w);
    law_restored_has_residuals(Predictor::Left, res, w);
    law_identity_residuals(predict::restored_slice(Predictor::Identity, res, w), w);
    law_left_residual(predict::restored_slice(Predictor::Left, res, w), w, i);
}

/// Restored samples of a slice with gradient prediction, by row and column.
pub proof fn law_gradient_restored(res: Seq<u8>, w: int, r: int, c: int)
    requires
        w >= 1,
        r >= 0,
        0 <= c < w,
        r * w + c < res.len(),
    ensures
        ({
            let x = predict::restored_slice(Predictor::Gradient, res, w);
            let i = r * w + c;
            &&& x.len() == res.len()
            &&& r == 0 && c == 0 ==> x[i] == (res[i] + 128) % 256
            &&& r == 0 && c >= 1 ==> x[i] == (res[i] + x[c - 1]) % 256
            &&& r >= 1 && c == 0 ==> x[i] == (res[i] + x[(r - 1) * w]) % 256
            &&& r >= 1 && c >= 1 ==> x[i] == (res[i] + x[r * w + c - 1] + x[(r - 1) * w + c] - x[(r
                - 1) * w + c - 1]) % 256
        }),
{
    let x = predict::restored_slice(Predictor::Gradient, res, w);
    law_restored_has_residuals(Predictor::Gradient, res, w);
    law_gradient_residual(x, w, r, c);
}

/// Restored samples of a slice with median prediction, by row and column.
pub proof fn law_median_restored(
    res: Seq<u8>,
    w: int,
    r: int,
    c: int,
    left: int,
    top: int,
    corner: int,
    m: int,
)
    requires
        w >= 1,
        r >= 0,
        0 <= c < w,
        r * w + c < res.len(),
        ({
            let x = predict::restored_slice(Predictor::Median, res, w);
            let g = left + top - corner;
            &&& r >= 1 && c >= 1 ==> left == x[r * w + c - 1] && top == x[(r - 1) * w + c]
                && corner == x[(r - 1) * w + c - 1]
            &&& r >= 2 && c == 0 ==> left == x[(r - 1) * w + w - 1] && top == x[(r - 1) * w]
                && corner == x[(r - 2) * w + w - 1]
            &&& (r >= 1 && c >= 1) || (r >= 2 && c == 0) ==> {
                &&& (top <= left <= g || g <= left <= top) ==> m == left
                &&& (left <= top <= g || g <= top <= left) ==> m == top
                &&& (left <= g <= top || top <= g <= left) ==> m == g
            }
        }),
    ensures
        ({
            let x = predict::restored_slice(Predictor::Median, res, w);
            let i = r * w + c;
            &&& x.len() == res.len()
            &&& r == 0 && c == 0 ==> x[i] == (res[i] + 128) % 256
            &&& r == 0 && c >= 1 ==> x[i] == (res[i] + x[c - 1]) % 256
            &&& r == 1 && c == 0 ==> x[i] == (res[i] + x[0]) % 256
            &&& (r >= 1 && c >= 1) || (r >= 2 && c == 0) ==> x[i] == (res[i] + m) % 256
        }),
{
    let x = predict::restored_slice(Predictor::Median, res, w);
    law_restored_has_residuals(Predictor::Median, res, w);
    law_median_residual(x, w, r, c, left, top, corner, m);
}

/// Slice `s` of `n` of a plane holds rows `height * s / n` to
/// `height * (s + 1) / n`, and its residuals are those of these rows alone.
pub proof fn law_slice_residuals(
    pred: Predictor,
    plane: Seq<u8>,
    w: int,
    height: int,
    n: nat,
    s: int,
)
    requires
        w >= 1,
        height >= 0,
        0 <= s < n,
        plane.len() == height * w,
    ensures
        predict::plane_residuals(pred, plane, w, height, n).len() == n,
        0 <= (height * s / n as int) * w <= (height * (s + 1) / n as int) * w <= plane.len(),
        predict::plane_residuals(pred, plane, w, height, n)[s] == predict::residuals(
            pred,
            plane.subrange((height * s / n as int) * w, (height * (s + 1) / n as int) * w),
            w,
        ),
{
    let a = height * s / n as int;
    let b = height * (s + 1) / n as int;
    predict::law_rows_partition(height, n as int, s);
    predict::lemma_rows_inside(a, b, height, w);
    if a == b {
        assert(plane.subrange(a * w, b * w) =~= Seq::<u8>::empty());
    }
}

/// The samples of a slice's rows, by row and column of the plane.
pub proof fn law_rows_of_plane(plane: Seq<u8>, w: int, a: int, b: int, r: int, c: int)
    requires
        w >= 1,
        0 <= a <= r < b,
        0 <= c < w,
        b * w <= plane.len(),
    ensures
        predict::rows_of(plane, w, a, b).len() == (b - a) * w,
        predict::rows_of(plane, w, a, b)[(r - a) * w + c] == plane[r * w + c],
{
    predict::lemma_rows_inside(a, b, b, w);
    lemma_index(w, r - a, c);
    lemma_index(w, r, c);
    assert((r - a) * w == r * w - a * w) by (nonlinear_arith);
    assert((r - a) * w + c < (b - a) * w) by (nonlinear_arith)
        requires
            r < b,
            c < w,
            w >= 1,
    ;
}

/// The first strips of a plane stand in its first rows, in order.
proof fn lemma_strips_in_place(
    cfg: StreamConfig,
    data: Seq<u8>,
    p: nat,
    s: int,
    k: nat,
    strict: bool,
)
    requires
        k <= cfg.extradata.slices(),
        0 <= s < k,
        decoder::joined(decoder::strips(cfg, data, p, strict), k) is Ok,
    ensures
        ({
            let (w, h) = cfg.fourcc.dims(p as int, cfg.width, cfg.height);
            let n = cfg.extradata.slices() as int;
            let x = decoder::joined(decoder::strips(cfg, data, p, strict), k)->Ok_0;
            let a = predict::row_start(h as int, n, s) * w;
            let b = predict::row_start(h as int, n, s + 1) * w;
            &&& 0 <= a <= b <= x.len()
            &&& decoder::strip_outcome(cfg, data, p, s, strict) == Ok::<Seq<u8>, Error>(
                x.subrange(a, b),
            )
        }),
    decreases k,
{
    let (w, h) = cfg.fourcc.dims(p as int, cfg.width, cfg.height);
    let n = cfg.extradata.slices() as int;
    let results = decoder::strips(cfg, data, p, strict);
    let m = (k - 1) as nat;
    let x = decoder::joined(results, k)->Ok_0;
    let y = decoder::joined(results, m)->Ok_0;
    assert(results[m as int] == decoder::strip_outcome(cfg, data, p, m as int, strict));
    let z = results[m as int]->Ok_0;
    assert(x == y + z);
    decoder::lemma_joined_len(cfg, data, p, k, strict);
    decoder::lemma_joined_len(cfg, data, p, m, strict);
    let a = predict::row_start(h as int, n, s);
    let b = predict::row_start(h as int, n, s + 1);
    predict::law_rows_partition(h as int, n, s);
    predict::lemma_rows_inside(a, b, h as int, w as int);
    if s < m {
        lemma_strips_in_place(cfg, data, p, s, m, strict);
        assert(x.subrange(a * w, b * w) =~= y.subrange(a * w, b * w));
    } else {
        assert(x.subrange(a * w, b * w) =~= z);
    }
}

/// A decoded plane, before the colours of RGB planes are taken apart: it has a
/// sample for each pixel, and the rows `height * s / n` to
/// `height * (s + 1) / n` have the residuals that slice `s` of `n` decodes to.
pub proof fn law_decoded_rows(cfg: StreamConfig, data: Seq<u8>, p: nat, s: int, strict: bool)
    requires
        decoder::plane_outcome(cfg, data, p, strict) is Ok,
        0 <= s < cfg.extradata.slices(),
        cfg.fourcc.dims(p as int, cfg.width, cfg.height).0 >= 1,
    ensures
        ({
            let (w, h) = cfg.fourcc.dims(p as int, cfg.width, cfg.height);
            let n = cfg.extradata.slices() as int;
            let x = decoder::plane_outcome(cfg, data, p, strict)->Ok_0;
            let a = (h * s / n) * w;
            let b = (h * (s + 1) / n) * w;
            &&& x.len() == w * h
            &&& 0 <= a <= b <= x.len()
            &&& decoder::residuals_outcome(cfg, data, p, s, strict) == Ok::<Seq<u8>, Error>(
                predict::residuals(
                    Predictor::of_frame_info(payload::frame_info(data) as u32),
                    x.subrange(a, b),
                    w as int,
                ),
            )
        }),
{
    let (w, h) = cfg.fourcc.dims(p as int, cfg.width, cfg.height);
    decoder::lemma_plane_len(cfg, data, p, strict);
    lemma_strips_in_place(cfg, data, p, s, cfg.extradata.slices(), strict);
    let res = decoder::residuals_outcome(cfg, data, p, s, strict)->Ok_0;
    law_restored_has_residuals(decoder::predictor_of(data), res, w as int);
}

/// Each stored sample of the blue and red planes is the sample minus the green
/// one plus 128, modulo 256; all other planes are stored as they are.
pub proof fn law_stored_colors(fourcc: Fourcc, planes: Seq<Seq<u8>>, i: int)
    requires
        planes.len() == fourcc.planes(),
    ensures
        ({
            let stored = encoder::decolored(fourcc, planes);
            let rgb = fourcc == Fourcc::Ulrg || fourcc == Fourcc::Ulra;
            &&& stored.len() == planes.len()
            &&& stored[0] == planes[0]
            &&& fourcc == Fourcc::Ulra ==> stored[3] == planes[3]
            &&& !rgb ==> stored[1] == planes[1] && stored[2] == planes[2]
            &&& stored[1].len() == planes[1].len()
            &&& stored[2].len() == planes[2].len()
            &&& rgb && 0 <= i < planes[1].len() ==> stored[1][i] == (planes[1][i] - planes[0][i]
                + 128) % 256
            &&& rgb && 0 <= i < planes[2].len() ==> stored[2][i] == (planes[2][i] - planes[0][i]
                + 128) % 256
        }),
{
}

/// Each shown sample of the blue and red planes is the stored one plus the
/// green one minus 128, modulo 256; all other planes are shown as stored.
pub proof fn law_shown_colors(fourcc: Fourcc, stored: Seq<Seq<u8>>, i: int)
    requires
        stored.len() == fourcc.planes(),
    ensures
        ({
            let shown = decoder::recolored(fourcc, stored);
            let rgb = fourcc == Fourcc::Ulrg || fourcc == Fourcc::Ulra;
            &&& shown.len() == stored.len()
            &&& shown[0] == stored[0]
            &&& fourcc == Fourcc::Ulra ==> shown[3] == stored[3]
            &&& !rgb ==> shown[1] == stored[1] && shown[2] == stored[2]
            &&& shown[1].len() == stored[1].len()
            &&& shown[2].len() == stored[2].len()
            &&& rgb && 0 <= i < stored[1].len() ==> shown[1][i] == (stored[1][i] + stored[0][i]
                - 128) % 256
            &&& rgb && 0 <= i < stored[2].len() ==> shown[2][i] == (stored[2][i] + stored[0][i]
                - 128) % 256
        }),
{
}

proof fn lemma_planes_listed(cfg: StreamConfig, data: Seq<u8>, k: nat, p: nat, strict: bool)
    requires
        decoder::planes_outcome(cfg, data, k, strict) is Ok,
        p < k,
    ensures
        (decoder::planes_outcome(cfg, data, k, strict)->Ok_0).len() == k,
        decoder::plane_outcome(cfg, data, p, strict) == Ok::<Seq<u8>, Error>(
            (decoder::planes_outcome(cfg, data, k, strict)->Ok_0)[p as int],
        ),
    decreases k,
{
    let m = (k - 1) as nat;
    if p < m {
        lemma_planes_listed(cfg, data, m, p, strict);
    } else if m > 0 {
        lemma_planes_listed(cfg, data, m, (m - 1) as nat, strict);
    }
}

/// The samples of a decoded frame: the green plane, the luma and chroma planes
/// and the alpha plane are the decoded planes, and each blue or red sample is
/// the decoded one plus the green one minus 128, modulo 256.
pub proof fn law_decoded_colors(cfg: StreamConfig, data: Seq<u8>, i: int, strict: bool)
    requires
        decoder::frame_outcome(cfg, data, strict) is Ok,
    ensures
        ({
            let shown = decoder::frame_outcome(cfg, data, strict)->Ok_0;
            let g = decoder::plane_outcome(cfg, data, 0, strict)->Ok_0;
            let b = decoder::plane_outcome(cfg, data, 1, strict)->Ok_0;
            let r = decoder::plane_outcome(cfg, data, 2, strict)->Ok_0;
            let rgb = cfg.fourcc == Fourcc::Ulrg || cfg.fourcc == Fourcc::Ulra;
            &&& shown.len() == (if cfg.fourcc == Fourcc::Ulra {
                4nat
            } else {
                3nat
            })
            &&& decoder::plane_outcome(cfg, data, 0, strict) == Ok::<Seq<u8>, Error>(shown[0])
            &&& cfg.fourcc == Fourcc::Ulra ==> decoder::plane_outcome(cfg, data, 3, strict) == Ok::<
                Seq<u8>,
                Error,
            >(shown[3])
            &&& decoder::plane_outcome(cfg, data, 1, strict) is Ok
            &&& decoder::plane_outcome(cfg, data, 2, strict) is Ok
            &&& shown[1].len() == b.len()
            &&& shown[2].len() == r.len()
            &&& !rgb ==> shown[1] == b && shown[2] == r
            &&& rgb && 0 <= i < b.len() ==> shown[1][i] == (b[i] + g[i] - 128) % 256
            &&& rgb && 0 <= i < r.len() ==> shown[2][i] == (r[i] + g[i] - 128) % 256
        }),
{
    let k = cfg.fourcc.planes();
    let stored = decoder::planes_outcome(cfg, data, k, strict)->Ok_0;
    lemma_planes_listed(cfg, data, k, 0, strict);
    lemma_planes_listed(cfg, data, k, 1, strict);
    lemma_planes_listed(cfg, data, k, 2, strict);
    if cfg.fourcc == Fourcc::Ulra {
        lemma_planes_listed(cfg, data, k, 3, strict);
    }
    law_shown_colors(cfg.fourcc, stored, i);
}

/// The residuals of an encoded frame: slice `s` of plane `p` has those of rows
/// `height * s / n` to `height * (s + 1) / n` of the plane as it is stored,
/// blue and red being stored as the difference to green plus 128, modulo 256.
pub proof fn law_encoded_rows(frame: EncodedFrame, p: int, s: int, stored: Seq<u8>)
    requires
        frame.input_error() is None,
        0 <= p < frame.fourcc.planes(),
        0 <= s < frame.num_slices,
        stored.len() == frame.planes@[p].samples@.len(),
        ({
            let rgb = frame.fourcc == Fourcc::Ulrg || frame.fourcc == Fourcc::Ulra;
            &&& rgb && (p == 1 || p == 2) ==> forall|i: int|
                0 <= i < stored.len() ==> #[trigger] stored[i] == (frame.planes@[p].samples@[i]
                    - frame.planes@[0].samples@[i] + 128) % 256
            &&& !rgb || (p != 1 && p != 2) ==> stored == frame.planes@[p].samples@
        }),
    ensures
        ({
            let (w, h) = frame.fourcc.dims(p, frame.width, frame.height);
            let n = frame.num_slices as int;
            &&& encoder::frame_residuals(frame, p).len() == n
            &&& encoder::frame_residuals(frame, p)[s] == predict::residuals(
                frame.predictor,
                stored.subrange((h * s / n) * w, (h * (s + 1) / n) * w),
                w as int,
            )
        }),
{
    let (w, h) = frame.fourcc.dims(p, frame.width, frame.height);
    let all = encoder::input_samples(frame.planes@);
    encoder::lemma_sizes(frame, frame.fourcc.planes(), p);
    encoder::lemma_plane_size(frame, p);
    let plane = encoder::decolored(frame.fourcc, all)[p];
    assert forall|i: int| 0 <= i < stored.len() implies plane[i] == stored[i] by {
        law_stored_colors(frame.fourcc, all, i);
    }
    law_stored_colors(frame.fourcc, all, 0);
    assert(plane =~= stored);
    lemma_mul_is_commutative(w as int, h as int);
    law_slice_residuals(frame.predictor, plane, w as int, h as int, frame.num_slices as nat, s);
}

/// Plane sizes: the two chroma planes are equally large, half as wide for 4:2:2
/// and half as wide and half as high for 4:2:0; all other planes are as large
/// as the frame.
pub proof fn law_plane_sizes(fourcc: Fourcc, p: int, width: u32, height: u32)
    requires
        0 <= p < fourcc.planes(),
    ensures
        ({
            let (w, h) = fourcc.dims(p, width, height);
            let chroma = p == 1 || p == 2;
            &&& fourcc == Fourcc::Uly0 && chroma ==> 2 * w <= width < 2 * w + 2 && 2 * h <= height
                < 2 * h + 2
            &&& fourcc == Fourcc::Uly2 && chroma ==> 2 * w <= width < 2 * w + 2 && h == height
            &&& !chroma ==> w == width && h == height
            &&& fourcc == Fourcc::Uly4 || fourcc == Fourcc::Ulrg || fourcc == Fourcc::Ulra ==> w
                == width && h == height
        }),
        fourcc.dims(1, width, height) == fourcc.dims(2, width, height),
        fourcc.dims_error(width, height) is None ==> {
            let (w, h) = fourcc.dims(1, width, height);
            &&& fourcc == Fourcc::Uly0 ==> 2 * w == width && 2 * h == height
            &&& fourcc == Fourcc::Uly2 ==> 2 * w == width && h == height
        },
{
}

/// Let a judge prefer residuals that cost less. Then the chosen predictor is
/// one whose residuals on the first eight rows of the plane, or on all rows of
/// a lower one, cost least; among equals it is the first of gradient, median,
/// left and identity.
pub proof fn law_choice_is_cheapest<F: Fn(&[u8], &[u8]) -> bool>(
    beats: F,
    cost: spec_fn(Seq<u8>) -> int,
    plane: Seq<u8>,
    w: int,
    height: int,
    p: Predictor,
)
    requires
        w >= 1,
        height >= 1,
        plane.len() == w * height,
        forall|x: &[u8], y: &[u8], b: bool| #[trigger]
            call_ensures(beats, (x, y), b) ==> b == (cost(x@) < cost(y@)),
        predict::chosen(beats, plane, w, height, p),
    ensures
        ({
            let rows = if height < 8 {
                height
            } else {
                8
            };
            let top = plane.take(w * rows);
            let gradient = cost(predict::residuals(Predictor::Gradient, top, w));
            let median = cost(predict::residuals(Predictor::Median, top, w));
            let left = cost(predict::residuals(Predictor::Left, top, w));
            let identity = cost(predict::residuals(Predictor::Identity, top, w));
            &&& p == Predictor::Gradient <==> gradient <= median && gradient <= left && gradient
                <= identity
            &&& p == Predictor::Median <==> median < gradient && median <= left && median
                <= identity
            &&& p == Predictor::Left <==> left < gradient && left < median && left <= identity
            &&& p == Predictor::Identity <==> identity < gradient && identity < median && identity
                < left
        }),
{
    let rows = if height < 8 {
        height
    } else {
        8
    };
    let top = plane.take(w * rows);
    predict::lemma_rows_inside(0, rows, height, w);
    lemma_mul_is_commutative(w, rows);
    lemma_mul_is_commutative(w, height);
    lemma_mul_basics_1(w);
    assert(predict::rows_of(plane, w, 0, rows) =~= top);
    let g = cost(predict::residuals(Predictor::Gradient, top, w));
    let m = cost(predict::residuals(Predictor::Median, top, w));
    let l = cost(predict::residuals(Predictor::Left, top, w));
    let i = cost(predict::residuals(Predictor::Identity, top, w));
    let (b1, p1, b2, p2, b3) = choose|
        b1: bool,
        p1: Predictor,
        b2: bool,
        p2: Predictor,
        b3: bool,
    |
        {
            &&& #[trigger] predict::judged(
                beats,
                plane,
                w,
                height,
                Predictor::Median,
                Predictor::Gradient,
                b1,
            )
            &&& p1 == predict::better(Predictor::Median, Predictor::Gradient, b1)
            &&& #[trigger] predict::judged(beats, plane, w, height, Predictor::Left, p1, b2)
            &&& p2 == predict::better(Predictor::Left, p1, b2)
            &&& #[trigger] predict::judged(beats, plane, w, height, Predictor::Identity, p2, b3)
            &&& p == predict::better(Predictor::Identity, p2, b3)
        };
    assert(b1 == (m < g));
    assert(p1 == Predictor::Gradient || p1 == Predictor::Median);
    assert(b2 == (l < cost(predict::residuals(p1, top, w))));
    assert(b3 == (i < cost(predict::residuals(p2, top, w))));
}

/// A judge is handed one residual for each sample of the first eight rows, or
/// of all rows of a lower plane, in the order of the samples: those of the mode
/// on trial and those of the best mode so far.
pub proof fn law_judged_residuals<F: Fn(&[u8], &[u8]) -> bool>(
    beats: F,
    plane: Seq<u8>,
    w: int,
    height: int,
    new: Predictor,
    best: Predictor,
    b: bool,
)
    requires
        w >= 1,
        height >= 1,
        plane.len() == w * height,
        predict::judged(beats, plane, w, height, new, best, b),
    ensures
        ({
            let rows = if height < 8 {
                height
            } else {
                8
            };
            exists|x: &[u8], y: &[u8]|
                {
                    &&& #[trigger] call_ensures(beats, (x, y), b)
                    &&& x@.len() == w * rows
                    &&& y@.len() == w * rows
                    &&& x@ == predict::residuals(new, plane.take(w * rows), w)
                    &&& y@ == predict::residuals(best, plane.take(w * rows), w)
                }
        }),
{
    let rows = if height < 8 {
        height
    } else {
        8
    };
    predict::lemma_rows_inside(0, rows, height, w);
    lemma_mul_is_commutative(w, rows);
    lemma_mul_is_commutative(w, height);
    lemma_mul_basics_1(w);
    assert(predict::rows_of(plane, w, 0, rows) =~= plane.take(w * rows));
    let (x, y) = choose|x: &[u8], y: &[u8]|
        x@ == predict::sampled(new, plane, w, height) && y@ == predict::sampled(
            best,
            plane,
            w,
            height,
        ) && #[trigger] call_ensures(beats, (x, y), b);
    assert(call_ensures(beats, (x, y), b));
}

} // verus!
