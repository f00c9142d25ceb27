//! Sample prediction: residuals from samples and samples from residuals.
//!
//! A slice is scanned row by row from the top. Its first sample is predicted
//! as 128 in every mode but the identity, so slices do not depend on each
//! other.

use crate::fourcc::Predictor;
use vstd::arithmetic::div_mod::*;
use vstd::arithmetic::mul::*;
use vstd::prelude::*;

verus! {

/// Row budget of [`choose_predictor`].
pub const HEURISTIC_SAMPLE_ROWS: usize = 8;

/// A number reduced to a byte.
pub open spec fn wrap(v: int) -> u8 {
    (v % 256) as u8
}

/// `a + b - c`, clipped to the range between `a` and `b`.
pub open spec fn clipped(a: u8, b: u8, c: u8) -> u8 {
    let lo = if a < b {
        a
    } else {
        b
    };
    let hi = if a < b {
        b
    } else {
        a
    };
    let v = a + b - c;
    if v < lo {
        lo
    } else if v > hi {
        hi
    } else {
        v as u8
    }
}

/// The sample before number `i`; 128 before the first one.
pub open spec fn before(samples: Seq<u8>, i: int) -> u8 {
    if i == 0 {
        128
    } else {
        samples[i - 1]
    }
}

/// The prediction of sample `i` of a slice of width `w` from the samples
/// before it.
pub open spec fn predicted(pred: Predictor, samples: Seq<u8>, w: int, i: int) -> u8 {
    match pred {
        Predictor::Identity => 0,
        Predictor::Left => before(samples, i),
        Predictor::Gradient => if i < w {
            before(samples, i)
        } else if i % w == 0 {
            samples[i - w]
        } else {
            wrap(samples[i - 1] + samples[i - w] - samples[i - w - 1])
        },
        Predictor::Median => if i < w {
            before(samples, i)
        } else if i == w {
            samples[0]
        } else {
            clipped(samples[i - 1], samples[i - w], samples[i - w - 1])
        },
    }
}

/// The residuals of a slice.
pub open spec fn residuals(pred: Predictor, samples: Seq<u8>, w: int) -> Seq<u8> {
    Seq::new(samples.len(), |i: int| wrap(samples[i] - predicted(pred, samples, w, i)))
}

/// The first `n` samples of the slice with the given residuals.
pub open spec fn restored(pred: Predictor, res: Seq<u8>, w: int, n: nat) -> Seq<u8>
    decreases n,
{
    if n == 0 {
        Seq::empty()
    } else {
        let head = restored(pred, res, w, (n - 1) as nat);
        head.push(wrap(res[n - 1] + predicted(pred, head, w, n - 1)))
    }
}

/// All samples of the slice with the given residuals.
pub open spec fn restored_slice(pred: Predictor, res: Seq<u8>, w: int) -> Seq<u8> {
    restored(pred, res, w, res.len())
}

/// The slices of a plane, restored one after the other.
pub open spec fn restored_plane(pred: Predictor, slices: Seq<Seq<u8>>, w: int) -> Seq<u8>
    decreases slices.len(),
{
    if slices.len() == 0 {
        Seq::empty()
    } else {
        restored_plane(pred, slices.drop_last(), w) + restored_slice(pred, slices.last(), w)
    }
}

/// The first row of slice `s` of `n` in a plane of `height` rows.
pub open spec fn row_start(height: int, n: int, s: int) -> int {
    height * s / n
}

/// The number of rows of slice `s`.
pub open spec fn row_count(height: int, n: int, s: int) -> int {
    row_start(height, n, s + 1) - row_start(height, n, s)
}

/// The samples of rows `a` to `b` of a plane of width `w`.
pub open spec fn rows_of(plane: Seq<u8>, w: int, a: int, b: int) -> Seq<u8> {
    if a < b {
        plane.subrange(a * w, b * w)
    } else {
        Seq::empty()
    }
}

/// The residuals of each slice of a plane.
pub open spec fn plane_residuals(
    pred: Predictor,
    plane: Seq<u8>,
    w: int,
    height: int,
    n: nat,
) -> Seq<Seq<u8>> {
    Seq::new(
        n,
        |s: int|
            residuals(
                pred,
                rows_of(plane, w, row_start(height, n as int, s), row_start(height, n as int, s + 1)),
                w,
            ),
    )
}

/// A prediction depends only on the samples before it.
pub proof fn lemma_predicted_local(pred: Predictor, a: Seq<u8>, b: Seq<u8>, w: int, i: int)
    requires
        0 <= i <= a.len(),
        i <= b.len(),
        w >= 1,
        forall|k: int| 0 <= k < i ==> a[k] == b[k],
    ensures
        predicted(pred, a, w, i) == predicted(pred, b, w, i),
{
    if i == w {
        lemma_mod_self_0(w);
    }
}

/// The restored samples are as many as asked for, and the first ones do not
/// depend on how many follow.
pub proof fn lemma_restored_prefix(pred: Predictor, res: Seq<u8>, w: int, m: nat, n: nat)
    requires
        m <= n,
    ensures
        restored(pred, res, w, n).len() == n,
        restored(pred, res, w, n).take(m as int) == restored(pred, res, w, m),
    decreases n,
{
    if n > 0 {
        let k = (n - 1) as nat;
        if m == n {
            lemma_restored_prefix(pred, res, w, k, k);
            assert(restored(pred, res, w, n).take(m as int) =~= restored(pred, res, w, m));
        } else {
            lemma_restored_prefix(pred, res, w, m, k);
            assert(restored(pred, res, w, n).take(m as int) =~= restored(pred, res, w, k).take(
                m as int,
            ));
        }
    } else {
        assert(restored(pred, res, w, n).take(0) =~= restored(pred, res, w, 0));
    }
}

/// Restoring the residuals of samples gives the samples.
pub proof fn law_restore_residuals(pred: Predictor, samples: Seq<u8>, w: int, n: nat)
    requires
        w >= 1,
        n <= samples.len(),
    ensures
        restored(pred, residuals(pred, samples, w), w, n) == samples.take(n as int),
    decreases n,
{
    let res = residuals(pred, samples, w);
    if n > 0 {
        let m = (n - 1) as nat;
        law_restore_residuals(pred, samples, w, m);
        let head = restored(pred, res, w, m);
        lemma_predicted_local(pred, head, samples, w, m as int);
        lemma_wrap_back(samples[m as int], predicted(pred, samples, w, m as int));
        assert(restored(pred, res, w, n) =~= samples.take(n as int));
    } else {
        assert(restored(pred, res, w, n) =~= samples.take(0));
    }
}

/// The residuals of restored samples are the residuals that they were
/// restored from.
pub proof fn law_residuals_restored(pred: Predictor, res: Seq<u8>, w: int)
    requires
        w >= 1,
    ensures
        residuals(pred, restored_slice(pred, res, w), w) == res,
{
    let out = restored_slice(pred, res, w);
    lemma_restored_prefix(pred, res, w, res.len(), res.len());
    assert forall|i: int| 0 <= i < res.len() implies residuals(pred, out, w)[i] == res[i] by {
        lemma_restored_prefix(pred, res, w, (i + 1) as nat, res.len());
        lemma_restored_prefix(pred, res, w, i as nat, (i + 1) as nat);
        let head = restored(pred, res, w, i as nat);
        let more = restored(pred, res, w, (i + 1) as nat);
        assert(out.take(i + 1)[i] == out[i]);
        assert(more[i] == wrap(res[i] + predicted(pred, head, w, i)));
        assert forall|k: int| 0 <= k < i implies head[k] == out[k] by {
            assert(more.take(i)[k] == more[k]);
            assert(out.take(i + 1)[k] == out[k]);
        }
        lemma_predicted_local(pred, head, out, w, i);
        lemma_wrap_forth(res[i], predicted(pred, head, w, i));
    }
    assert(residuals(pred, out, w) =~= res);
}

pub proof fn lemma_wrap_back(s: u8, p: u8)
    ensures
        wrap(wrap(s - p) + p) == s,
{
}

proof fn lemma_wrap_forth(r: u8, p: u8)
    ensures
        wrap(wrap(r + p) - p) == r,
{
}

/// The slices of a plane are consecutive runs of rows that begin with the
/// first row and end with the last.
pub proof fn law_rows_partition(height: int, n: int, s: int)
    requires
        0 <= height,
        1 <= n,
        0 <= s < n,
    ensures
        row_start(height, n, 0) == 0,
        row_start(height, n, n) == height,
        0 <= row_start(height, n, s) <= row_start(height, n, s + 1) <= height,
{
    lemma_mul_basics(height);
    lemma_div_multiples_vanish(height, n);
    lemma_mul_is_commutative(height, n);
    assert(height * s <= height * (s + 1) <= height * n) by (nonlinear_arith)
        requires
            0 <= height,
            0 <= s < n,
    ;
    lemma_div_is_ordered(height * s, height * (s + 1), n);
    lemma_div_is_ordered(height * (s + 1), height * n, n);
    assert(0 <= height * s) by (nonlinear_arith)
        requires
            0 <= height,
            0 <= s,
    ;
    lemma_div_pos_is_pos(height * s, n);
    lemma_div_by_multiple(height, n);
    lemma_div_of0(n);
}

/// Rows `a` to `b` of a plane lie inside it.
pub proof fn lemma_rows_inside(a: int, b: int, height: int, w: int)
    requires
        0 <= a <= b <= height,
        0 <= w,
    ensures
        0 <= a * w <= b * w <= height * w,
        (b - a) * w == b * w - a * w,
{
    assert(0 <= a * w <= b * w <= height * w) by (nonlinear_arith)
        requires
            0 <= a <= b <= height,
            0 <= w,
    ;
    assert((b - a) * w == b * w - a * w) by (nonlinear_arith);
}

/// Restoring the residuals of every slice of a plane gives the plane.
pub proof fn law_restore_plane(
    pred: Predictor,
    plane: Seq<u8>,
    w: int,
    height: int,
    n: nat,
    k: nat,
)
    requires
        w >= 1,
        height >= 0,
        n >= 1,
        k <= n,
        plane.len() == height * w,
    ensures
        restored_plane(pred, plane_residuals(pred, plane, w, height, n).take(k as int), w)
            == plane.take(row_start(height, n as int, k as int) * w),
    decreases k,
{
    let all = plane_residuals(pred, plane, w, height, n);
    let nn = n as int;
    if k == 0 {
        law_rows_partition(height, nn, 0);
        lemma_mul_basics_1(w);
        assert(all.take(0).len() == 0);
        assert(plane.take(0) =~= Seq::<u8>::empty());
    } else {
        let s = k - 1;
        law_restore_plane(pred, plane, w, height, n, s as nat);
        law_rows_partition(height, nn, s);
        let a = row_start(height, nn, s);
        let b = row_start(height, nn, s + 1);
        lemma_rows_inside(a, b, height, w);
        let part = rows_of(plane, w, a, b);
        assert(all.take(k as int).drop_last() =~= all.take(s));
        assert(all.take(k as int).last() == residuals(pred, part, w));
        law_restore_residuals(pred, part, w, part.len());
        assert(part.take(part.len() as int) =~= part);
        assert(plane.take(b * w) =~= plane.take(a * w) + part);
    }
}

/// The clipped prediction.
fn med(a: u8, b: u8, c: u8) -> (p: u8)
    ensures
        p == clipped(a, b, c),
{
    let max: u8 = if a < b { b } else { a };
    let min: u8 = if a < b { a } else { b };
    if c >= max {
        min
    } else if c <= min {
        max
    } else {
        a.wrapping_add(b).wrapping_sub(c)
    }
}

/// The prediction of sample `i` from the samples before it.
fn predict_sample(pred: Predictor, samples: &[u8], width: usize, i: usize) -> (p: u8)
    requires
        width >= 1,
        i <= samples@.len(),
    ensures
        p == predicted(pred, samples@, width as int, i as int),
{
    match pred {
        Predictor::Identity => 0,
        Predictor::Left => if i == 0 {
            128
        } else {
            samples[i - 1]
        },
        Predictor::Gradient => if i == 0 {
            128
        } else if i < width {
            samples[i - 1]
        } else if i % width == 0 {
            samples[i - width]
        } else {
            assert(i != width) by {
                if i == width {
                    lemma_mod_self_0(width as int);
                }
            }
            samples[i - 1].wrapping_add(samples[i - width]).wrapping_sub(samples[i - width - 1])
        },
        Predictor::Median => if i == 0 {
            128
        } else if i < width {
            samples[i - 1]
        } else if i == width {
            samples[0]
        } else {
            med(samples[i - 1], samples[i - width], samples[i - width - 1])
        },
    }
}

/// Restores the samples of one slice from its residuals.
pub fn apply_slice(pred: Predictor, strip: &mut [u8], width: usize, rows: usize, residuals: &[u8])
    requires
        old(strip)@.len() == width * rows,
        residuals@.len() == width * rows,
    ensures
        final(strip)@ == restored_slice(pred, residuals@, width as int),
{
    let n: usize = residuals.len();
    let mut i: usize = 0;
    proof {
        if n > 0 && width == 0 {
            lemma_mul_basics_1(rows as int);
        }
        assert(strip@.take(0) =~= restored(pred, residuals@, width as int, 0));
    }
    while i < n
        invariant
            i <= n,
            n == residuals@.len(),
            n > 0 ==> width >= 1,
            strip@.len() == n,
            strip@.take(i as int) == restored(pred, residuals@, width as int, i as nat),
        decreases n - i,
    {
        let p: u8 = predict_sample(pred, strip, width, i);
        let ghost was = strip@;
        let v: u8 = residuals[i].wrapping_add(p);
        strip[i] = v;
        proof {
            let head = was.take(i as int);
            lemma_predicted_local(pred, head, was, width as int, i as int);
            assert(strip@.take(i + 1) =~= head.push(v));
        }
        i = i + 1;
    }
    proof {
        assert(strip@.take(n as int) =~= strip@);
    }
}

/// The residuals of rows `r_start` to `r_end` of a plane, taken as a slice of
/// their own.
pub fn forward_slice(
    pred: Predictor,
    plane: &[u8],
    width: usize,
    r_start: usize,
    r_end: usize,
) -> (out: Vec<u8>)
    requires
        r_start <= r_end,
        r_start < r_end ==> r_end * width <= plane@.len(),
    ensures
        out@ == residuals(
            pred,
            rows_of(plane@, width as int, r_start as int, r_end as int),
            width as int,
        ),
{
    let mut out: Vec<u8> = Vec::new();
    if width == 0 || r_start == r_end {
        proof {
            lemma_mul_basics_1(r_start as int);
            lemma_mul_basics_2(r_start as int);
            lemma_mul_basics_2(r_end as int);
            assert(out@ =~= residuals(
                pred,
                rows_of(plane@, width as int, r_start as int, r_end as int),
                width as int,
            ));
        }
        return out;
    }
    proof {
        lemma_rows_inside(r_start as int, r_end as int, r_end as int, width as int);
    }
    assert(plane.len() <= usize::MAX);
    let strip: &[u8] = vstd::slice::slice_subrange(plane, r_start * width, r_end * width);
    let n: usize = strip.len();
    let mut i: usize = 0;
    while i < n
        invariant
            i <= n,
            n == strip@.len(),
            width >= 1,
            out@ == residuals(pred, strip@, width as int).take(i as int),
        decreases n - i,
    {
        let p: u8 = predict_sample(pred, strip, width, i);
        out.push(strip[i].wrapping_sub(p));
        proof {
            assert(residuals(pred, strip@, width as int).take(i + 1) =~= residuals(
                pred,
                strip@,
                width as int,
            ).take(i as int).push(residuals(pred, strip@, width as int)[i as int]));
        }
        i = i + 1;
    }
    proof {
        assert(residuals(pred, strip@, width as int).take(n as int) =~= residuals(
            pred,
            strip@,
            width as int,
        ));
    }
    out
}

/// The residuals of every slice of a plane.
pub fn forward(
    pred: Predictor,
    plane: &[u8],
    width: usize,
    plane_height: usize,
    num_slices: usize,
) -> (out: Vec<Vec<u8>>)
    requires
        plane@.len() == width * plane_height,
        plane_height * num_slices <= usize::MAX,
    ensures
        views(out@) == plane_residuals(
            pred,
            plane@,
            width as int,
            plane_height as int,
            num_slices as nat,
        ),
{
    let ghost all = plane_residuals(
        pred,
        plane@,
        width as int,
        plane_height as int,
        num_slices as nat,
    );
    let mut out: Vec<Vec<u8>> = Vec::new();
    let mut s: usize = 0;
    while s < num_slices
        invariant
            s <= num_slices,
            plane@.len() == width * plane_height,
            plane_height * num_slices <= usize::MAX,
            all == plane_residuals(
                pred,
                plane@,
                width as int,
                plane_height as int,
                num_slices as nat,
            ),
            views(out@) == all.take(s as int),
        decreases num_slices - s,
    {
        let (r_start, r_end) = slice_rows(plane_height, num_slices, s);
        proof {
            lemma_rows_inside(r_start as int, r_end as int, plane_height as int, width as int);
            lemma_mul_is_commutative(width as int, plane_height as int);
        }
        let part: Vec<u8> = forward_slice(pred, plane, width, r_start, r_end);
        let ghost was = out@;
        out.push(part);
        proof {
            assert(views(out@) =~= views(was).push(part@));
            assert(all.take(s + 1) =~= all.take(s as int).push(all[s as int]));
        }
        s = s + 1;
    }
    proof {
        assert(all.take(num_slices as int) =~= all);
    }
    out
}

/// The contents of a sequence of vectors.
pub open spec fn views(v: Seq<Vec<u8>>) -> Seq<Seq<u8>> {
    Seq::new(v.len(), |i: int| v[i]@)
}

/// The first row of slice `s`, and the row after its last one.
pub fn slice_rows(plane_height: usize, num_slices: usize, s: usize) -> (r: (usize, usize))
    requires
        s < num_slices,
        plane_height * num_slices <= usize::MAX,
    ensures
        r.0 == row_start(plane_height as int, num_slices as int, s as int),
        r.1 == row_start(plane_height as int, num_slices as int, s + 1),
        r.0 <= r.1 <= plane_height,
{
    proof {
        law_rows_partition(plane_height as int, num_slices as int, s as int);
        let h = plane_height as int;
        assert(h * s <= h * num_slices && h * (s + 1) <= h * num_slices && 0 <= h * s) by (
            nonlinear_arith)
            requires
                0 <= h,
                0 <= s < num_slices,
        ;
    }
    ((plane_height * s) / num_slices, (plane_height * (s + 1)) / num_slices)
}

/// Each slice has the residuals of its rows.
pub open spec fn sized(slices: Seq<Seq<u8>>, w: int, height: int) -> bool {
    forall|s: int|
        0 <= s < slices.len() ==> (#[trigger] slices[s]).len() == w * row_count(
            height,
            slices.len() as int,
            s,
        )
}

/// Restores a plane from the residuals of its slices.
pub fn apply(
    pred: Predictor,
    plane: &mut [u8],
    width: usize,
    plane_height: usize,
    num_slices: usize,
    slice_residuals: &[Vec<u8>],
)
    requires
        slice_residuals@.len() == num_slices,
        old(plane)@.len() == width * plane_height,
        plane_height * num_slices <= usize::MAX,
        sized(views(slice_residuals@), width as int, plane_height as int),
    ensures
        num_slices > 0 ==> final(plane)@ == restored_plane(
            pred,
            views(slice_residuals@),
            width as int,
        ),
        num_slices == 0 ==> final(plane)@ == old(plane)@,
{
    let ghost all = views(slice_residuals@);
    let ghost h = plane_height as int;
    let ghost w = width as int;
    let ghost n = num_slices as int;
    let mut s: usize = 0;
    proof {
        assert(all.take(0).len() == 0);
        if num_slices > 0 {
            law_rows_partition(h, n, 0);
        }
        lemma_mul_basics_1(w);
        assert(plane@.take(0) =~= Seq::<u8>::empty());
    }
    while s < num_slices
        invariant
            s <= num_slices,
            h == plane_height,
            w == width,
            n == num_slices,
            all == views(slice_residuals@),
            slice_residuals@.len() == num_slices,
            plane@.len() == width * plane_height,
            plane_height * num_slices <= usize::MAX,
            sized(all, w, h),
            num_slices > 0 ==> plane@.take(row_start(h, n, s as int) * w) == restored_plane(
                pred,
                all.take(s as int),
                w,
            ),
            num_slices == 0 ==> plane@ == old(plane)@,
        decreases num_slices - s,
    {
        let (r_start, r_end) = slice_rows(plane_height, num_slices, s);
        let ghost was = plane@;
        let total: usize = plane.len();
        proof {
            lemma_rows_inside(r_start as int, r_end as int, h, w);
            lemma_mul_is_commutative(w, h);
            assert(all[s as int] == slice_residuals@[s as int]@);
            lemma_mul_is_commutative(w, r_end - r_start);
            lemma_restored_prefix(
                pred,
                all[s as int],
                w,
                all[s as int].len(),
                all[s as int].len(),
            );
        }
        let (head, tail) = plane.split_at_mut(r_start * width);
        let rows: usize = r_end - r_start;
        proof {
            lemma_mul_is_commutative(w, rows as int);
        }
        let (strip, rest) = tail.split_at_mut(rows * width);
        apply_slice(pred, strip, width, rows, slice_residuals[s].as_slice());
        proof {
            let a = r_start * w;
            let b = r_end * w;
            let part = restored_slice(pred, all[s as int], w);
            assert(plane@ =~= was.subrange(0, a) + part + was.subrange(b, was.len() as int));
            assert(plane@.take(b) =~= was.take(a) + part);
            assert(all.take(s + 1).drop_last() =~= all.take(s as int));
            assert(all.take(s + 1).last() == all[s as int]);
        }
        s = s + 1;
    }
    proof {
        if num_slices > 0 {
            law_rows_partition(h, n, 0);
            lemma_mul_is_commutative(w, h);
            assert(plane@.take(h * w) =~= plane@);
            assert(all.take(n) =~= all);
        }
    }
}

/// Picks a predictor for a plane: the residuals of its first rows are worked
/// out for each mode in the order gradient, median, left, identity, and a
/// mode takes the place of the best one so far if `beats` says so of their
/// residuals. A plane without samples gets the gradient.
pub fn choose_predictor<F: Fn(&[u8], &[u8]) -> bool>(
    plane: &[u8],
    width: usize,
    plane_height: usize,
    beats: F,
) -> (p: Predictor)
    requires
        width > 0 && plane_height > 0 ==> plane@.len() == width * plane_height,
        forall|a: &[u8], b: &[u8]| call_requires(beats, (a, b)),
    ensures
        width == 0 || plane_height == 0 ==> p == Predictor::Gradient,
        width > 0 && plane_height > 0 ==> chosen(beats, plane@, width as int, plane_height as int, p),
{
    if width == 0 || plane_height == 0 {
        return Predictor::Gradient;
    }
    let rows: usize = if plane_height < HEURISTIC_SAMPLE_ROWS {
        plane_height
    } else {
        HEURISTIC_SAMPLE_ROWS
    };
    proof {
        lemma_rows_inside(0, rows as int, plane_height as int, width as int);
        lemma_mul_is_commutative(width as int, plane_height as int);
    }
    let gradient: Vec<u8> = forward_slice(Predictor::Gradient, plane, width, 0, rows);
    let median: Vec<u8> = forward_slice(Predictor::Median, plane, width, 0, rows);
    let left: Vec<u8> = forward_slice(Predictor::Left, plane, width, 0, rows);
    let identity: Vec<u8> = forward_slice(Predictor::Identity, plane, width, 0, rows);
    let mut best: Predictor = Predictor::Gradient;
    let mut best_residuals: &[u8] = gradient.as_slice();
    let b1: bool = beats(median.as_slice(), best_residuals);
    if b1 {
        best = Predictor::Median;
        best_residuals = median.as_slice();
    }
    let ghost p1 = best;
    let b2: bool = beats(left.as_slice(), best_residuals);
    if b2 {
        best = Predictor::Left;
        best_residuals = left.as_slice();
    }
    let ghost p2 = best;
    let b3: bool = beats(identity.as_slice(), best_residuals);
    if b3 {
        best = Predictor::Identity;
    }
    proof {
        let w = width as int;
        let h = plane_height as int;
        assert(judged(beats, plane@, w, h, Predictor::Median, Predictor::Gradient, b1));
        assert(judged(beats, plane@, w, h, Predictor::Left, p1, b2));
        assert(judged(beats, plane@, w, h, Predictor::Identity, p2, b3));
    }
    best
}

/// The residuals by which a mode is judged.
pub open spec fn sampled(pred: Predictor, plane: Seq<u8>, w: int, height: int) -> Seq<u8> {
    let rows = if height < HEURISTIC_SAMPLE_ROWS {
        height
    } else {
        HEURISTIC_SAMPLE_ROWS as int
    };
    residuals(pred, rows_of(plane, w, 0, rows), w)
}

/// `beats` answers `b` when asked of the residuals of modes `new` and `best`.
pub open spec fn judged<F: Fn(&[u8], &[u8]) -> bool>(
    beats: F,
    plane: Seq<u8>,
    w: int,
    height: int,
    new: Predictor,
    best: Predictor,
    b: bool,
) -> bool {
    exists|x: &[u8], y: &[u8]|
        x@ == sampled(new, plane, w, height) && y@ == sampled(best, plane, w, height)
            && #[trigger] call_ensures(beats, (x, y), b)
}

/// The better one of two modes.
pub open spec fn better(new: Predictor, best: Predictor, b: bool) -> Predictor {
    if b {
        new
    } else {
        best
    }
}

/// `p` is the mode that three judgements leave.
pub open spec fn chosen<F: Fn(&[u8], &[u8]) -> bool>(
    beats: F,
    plane: Seq<u8>,
    w: int,
    height: int,
    p: Predictor,
) -> bool {
    exists|b1: bool, p1: Predictor, b2: bool, p2: Predictor, b3: bool|
        {
            &&& #[trigger] judged(
                beats,
                plane,
                w,
                height,
                Predictor::Median,
                Predictor::Gradient,
                b1,
            )
            &&& p1 == better(Predictor::Median, Predictor::Gradient, b1)
            &&& #[trigger] judged(beats, plane, w, height, Predictor::Left, p1, b2)
            &&& p2 == better(Predictor::Left, p1, b2)
            &&& #[trigger] judged(beats, plane, w, height, Predictor::Identity, p2, b3)
            &&& p == better(Predictor::Identity, p2, b3)
        }
}

/// Each sample of a plane relative to the green plane.
pub open spec fn decorrelated(g: Seq<u8>, c: Seq<u8>) -> Seq<u8> {
    Seq::new(c.len(), |i: int| wrap(c[i] - g[i] + 128))
}

/// The plane that was stored relative to the green plane.
pub open spec fn recorrelated(g: Seq<u8>, c: Seq<u8>) -> Seq<u8> {
    Seq::new(c.len(), |i: int| wrap(c[i] + g[i] - 128))
}

/// Storing a plane relative to green and undoing it gives the plane, and the
/// other way round.
pub proof fn law_decorrelation_inverse(g: Seq<u8>, c: Seq<u8>)
    requires
        g.len() == c.len(),
    ensures
        recorrelated(g, decorrelated(g, c)) == c,
        decorrelated(g, recorrelated(g, c)) == c,
{
    assert forall|i: int| 0 <= i < c.len() implies recorrelated(g, decorrelated(g, c))[i] == c[i]
        && decorrelated(g, recorrelated(g, c))[i] == c[i] by {
        lemma_offset_inverse(c[i], g[i]);
    }
    assert(recorrelated(g, decorrelated(g, c)) =~= c);
    assert(decorrelated(g, recorrelated(g, c)) =~= c);
}

proof fn lemma_offset_inverse(c: u8, g: u8)
    ensures
        wrap(wrap(c - g + 128) + g - 128) == c,
        wrap(wrap(c + g - 128) - g + 128) == c,
{
}

/// Undoes the green-relative storage of the blue and red planes.
pub fn inverse_decorrelate_rgb(g: &[u8], b: &mut [u8], r: &mut [u8])
    requires
        g@.len() == old(b)@.len(),
        g@.len() == old(r)@.len(),
    ensures
        final(b)@ == recorrelated(g@, old(b)@),
        final(r)@ == recorrelated(g@, old(r)@),
{
    let n: usize = g.len();
    let mut i: usize = 0;
    while i < n
        invariant
            i <= n,
            n == g@.len(),
            b@.len() == n,
            r@.len() == n,
            old(b)@.len() == n,
            old(r)@.len() == n,
            forall|k: int|
                0 <= k < n ==> #[trigger] b@[k] == if k < i {
                    recorrelated(g@, old(b)@)[k]
                } else {
                    old(b)@[k]
                },
            forall|k: int|
                0 <= k < n ==> #[trigger] r@[k] == if k < i {
                    recorrelated(g@, old(r)@)[k]
                } else {
                    old(r)@[k]
                },
        decreases n - i,
    {
        let gp: u8 = g[i];
        let bv: u8 = b[i].wrapping_add(gp).wrapping_sub(128);
        let rv: u8 = r[i].wrapping_add(gp).wrapping_sub(128);
        b[i] = bv;
        r[i] = rv;
        i = i + 1;
    }
    proof {
        assert(b@ =~= recorrelated(g@, old(b)@));
        assert(r@ =~= recorrelated(g@, old(r)@));
    }
}

/// Stores the blue and red planes relative to green.
pub fn forward_decorrelate_rgb(g: &[u8], b: &mut [u8], r: &mut [u8])
    requires
        g@.len() == old(b)@.len(),
        g@.len() == old(r)@.len(),
    ensures
        final(b)@ == decorrelated(g@, old(b)@),
        final(r)@ == decorrelated(g@, old(r)@),
{
    let n: usize = g.len();
    let mut i: usize = 0;
    while i < n
        invariant
            i <= n,
            n == g@.len(),
            b@.len() == n,
            r@.len() == n,
            old(b)@.len() == n,
            old(r)@.len() == n,
            forall|k: int|
                0 <= k < n ==> #[trigger] b@[k] == if k < i {
                    decorrelated(g@, old(b)@)[k]
                } else {
                    old(b)@[k]
                },
            forall|k: int|
                0 <= k < n ==> #[trigger] r@[k] == if k < i {
                    decorrelated(g@, old(r)@)[k]
                } else {
                    old(r)@[k]
                },
        decreases n - i,
    {
        let gp: u8 = g[i];
        let bv: u8 = b[i].wrapping_sub(gp).wrapping_add(128);
        let rv: u8 = r[i].wrapping_sub(gp).wrapping_add(128);
        b[i] = bv;
        r[i] = rv;
        i = i + 1;
    }
    proof {
        assert(b@ =~= decorrelated(g@, old(b)@));
        assert(r@ =~= decorrelated(g@, old(r)@));
    }
}

} // verus!
