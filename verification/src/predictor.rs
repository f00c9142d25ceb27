//! In-place inverse prediction with the modular median.
//!
//! The modes are those of [`crate::predict`] but for the median, which here is
//! the median of left, top and their gradient reduced to a byte.

use crate::error::Error;
use crate::predict;
use vstd::arithmetic::div_mod::*;
use vstd::arithmetic::mul::*;
use vstd::prelude::*;

verus! {

/// The prediction that the first sample of a slice has.
const SEED_8BIT: u8 = 0x80;

/// The prediction mode of a frame.
#[derive(Debug, Clone, Copy, PartialEq, Eq, Structural)]
pub enum Predictor {
    Identity,
    Left,
    Gradient,
    Median,
}

impl Predictor {
    /// The mode that bits 8 and 9 of a frame-info word name.
    pub open spec fn selected(frame_info: u32) -> Predictor {
        let mode = frame_info / 0x100 % 4;
        if mode == 0 {
            Predictor::Identity
        } else if mode == 1 {
            Predictor::Left
        } else if mode == 2 {
            Predictor::Gradient
        } else {
            Predictor::Median
        }
    }

    /// The mode that bits 8 and 9 of a frame-info word name. Every word names
    /// one.
    pub fn from_frame_info(frame_info: u32) -> (r: Result<Predictor, Error>)
        ensures
            r == Ok::<Predictor, Error>(Predictor::selected(frame_info)),
    {
        match frame_info / 0x100 % 4 {
            0 => Ok(Predictor::Identity),
            1 => Ok(Predictor::Left),
            2 => Ok(Predictor::Gradient),
            _ => Ok(Predictor::Median),
        }
    }
}

/// The middle one of three numbers.
pub open spec fn middle(a: u8, b: u8, c: u8) -> u8 {
    if a <= b <= c || c <= b <= a {
        b
    } else if b <= a <= c || c <= a <= b {
        a
    } else {
        c
    }
}

/// The median of `a`, `b` and `a + b - c` reduced to a byte.
pub open spec fn modular_median(a: u8, b: u8, c: u8) -> u8 {
    middle(a, b, predict::wrap(a + b - c))
}

/// The prediction of sample `i` of a slice of width `w` from the samples
/// before it.
pub open spec fn predicted(pred: Predictor, samples: Seq<u8>, w: int, i: int) -> u8 {
    match pred {
        Predictor::Identity => 0,
        Predictor::Left => predict::before(samples, i),
        Predictor::Gradient => if i < w {
            predict::before(samples, i)
        } else if i % w == 0 {
            samples[i - w]
        } else {
            predict::wrap(samples[i - 1] + samples[i - w] - samples[i - w - 1])
        },
        Predictor::Median => if i < w {
            predict::before(samples, i)
        } else if i == w {
            modular_median(samples[i - 1], samples[i - w], samples[i - 1])
        } else {
            modular_median(samples[i - 1], samples[i - w], samples[i - w - 1])
        },
    }
}

/// The residuals of a slice.
pub open spec fn residuals(pred: Predictor, samples: Seq<u8>, w: int) -> Seq<u8> {
    Seq::new(samples.len(), |i: int| predict::wrap(samples[i] - predicted(pred, samples, w, i)))
}

/// The first `n` samples of the slice with the given residuals.
pub open spec fn restored(pred: Predictor, res: Seq<u8>, w: int, n: nat) -> Seq<u8>
    decreases n,
{
    if n == 0 {
        Seq::empty()
    } else {
        let head = restored(pred, res, w, (n - 1) as nat);
        head.push(predict::wrap(res[n - 1] + predicted(pred, head, w, n - 1)))
    }
}

/// A prediction depends only on the samples before it.
pub proof fn lemma_predicted_local(pred: Predictor, a: Seq<u8>, b: Seq<u8>, w: int, i: int)
    requires
        0 <= i <= a.len(),
        i <= b.len(),
        w >= 1,
        forall|k: int| 0 <= k < i ==> a[k] == b[k],
    ensures
        predicted(pred, a, w, i) == predicted(pred, b, w, i),
{
    if i == w {
        lemma_mod_self_0(w);
    }
}

/// Restoring the residuals of samples gives the samples.
pub proof fn law_inverse_undoes_forward(pred: Predictor, samples: Seq<u8>, w: int, n: nat)
    requires
        w >= 1,
        n <= samples.len(),
    ensures
        restored(pred, residuals(pred, samples, w), w, n) == samples.take(n as int),
    decreases n,
{
    let res = residuals(pred, samples, w);
    if n > 0 {
        let m = (n - 1) as nat;
        law_inverse_undoes_forward(pred, samples, w, m);
        let head = restored(pred, res, w, m);
        lemma_predicted_local(pred, head, samples, w, m as int);
        predict::lemma_wrap_back(samples[m as int], predicted(pred, samples, w, m as int));
        assert(restored(pred, res, w, n) =~= samples.take(n as int));
    } else {
        assert(restored(pred, res, w, n) =~= samples.take(0));
    }
}

/// The modular median is the clipped prediction as long as `a + b - c` is a
/// byte.
pub proof fn law_medians_agree(a: u8, b: u8, c: u8)
    requires
        0 <= a + b - c <= 255,
    ensures
        modular_median(a, b, c) == predict::clipped(a, b, c),
{
}

/// The middle one of three numbers.
fn median3(a: u8, b: u8, c: u8) -> (m: u8)
    ensures
        m == middle(a, b, c),
{
    let ab_lo: u8 = if a < b { a } else { b };
    let ab_hi: u8 = if a < b { b } else { a };
    let lo: u8 = if ab_lo < c { ab_lo } else { c };
    let hi: u8 = if ab_hi < c { c } else { ab_hi };
    let sum: u16 = a as u16 + b as u16 + c as u16;
    (sum - lo as u16 - hi as u16) as u8
}

/// The median of `a`, `b` and `a + b - c` reduced to a byte.
pub fn mid_pred(a: u8, b: u8, c: u8) -> (m: u8)
    ensures
        m == modular_median(a, b, c),
{
    let gradient: u8 = a.wrapping_add(b).wrapping_sub(c);
    median3(a, b, gradient)
}

/// The prediction of sample `i` from the samples before it.
fn predict_sample(pred: Predictor, samples: &[u8], width: usize, i: usize) -> (p: u8)
    requires
        width >= 1,
        i < samples@.len(),
    ensures
        p == predicted(pred, samples@, width as int, i as int),
{
    match pred {
        Predictor::Identity => 0,
        Predictor::Left => if i == 0 {
            SEED_8BIT
        } else {
            samples[i - 1]
        },
        Predictor::Gradient => if i == 0 {
            SEED_8BIT
        } else if i < width {
            samples[i - 1]
        } else if i % width == 0 {
            samples[i - width]
        } else {
            assert(i != width) by {
                if i == width {
                    lemma_mod_self_0(width as int);
                }
            }
            samples[i - 1].wrapping_add(samples[i - width]).wrapping_sub(samples[i - width - 1])
        },
        Predictor::Median => if i == 0 {
            SEED_8BIT
        } else if i < width {
            samples[i - 1]
        } else {
            let a: u8 = samples[i - 1];
            let b: u8 = samples[i - width];
            let c: u8 = if i == width {
                a
            } else {
                samples[i - width - 1]
            };
            mid_pred(a, b, c)
        },
    }
}

/// Undoes the prediction of a slice in place.
pub fn apply_inverse_8bit(pred: Predictor, plane: &mut [u8], width: usize, slice_height: usize)
    requires
        width > 0 && slice_height > 0 ==> old(plane)@.len() == width * slice_height,
    ensures
        width == 0 || slice_height == 0 ==> final(plane)@ == old(plane)@,
        width > 0 && slice_height > 0 ==> final(plane)@ == restored(
            pred,
            old(plane)@,
            width as int,
            old(plane)@.len(),
        ),
{
    if width == 0 || slice_height == 0 {
        return;
    }
    let n: usize = plane.len();
    let ghost res = plane@;
    let mut i: usize = 0;
    proof {
        assert(plane@.take(0) =~= restored(pred, res, width as int, 0));
    }
    while i < n
        invariant
            i <= n,
            width >= 1,
            res == old(plane)@,
            n == res.len(),
            plane@.len() == n,
            plane@.take(i as int) == restored(pred, res, width as int, i as nat),
            forall|k: int| i <= k < n ==> #[trigger] plane@[k] == res[k],
        decreases n - i,
    {
        let p: u8 = predict_sample(pred, plane, width, i);
        let ghost was = plane@;
        let v: u8 = p.wrapping_add(plane[i]);
        plane[i] = v;
        proof {
            let head = was.take(i as int);
            lemma_predicted_local(pred, head, was, width as int, i as int);
            assert(plane@.take(i + 1) =~= head.push(v));
        }
        i = i + 1;
    }
    proof {
        assert(plane@.take(n as int) =~= plane@);
    }
}

/// Undoes the green-relative storage of the blue and red planes.
pub fn restore_g_centred_rgb(g: &[u8], b_plane: &mut [u8], r_plane: &mut [u8])
    requires
        g@.len() == old(b_plane)@.len(),
        g@.len() == old(r_plane)@.len(),
    ensures
        final(b_plane)@ == predict::recorrelated(g@, old(b_plane)@),
        final(r_plane)@ == predict::recorrelated(g@, old(r_plane)@),
{
    predict::inverse_decorrelate_rgb(g, b_plane, r_plane)
}

} // verus!
