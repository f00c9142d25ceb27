//! What undoing a prediction in place gives, by row and column.

use crate::predict;
use crate::predictor;
use crate::predictor::Predictor;
use crate::sample_laws;
use vstd::arithmetic::div_mod::*;
use vstd::prelude::*;

verus! {

/// The low two bits of the second byte of a frame-info word name the mode: 0
/// none, 1 left, 2 gradient, 3 median.
pub proof fn law_selected(low: u8, second: u8, high: u16)
    ensures
        ({
            let p = Predictor::selected((low + 256 * second + 65536 * high) as u32);
            &&& p == Predictor::Identity <==> second % 4 == 0
            &&& p == Predictor::Left <==> second % 4 == 1
            &&& p == Predictor::Gradient <==> second % 4 == 2
            &&& p == Predictor::Median <==> second % 4 == 3
        }),
{
    let word = low + 256 * second + 65536 * high;
    assert(word / 256 == second + 256 * high);
}

proof fn lemma_restored(pred: Predictor, res: Seq<u8>, w: int, n: nat, i: int)
    requires
        w >= 1,
        n <= res.len(),
        0 <= i < n,
    ensures
        predictor::restored(pred, res, w, n).len() == n,
        predictor::restored(pred, res, w, n)[i] == predict::wrap(
            res[i] + predictor::predicted(pred, predictor::restored(pred, res, w, n), w, i),
        ),
    decreases n,
{
    let head = predictor::restored(pred, res, w, (n - 1) as nat);
    let all = predictor::restored(pred, res, w, n);
    lemma_restored_len(pred, res, w, (n - 1) as nat);
    if i < n - 1 {
        lemma_restored(pred, res, w, (n - 1) as nat, i);
    }
    assert forall|k: int| 0 <= k < head.len() implies all[k] == head[k] by {}
    predictor::lemma_predicted_local(pred, all, head, w, i);
}

proof fn lemma_restored_len(pred: Predictor, res: Seq<u8>, w: int, n: nat)
    ensures
        predictor::restored(pred, res, w, n).len() == n,
    decreases n,
{
    if n > 0 {
        lemma_restored_len(pred, res, w, (n - 1) as nat);
    }
}

/// Undoing no prediction changes nothing; undoing left prediction adds 128 to
/// the first residual and the sample before to every other one.
pub proof fn law_simple_inverse(res: Seq<u8>, w: int, i: int)
    requires
        w >= 1,
        0 <= i < res.len(),
    ensures
        predictor::restored(Predictor::Identity, res, w, res.len())[i] == res[i],
        ({
            let x = predictor::restored(Predictor::Left, res, w, res.len());
            &&& x.len() == res.len()
            &&& i == 0 ==> x[i] == (res[i] + 128) % 256
            &&& i > 0 ==> x[i] == (res[i] + x[i - 1]) % 256
        }),
{
    lemma_restored(Predictor::Identity, res, w, res.len(), i);
    lemma_restored(Predictor::Left, res, w, res.len(), i);
}

/// Undoing gradient prediction adds 128 to the first residual, the sample to
/// the left in the rest of the first row, the sample above in the rest of the
/// first column, and left plus top minus top-left everywhere else.
pub proof fn law_gradient_inverse(res: Seq<u8>, w: int, r: int, c: int)
    requires
        w >= 1,
        r >= 0,
        0 <= c < w,
        r * w + c < res.len(),
    ensures
        ({
            let x = predictor::restored(Predictor::Gradient, res, w, res.len());
            let i = r * w + c;
            &&& x.len() == res.len()
            &&& r == 0 && c == 0 ==> x[i] == (res[i] + 128) % 256
            &&& r == 0 && c >= 1 ==> x[i] == (res[i] + x[c - 1]) % 256
            &&& r >= 1 && c == 0 ==> x[i] == (res[i] + x[(r - 1) * w]) % 256
            &&& r >= 1 && c >= 1 ==> x[i] == (res[i] + x[r * w + c - 1] + x[(r - 1) * w + c]
                - x[(r - 1) * w + c - 1]) % 256
        }),
{
    let i = r * w + c;
    let x = predictor::restored(Predictor::Gradient, res, w, res.len());
    sample_laws::lemma_index(w, r, c);
    lemma_restored(Predictor::Gradient, res, w, res.len(), i);
    if r >= 1 && c >= 1 {
        let g = x[i - 1] + x[i - w] - x[i - w - 1];
        lemma_add_mod_noop_right(res[i] as int, g, 256);
    }
}

/// Undoing median prediction adds in the first row what undoing left prediction
/// adds, and the sample above to the first residual of the second row.
/// Everywhere else it adds the median of left, top and left plus top minus
/// top-left reduced to a byte. In the first column the sample to the left is
/// the last one of the row above, and the one to the top-left is the last one of
/// the row above that.
pub proof fn law_median_inverse(
    res: Seq<u8>,
    w: int,
    r: int,
    c: int,
    left: int,
    top: int,
    corner: int,
    m: int,
)
    requires
        w >= 1,
        r >= 0,
        0 <= c < w,
        r * w + c < res.len(),
        ({
            let x = predictor::restored(Predictor::Median, res, w, res.len());
            &&& r >= 1 && c >= 1 ==> left == x[r * w + c - 1] && top == x[(r - 1) * w + c]
                && corner == x[(r - 1) * w + c - 1]
            &&& r >= 2 && c == 0 ==> left == x[(r - 1) * w + w - 1] && top == x[(r - 1) * w]
                && corner == x[(r - 2) * w + w - 1]
        }),
        ({
            let g = (left + top - corner) % 256;
            (r >= 1 && c >= 1) || (r >= 2 && c == 0) ==> {
                &&& (top <= left <= g || g <= left <= top) ==> m == left
                &&& (left <= top <= g || g <= top <= left) ==> m == top
                &&& (left <= g <= top || top <= g <= left) ==> m == g
            }
        }),
    ensures
        ({
            let x = predictor::restored(Predictor::Median, res, w, res.len());
            let i = r * w + c;
            &&& x.len() == res.len()
            &&& r == 0 && c == 0 ==> x[i] == (res[i] + 128) % 256
            &&& r == 0 && c >= 1 ==> x[i] == (res[i] + x[c - 1]) % 256
            &&& r == 1 && c == 0 ==> x[i] == (res[i] + x[0]) % 256
            &&& (r >= 1 && c >= 1) || (r >= 2 && c == 0) ==> x[i] == (res[i] + m) % 256
        }),
{
    let i = r * w + c;
    sample_laws::lemma_index(w, r, c);
    lemma_restored(Predictor::Median, res, w, res.len(), i);
}

/// The modular median lies between the other two of left, top and left plus top
/// minus top-left reduced to a byte, and is one of the three.
pub proof fn law_modular_median(a: u8, b: u8, c: u8)
    ensures
        ({
            let g = (a + b - c) % 256;
            let m = predictor::modular_median(a, b, c);
            &&& m == a || m == b || m == g
            &&& m <= a || m <= b
            &&& m <= a || m <= g
            &&& m <= b || m <= g
            &&& m >= a || m >= b
            &&& m >= a || m >= g
            &&& m >= b || m >= g
            &&& m == predictor::modular_median(b, a, c)
        }),
{
}

} // verus!
