//! Laws of the inspector's layouts.

use crate::canonical;
use crate::canonical::Shape;
use crate::decoder;
use crate::fourcc::StreamConfig;
use crate::huffman;
use crate::inspect;
use crate::inspect::{FrameLayout, PlaneLayout};
use crate::payload;
use crate::predict;
use vstd::arithmetic::mul::*;
use vstd::arithmetic::power2::*;
use vstd::prelude::*;

verus! {

/// The histogram of a descriptor lists rising lengths, each with as many
/// symbols as have it, and leaves out no length in use.
pub proof fn law_histogram_tiers(d: Seq<u8>, top: nat)
    requires
        top <= 254,
    ensures
        ({
            let hist = inspect::length_histogram(d, top);
            &&& hist.len() <= top
            &&& forall|i: int, j: int|
                0 <= i < j < hist.len() ==> (#[trigger] hist[i]).0 < (#[trigger] hist[j]).0
            &&& forall|i: int|
                0 <= i < hist.len() ==> {
                    &&& 1 <= (#[trigger] hist[i]).0 <= top
                    &&& hist[i].1 > 0
                    &&& hist[i].1 == canonical::count(d, hist[i].0 as int)
                }
            &&& forall|l: int|
                1 <= l <= top && #[trigger] canonical::count(d, l) > 0 ==> exists|i: int|
                    0 <= i < hist.len() && (#[trigger] hist[i]).0 == l
        }),
    decreases top,
{
    if top > 0 {
        let prev = inspect::length_histogram(d, (top - 1) as nat);
        let hist = inspect::length_histogram(d, top);
        law_histogram_tiers(d, (top - 1) as nat);
        canonical::lemma_tally_monotone(d, top as int, 0, 256);
        assert forall|l: int| 1 <= l <= top && #[trigger] canonical::count(d, l) > 0 implies exists|
            i: int,
        |
            0 <= i < hist.len() && (#[trigger] hist[i]).0 == l by {
            if l == top {
                assert(hist[hist.len() - 1].0 == l);
            } else {
                let i = choose|i: int| 0 <= i < prev.len() && (#[trigger] prev[i]).0 == l;
                assert(hist[i].0 == l);
            }
        }
    }
}

proof fn lemma_symbols_congruent(a: Seq<(u8, u32)>, b: Seq<(u8, u32)>, max: int, k: nat)
    requires
        k <= a.len(),
        k <= b.len(),
        forall|i: int| 0 <= i < k ==> a[i] == b[i],
    ensures
        inspect::symbol_total(a, k) == inspect::symbol_total(b, k),
        inspect::kraft_total(a, max, k) == inspect::kraft_total(b, max, k),
    decreases k,
{
    if k > 0 {
        lemma_symbols_congruent(a, b, max, (k - 1) as nat);
    }
}

proof fn lemma_coded_step(d: Seq<u8>, top: int, n: nat)
    requires
        top >= 1,
    ensures
        inspect::coded_tally(d, top, n) == inspect::coded_tally(d, top - 1, n) + canonical::tally(
            d,
            top,
            n,
        ),
    decreases n,
{
    if n > 0 {
        lemma_coded_step(d, top, (n - 1) as nat);
    }
}

proof fn lemma_coded_none(d: Seq<u8>, n: nat)
    ensures
        inspect::coded_tally(d, 0, n) == 0,
    decreases n,
{
    if n > 0 {
        lemma_coded_none(d, (n - 1) as nat);
    }
}

/// The tiers of a histogram hold all the symbols with a code.
pub proof fn law_histogram_total(d: Seq<u8>, top: nat)
    requires
        top <= 254,
    ensures
        ({
            let hist = inspect::length_histogram(d, top);
            inspect::symbol_total(hist, hist.len()) == inspect::coded_tally(d, top as int, 256)
        }),
    decreases top,
{
    if top == 0 {
        lemma_coded_none(d, 256);
    } else {
        law_histogram_total(d, (top - 1) as nat);
        lemma_coded_step(d, top as int, 256);
        canonical::lemma_tally_monotone(d, top as int, 0, 256);
        let prev = inspect::length_histogram(d, (top - 1) as nat);
        let hist = inspect::length_histogram(d, top);
        if canonical::count(d, top as int) > 0 {
            lemma_symbols_congruent(prev, hist, 0, prev.len());
        }
    }
}

/// What a layout says of its descriptor fits together: symbols with a code,
/// unused symbols and the only symbol make 256; the histogram is made of
/// rising tiers and gives back the counters; a plane with one symbol has no
/// codes at all.
pub proof fn law_layout_counters(l: PlaneLayout, d: Seq<u8>)
    requires
        d.len() == 256,
        inspect::summarizes(l, d),
    ensures
        l.active_symbol_count + canonical::count(d, 0) + canonical::count(d, 255) == 256,
        canonical::count(d, 0) == 0 || l.is_single_symbol ==> canonical::count(d, 255) == 256
            - l.active_symbol_count - (if l.is_single_symbol {
            1int
        } else {
            0
        }),
        l.active_symbol_count + (if l.is_single_symbol {
            1int
        } else {
            0
        }) <= 256,
        inspect::tiered(l.code_length_histogram@, l.max_code_length),
        l.bounded(),
        inspect::symbol_total(
            l.code_length_histogram@,
            l.code_length_histogram@.len(),
        ) == l.active_symbol_count,
        l.code_length_histogram@.len() == 0 <==> l.active_symbol_count == 0,
        l.code_length_histogram@.len() == 0 ==> l.max_code_length == 0 && l.min_code_length == 0
            && l.min_code_length_symbol_count == 0,
        l.code_length_histogram@.len() > 0 ==> l.code_length_histogram@.last().0
            == l.max_code_length && l.code_length_histogram@[0] == (
            l.min_code_length,
            l.min_code_length_symbol_count,
        ),
        l.min_code_length <= l.max_code_length <= 254,
        l.min_code_length_symbol_count <= l.active_symbol_count,
        l.min_code_length == l.max_code_length ==> l.min_code_length_symbol_count
            == l.active_symbol_count,
        l.is_single_symbol ==> l.active_symbol_count == 0,
{
    let hist = l.code_length_histogram@;
    inspect::lemma_tallies(d, 256);
    law_histogram_tiers(d, 254);
    law_histogram_total(d, 254);
    if canonical::has_active(d) {
        let s = choose|s: int| 0 <= s < 256 && canonical::is_active(#[trigger] d[s]);
        assert(1 <= d[s] <= 254);
        let a = choose|s: int|
            0 <= s < 256 && canonical::is_active(d[s]) && #[trigger] d[s] == l.max_code_length;
        let b = choose|s: int|
            0 <= s < 256 && canonical::is_active(d[s]) && #[trigger] d[s] == l.min_code_length;
        canonical::lemma_rank_bound(d, a);
        canonical::lemma_rank_bound(d, b);
        let i = choose|i: int| 0 <= i < hist.len() && (#[trigger] hist[i]).0 == l.max_code_length;
        let j = choose|j: int| 0 <= j < hist.len() && (#[trigger] hist[j]).0 == l.min_code_length;
        assert forall|k: int| 0 <= k < hist.len() implies l.min_code_length <= (
        #[trigger] hist[k]).0 <= l.max_code_length by {
            let t = canonical::lemma_rank_find(d, hist[k].0 as int, 0);
            assert(canonical::is_active(d[t]));
        }
        if i < hist.len() - 1 {
            assert(hist[i].0 < hist[hist.len() - 1].0);
        }
        if j > 0 {
            assert(hist[0].0 < hist[j].0);
        }
        assert(hist[0].0 == l.min_code_length);
        lemma_total_at_least(hist, 0);
        if l.min_code_length == l.max_code_length && hist.len() > 1 {
            assert(hist[0].0 < hist[1].0);
        }
        if hist.len() == 1 {
            assert(inspect::symbol_total(hist, 0) == 0);
        }
    } else {
        if hist.len() > 0 {
            let t = canonical::lemma_rank_find(d, hist[0].0 as int, 0);
            assert(canonical::is_active(d[t]));
        }
        assert(inspect::symbol_total(hist, 0) == 0);
    }
}

/// A histogram holds at least the symbols of each tier.
proof fn lemma_total_at_least(hist: Seq<(u8, u32)>, i: int)
    requires
        0 <= i < hist.len(),
    ensures
        inspect::symbol_total(hist, hist.len()) >= hist[i].1,
    decreases hist.len(),
{
    if i < hist.len() - 1 {
        let init = hist.drop_last();
        lemma_total_at_least(init, i);
        lemma_symbols_congruent(init, hist, 0, init.len());
    }
}

/// For code lengths of less than 128 bits the Kraft numerator tells a
/// complete code from an incomplete or oversubscribed one: it is
/// 2^`max_code_length` exactly for a plane with codes that is complete.
pub proof fn law_kraft_numerator(l: PlaneLayout)
    requires
        l.bounded(),
        l.max_code_length < 128,
        l.code_length_histogram@.len() > 0,
        !l.is_single_symbol,
    ensures
        inspect::plane_complete(l) <==> (if l.wide() || l.kraft() > u128::MAX {
            u128::MAX as nat
        } else {
            l.kraft()
        }) == pow2(l.max_code_length as nat),
{
    assert(!l.wide());
    lemma_pow2_bound(l.max_code_length as nat);
}

proof fn lemma_pow2_bound(e: nat)
    requires
        e <= 127,
    ensures
        pow2(e) < u128::MAX,
{
    lemma2_to64_rest();
    lemma_pow2_adds(63, 64);
    assert(pow2(127) == 0x8000_0000_0000_0000 * 0x1_0000_0000_0000_0000);
    if e < 127 {
        lemma_pow2_strictly_increases(e, 127);
    }
}

/// Bounds on the number of symbols of a complete code: at least
/// 2^`min_code_length` and at most 2^`max_code_length`; no more than
/// 2^`min_code_length` of them have the least length.
pub proof fn law_complete_bounds(l: PlaneLayout, d: Seq<u8>)
    requires
        d.len() == 256,
        inspect::summarizes(l, d),
        inspect::plane_complete(l),
        !l.is_single_symbol,
    ensures
        pow2(l.min_code_length as nat) <= l.active_symbol_count <= pow2(l.max_code_length as nat),
        l.min_code_length_symbol_count <= pow2(l.min_code_length as nat),
{
    let hist = l.code_length_histogram@;
    let max = l.max_code_length as int;
    let min = l.min_code_length as int;
    let k = l.active_symbol_count as int;
    law_layout_counters(l, d);
    assert forall|i: int| 0 <= i < hist.len() implies min <= (#[trigger] hist[i]).0 <= max by {
        if i > 0 {
            assert(hist[0].0 < hist[i].0);
        }
    }
    lemma_kraft_bounds(hist, min, max, hist.len());
    lemma_pow2_adds(min as nat, (max - min) as nat);
    lemma_pow2_pos((max - min) as nat);
    let u = pow2((max - min) as nat) as int;
    let a = pow2(min as nat) as int;
    assert(a <= k) by (nonlinear_arith)
        requires
            a * u <= k * u,
            u > 0,
    ;
    let c = l.min_code_length_symbol_count as int;
    assert(c <= a) by (nonlinear_arith)
        requires
            c * u <= a * u,
            u > 0,
    ;
}

/// The Kraft sum lies between the number of symbols and that number times the
/// weight of the least length.
proof fn lemma_kraft_bounds(hist: Seq<(u8, u32)>, min: int, max: int, k: nat)
    requires
        k <= hist.len(),
        0 <= min <= max,
        forall|i: int| 0 <= i < hist.len() ==> min <= (#[trigger] hist[i]).0 <= max,
    ensures
        inspect::symbol_total(hist, k) <= inspect::kraft_total(hist, max, k)
            <= inspect::symbol_total(hist, k) * pow2((max - min) as nat),
        k > 0 && hist[0].0 == min ==> hist[0].1 * pow2((max - min) as nat)
            <= inspect::kraft_total(hist, max, k),
    decreases k,
{
    let u = pow2((max - min) as nat) as int;
    if k == 0 {
        lemma_mul_basics_1(u);
    } else {
        lemma_kraft_bounds(hist, min, max, (k - 1) as nat);
        assert(min <= hist[k - 1].0 <= max);
        let c = hist[k - 1].1 as int;
        let e = (max - hist[k - 1].0) as nat;
        let v = pow2(e) as int;
        lemma_pow2_pos(e);
        if e < max - min {
            lemma_pow2_strictly_increases(e, (max - min) as nat);
        }
        assert(c <= c * v <= c * u) by (nonlinear_arith)
            requires
                0 <= c,
                1 <= v <= u,
        ;
        let t = inspect::symbol_total(hist, (k - 1) as nat) as int;
        assert((t + c) * u == t * u + c * u) by (nonlinear_arith);
    }
}

/// The Kraft sum of the lengths up to `top` in units of 2^-max.
spec fn tier_sum(d: Seq<u8>, max: int, top: nat) -> nat
    decreases top,
{
    if top == 0 {
        0
    } else {
        tier_sum(d, max, (top - 1) as nat) + canonical::count(d, top as int) * pow2(
            (max - top) as nat,
        )
    }
}

proof fn lemma_kraft_tiers(d: Seq<u8>, max: int, top: nat)
    requires
        top <= 254,
    ensures
        ({
            let hist = inspect::length_histogram(d, top);
            inspect::kraft_total(hist, max, hist.len()) == tier_sum(d, max, top)
        }),
    decreases top,
{
    if top > 0 {
        lemma_kraft_tiers(d, max, (top - 1) as nat);
        canonical::lemma_tally_monotone(d, top as int, 0, 256);
        let prev = inspect::length_histogram(d, (top - 1) as nat);
        let hist = inspect::length_histogram(d, top);
        if canonical::count(d, top as int) > 0 {
            lemma_symbols_congruent(prev, hist, max, prev.len());
        } else {
            lemma_mul_basics_1(pow2((max - top) as nat) as int);
        }
    }
}

/// No symbol has a length above the greatest one.
proof fn lemma_no_longer(d: Seq<u8>, max: u8, l: int)
    requires
        huffman::is_longest(d, max),
        max < l < 255,
    ensures
        canonical::count(d, l) == 0,
{
    if canonical::count(d, l) > 0 {
        let s = canonical::lemma_rank_find(d, l, 0);
        assert(canonical::is_active(d[s]));
    }
}

proof fn lemma_tiers_above(d: Seq<u8>, max: u8, top: nat)
    requires
        huffman::is_longest(d, max),
        max <= top <= 254,
    ensures
        tier_sum(d, max as int, top) == tier_sum(d, max as int, max as nat),
    decreases top,
{
    if max < top {
        lemma_tiers_above(d, max, (top - 1) as nat);
        lemma_no_longer(d, max, top as int);
        lemma_mul_basics_1(pow2((max - top) as nat) as int);
    }
}

proof fn lemma_deeper_above(d: Seq<u8>, max: u8, l: nat)
    requires
        huffman::is_longest(d, max),
        max <= l <= 32,
    ensures
        canonical::deeper(d, l) == 0,
    decreases 32 - l,
{
    if l < 32 {
        lemma_deeper_above(d, max, l + 1);
        lemma_no_longer(d, max, (l + 1) as int);
        lemma_mul_basics_1(pow2((31 - l) as nat) as int);
    }
}

proof fn lemma_tiers_deeper(d: Seq<u8>, max: nat, top: nat)
    requires
        top <= max <= 32,
    ensures
        tier_sum(d, max as int, top) * pow2((32 - max) as nat) + canonical::deeper(d, top)
            == canonical::deeper(d, 0),
    decreases top,
{
    let u = pow2((32 - max) as nat) as int;
    if top == 0 {
        lemma_mul_basics_1(u);
    } else {
        let m = (top - 1) as nat;
        lemma_tiers_deeper(d, max, m);
        lemma_pow2_adds((max - top) as nat, (32 - max) as nat);
        let a = tier_sum(d, max as int, m) as int;
        let c = canonical::count(d, top as int) as int;
        let v = pow2((max - top) as nat) as int;
        assert((a + c * v) * u == a * u + c * (v * u)) by (nonlinear_arith);
        assert(canonical::deeper(d, m) == canonical::deeper(d, top) + canonical::count(
            d,
            top as int,
        ) * pow2((31 - m) as nat));
    }
}

/// A descriptor that the decoder accepts is complete: the inspector's verdict
/// never rules out a plane that a codebook can be built for.
pub proof fn law_accepted_is_complete(l: PlaneLayout, d: Seq<u8>)
    requires
        d.len() == 256,
        inspect::summarizes(l, d),
        canonical::shape(d) is Ok,
    ensures
        inspect::plane_complete(l),
        l.is_single_symbol <==> canonical::shape(d) matches Ok(Shape::Single(_)),
{
    inspect::lemma_tallies(d, 256);
    law_layout_counters(l, d);
    match canonical::shape(d) {
        Ok(Shape::Single(_)) => {
            if l.active_symbol_count > 0 {
                let t = canonical::lemma_rank_find(
                    d,
                    l.code_length_histogram@[0].0 as int,
                    0,
                );
                law_histogram_tiers(d, 254);
                assert(canonical::is_active(d[t]));
            }
        },
        Ok(Shape::Coded) => {
            canonical::law_complete_has_active(d);
            let max = l.max_code_length;
            let s = choose|s: int|
                0 <= s < 256 && canonical::is_active(d[s]) && #[trigger] d[s] == max;
            assert(max <= 32);
            lemma_kraft_tiers(d, max as int, 254);
            lemma_tiers_above(d, max, 254);
            lemma_tiers_deeper(d, max as nat, max as nat);
            lemma_deeper_above(d, max, max as nat);
            lemma_pow2_adds(max as nat, (32 - max) as nat);
            lemma_pow2_pos((32 - max) as nat);
            let k = l.kraft() as int;
            let q = pow2(max as nat) as int;
            let u = pow2((32 - max) as nat) as int;
            assert(k == q) by (nonlinear_arith)
                requires
                    k * u == q * u,
                    u > 0,
            ;
            if l.code_length_histogram@.len() == 0 {
                law_histogram_tiers(d, 254);
                canonical::lemma_rank_bound(d, s);
                assert(canonical::count(d, max as int) > 0);
                assert(false);
            }
        },
        Err(_) => {},
    }
}

/// A complete descriptor is accepted by the decoder if no code is longer than
/// 32 bits and no symbol of length zero stands beside the codes.
pub proof fn law_complete_is_accepted(l: PlaneLayout, d: Seq<u8>)
    requires
        d.len() == 256,
        inspect::summarizes(l, d),
        inspect::plane_complete(l),
        l.max_code_length <= 32,
        canonical::count(d, 0) == 0 || l.is_single_symbol,
    ensures
        canonical::shape(d) is Ok,
{
    law_layout_counters(l, d);
    if l.is_single_symbol {
        assert forall|s: int| 0 <= s < 256 implies !canonical::is_active(#[trigger] d[s]) by {
            if canonical::is_active(d[s]) {
                law_histogram_tiers(d, 254);
                canonical::lemma_rank_bound(d, s);
                assert(canonical::count(d, d[s] as int) > 0);
            }
        }
    } else {
        law_histogram_tiers(d, 254);
        let max = l.max_code_length;
        let t = canonical::lemma_rank_find(d, l.code_length_histogram@[0].0 as int, 0);
        assert(canonical::is_active(d[t]));
        assert(huffman::is_longest(d, max));
        lemma_kraft_tiers(d, max as int, 254);
        lemma_tiers_above(d, max, 254);
        lemma_tiers_deeper(d, max as nat, max as nat);
        lemma_deeper_above(d, max, max as nat);
        lemma_pow2_adds(max as nat, (32 - max) as nat);
    }
}

/// The parts of plane `p` stand one after the other inside the payload.
pub open spec fn plane_contained(f: FrameLayout, p: int, limit: int) -> bool {
    let l = f.planes@[p];
    &&& l.end_offsets_start == l.descriptor_start + 256
    &&& l.slice_data_start == l.end_offsets_start + 4 * f.num_slices
    &&& l.slice_data_start + l.data_size() <= limit
    &&& l.data_size() % 4 == 0
    &&& l.slices@.len() == f.num_slices
    &&& l.slices@[0].start == l.slice_data_start
    &&& l.slices@.last().end == l.slice_data_start + l.data_size()
    &&& forall|s: int|
        0 <= s < l.slices@.len() ==> l.slice_data_start <= (#[trigger] l.slices@[s]).start
            <= l.slices@[s].end <= limit
    &&& forall|s: int|
        1 <= s < l.slices@.len() ==> (#[trigger] l.slices@[s]).start == l.slices@[s - 1].end
}

/// The rows of the slices of a plane follow on each other, from the first row
/// to the last.
pub open spec fn rows_covered(l: PlaneLayout) -> bool {
    &&& l.slices@.len() >= 1
    &&& l.slices@[0].row_start == 0
    &&& l.slices@.last().row_end == l.height
    &&& forall|s: int|
        0 <= s < l.slices@.len() ==> (#[trigger] l.slices@[s]).row_start <= l.slices@[s].row_end
            && l.slices@[s].pixel_count == (l.slices@[s].row_end - l.slices@[s].row_start)
            * l.width
    &&& forall|s: int|
        1 <= s < l.slices@.len() ==> (#[trigger] l.slices@[s]).row_start == l.slices@[s
            - 1].row_end
}

/// Every offset of a layout lies inside the payload, and the parts of a plane
/// and its slices follow on each other without gaps.
pub proof fn law_layout_contained(f: FrameLayout, cfg: StreamConfig, data: Seq<u8>, p: int)
    requires
        payload::walk_error(data, cfg.extradata.slices(), cfg.fourcc.planes(), false) is None,
        inspect::frame_located(f, cfg, data),
        0 <= p < f.planes@.len(),
    ensures
        plane_contained(f, p, data.len() - 4),
        f.planes@[0].descriptor_start == 0,
        p + 1 < f.planes@.len() ==> f.planes@[p + 1].descriptor_start
            == f.planes@[p].slice_data_start + f.planes@[p].data_size(),
        p + 1 == f.planes@.len() ==> data.len() - 4 == f.planes@[p].slice_data_start
            + f.planes@[p].data_size(),
{
    let n = cfg.extradata.slices();
    let count = cfg.fourcc.planes();
    let l = f.planes@[p];
    let o = payload::plane_offset(data, n, p as nat);
    assert(inspect::plane_located(f.planes@[p], cfg, data, p as nat));
    assert(inspect::plane_located(f.planes@[0], cfg, data, 0));
    payload::lemma_planes_inside(data, n, count, p as nat, false);
    assert(inspect::slice_located(l.slices@[n - 1], cfg, data, p as nat, n - 1));
    assert(inspect::slice_located(l.slices@[0], cfg, data, p as nat, 0));
    payload::lemma_offsets(data, o + 256, n, n - 1, n - 1);
    assert(l.slices@.last() == l.slices@[n - 1]);
    assert(l.data_size() == payload::slice_end(data, o + 256, n - 1));
    assert forall|s: int| 0 <= s < n implies l.slice_data_start <= (#[trigger] l.slices@[s]).start
        <= l.slices@[s].end <= data.len() - 4 by {
        assert(inspect::slice_located(l.slices@[s], cfg, data, p as nat, s));
        payload::lemma_offsets(data, o + 256, n, s, n - 1);
        if s > 0 {
            payload::lemma_offsets(data, o + 256, n, s - 1, s);
        }
    }
    assert forall|s: int| 1 <= s < n implies (#[trigger] l.slices@[s]).start == l.slices@[s
        - 1].end by {
        assert(inspect::slice_located(l.slices@[s], cfg, data, p as nat, s));
        assert(inspect::slice_located(l.slices@[s - 1], cfg, data, p as nat, s - 1));
    }
    if p + 1 < f.planes@.len() {
        assert(inspect::plane_located(f.planes@[p + 1], cfg, data, (p + 1) as nat));
    }
}

/// The samples of the first slices of a plane.
proof fn lemma_pixels(l: PlaneLayout, cfg: StreamConfig, data: Seq<u8>, p: nat, k: nat)
    requires
        inspect::plane_located(l, cfg, data, p),
        k <= cfg.extradata.slices(),
    ensures
        inspect::pixel_sum(l.slices@, k) == predict::row_start(
            l.height as int,
            cfg.extradata.slices() as int,
            k as int,
        ) * l.width,
    decreases k,
{
    let n = cfg.extradata.slices();
    let h = l.height as int;
    let w = l.width as int;
    predict::law_rows_partition(h, n as int, 0);
    if k == 0 {
        lemma_mul_basics_1(w);
    } else {
        let s = k - 1;
        lemma_pixels(l, cfg, data, p, s as nat);
        assert(inspect::slice_located(l.slices@[s], cfg, data, p, s));
        predict::law_rows_partition(h, n as int, s);
        predict::lemma_rows_inside(
            predict::row_start(h, n as int, s),
            predict::row_start(h, n as int, s + 1),
            h,
            w,
        );
    }
}

/// The slices of a plane cover its rows in order, and their samples are all
/// the samples of the plane.
pub proof fn law_layout_rows(l: PlaneLayout, cfg: StreamConfig, data: Seq<u8>, p: nat)
    requires
        inspect::plane_located(l, cfg, data, p),
    ensures
        rows_covered(l),
        inspect::pixel_sum(l.slices@, l.slices@.len()) == l.width * l.height,
{
    let n = cfg.extradata.slices();
    let h = l.height as int;
    let w = l.width as int;
    lemma_pixels(l, cfg, data, p, n);
    predict::law_rows_partition(h, n as int, 0);
    lemma_mul_is_commutative(w, h);
    assert(inspect::slice_located(l.slices@[0], cfg, data, p, 0));
    assert(inspect::slice_located(l.slices@[n - 1], cfg, data, p, n - 1));
    assert forall|s: int| 0 <= s < n implies (#[trigger] l.slices@[s]).row_start
        <= l.slices@[s].row_end && l.slices@[s].pixel_count == (l.slices@[s].row_end
        - l.slices@[s].row_start) * l.width by {
        assert(inspect::slice_located(l.slices@[s], cfg, data, p, s));
        predict::law_rows_partition(h, n as int, s);
    }
    assert forall|s: int| 1 <= s < n implies (#[trigger] l.slices@[s]).row_start == l.slices@[s
        - 1].row_end by {
        assert(inspect::slice_located(l.slices@[s], cfg, data, p, s));
        assert(inspect::slice_located(l.slices@[s - 1], cfg, data, p, s - 1));
    }
}

/// The bytes of the first planes end where the next plane begins.
proof fn lemma_sizes_add_up(f: FrameLayout, cfg: StreamConfig, data: Seq<u8>, k: nat)
    requires
        payload::walk_error(data, cfg.extradata.slices(), cfg.fourcc.planes(), false) is None,
        inspect::frame_located(f, cfg, data),
        k <= f.planes@.len(),
    ensures
        inspect::size_sum(f.planes@, k) == payload::plane_offset(data, cfg.extradata.slices(), k),
        inspect::data_sum(f.planes@, k) + k * (256 + 4 * cfg.extradata.slices())
            == payload::plane_offset(data, cfg.extradata.slices(), k),
    decreases k,
{
    let n = cfg.extradata.slices();
    if k > 0 {
        let p = k - 1;
        lemma_sizes_add_up(f, cfg, data, p as nat);
        law_layout_contained(f, cfg, data, p);
        assert(inspect::plane_located(f.planes@[p], cfg, data, p as nat));
        assert(inspect::slice_located(f.planes@[p].slices@[n - 1], cfg, data, p as nat, n - 1));
        let e = 256 + 4 * n;
        assert((p + 1) * e == p * e + e) by (nonlinear_arith);
    } else {
        lemma_mul_basics_1((256 + 4 * n) as int);
    }
}

/// The bytes of all planes and the frame-info word are the whole payload, and
/// the slice data is what is left of it without descriptors, end offsets and
/// the frame-info word.
pub proof fn law_layout_size(f: FrameLayout, cfg: StreamConfig, data: Seq<u8>)
    requires
        payload::walk_error(data, cfg.extradata.slices(), cfg.fourcc.planes(), false) is None,
        inspect::frame_located(f, cfg, data),
    ensures
        inspect::size_sum(f.planes@, f.planes@.len()) + 4 == data.len(),
        inspect::data_sum(f.planes@, f.planes@.len()) == data.len() - 4 - f.planes@.len() * (256 + 4
            * f.num_slices),
{
    lemma_sizes_add_up(f, cfg, data, f.planes@.len());
}

/// A payload that decodes can be inspected, and every plane of its layout is
/// complete.
pub proof fn law_decoded_is_inspectable(
    f: FrameLayout,
    cfg: StreamConfig,
    data: Seq<u8>,
    strict: bool,
)
    requires
        decoder::frame_outcome(cfg, data, strict) is Ok,
        inspect::frame_located(f, cfg, data),
    ensures
        payload::walk_error(data, cfg.extradata.slices(), cfg.fourcc.planes(), false) is None,
        forall|p: int|
            0 <= p < f.planes@.len() ==> inspect::plane_complete(#[trigger] f.planes@[p]),
{
    let n = cfg.extradata.slices();
    let count = cfg.fourcc.planes();
    law_tables_only_add_errors(data, n, count);
    assert forall|p: int| 0 <= p < f.planes@.len() implies inspect::plane_complete(
        #[trigger] f.planes@[p],
    ) by {
        assert(inspect::plane_located(f.planes@[p], cfg, data, p as nat));
        payload::lemma_planes_inside(data, n, count, p as nat, true);
        law_accepted_is_complete(f.planes@[p], payload::descriptor(data, n, p as nat));
    }
}

/// Building codebooks only adds errors to those that the structure of a
/// payload gives.
pub proof fn law_tables_only_add_errors(data: Seq<u8>, n: nat, planes: nat)
    requires
        n >= 1,
        payload::walk_error(data, n, planes, true) is None,
    ensures
        payload::walk_error(data, n, planes, false) is None,
{
    payload::lemma_planes_inside(data, n, planes, planes, true);
}

} // verus!
