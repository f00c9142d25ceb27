//! What a set bit in the padding of a slice does: strict decoding names the
//! bit, and plain decoding does not see it.

use crate::bitstream;
use crate::canonical;
use crate::canonical::Shape;
use crate::decoder;
use crate::encoder;
use crate::encoder::EncodedFrame;
use crate::error::Error;
use crate::fourcc::StreamConfig;
use crate::laws;
use crate::payload;
use crate::predict;
use vstd::arithmetic::div_mod::*;
use vstd::arithmetic::power2::*;
use vstd::prelude::*;

verus! {

/// Where the byte of bit `j` of a bit stream stands that begins at `start`:
/// inside a word the first bits are in the last byte.
pub open spec fn byte_of(start: int, j: int) -> int {
    start + 4 * (j / 32) + 3 - j % 32 / 8
}

/// The bytes with bit `j` of the bit stream that begins at `start` set, where
/// it is clear before.
pub open spec fn with_bit(data: Seq<u8>, start: int, j: int) -> Seq<u8> {
    data.update(
        byte_of(start, j),
        (data[byte_of(start, j)] + pow2((7 - j % 8) as nat)) as u8,
    )
}

/// A clear bit of a byte leaves room for it.
proof fn lemma_clear_bit(b: int, e: nat)
    requires
        0 <= b <= 255,
        e < 8,
        b / pow2(e) as int % 2 == 0,
    ensures
        b + pow2(e) <= 255,
{
    lemma2_to64();
    let v = pow2(e) as int;
    let w = pow2((7 - e) as nat) as int;
    let q = b / v;
    lemma_pow2_pos(e);
    lemma_pow2_adds(e, (7 - e) as nat);
    lemma_fundamental_div_mod(b, v);
    lemma_mod_bound(b, v);
    assert(q < 2 * w) by (nonlinear_arith)
        requires
            v * q <= b,
            b < 2 * (v * w),
            v > 0,
    ;
    assert(v * q + 2 * v <= 2 * (v * w)) by (nonlinear_arith)
        requires
            q + 2 <= 2 * w,
            v > 0,
    ;
}

/// A digit of a number that is a low part, a byte and a high part.
pub proof fn lemma_digit_of_byte(lo: int, b: int, hi: int, s: nat, e: nat)
    requires
        0 <= lo < pow2(s),
        0 <= b <= 255,
        0 <= hi,
        e < 8,
    ensures
        (lo + pow2(s) * (b + 256 * hi)) / pow2(s + e) as int % 2 == b / pow2(e) as int % 2,
{
    let u = pow2(s) as int;
    let v = pow2(e) as int;
    let w = pow2((7 - e) as nat) as int;
    let x = b + 256 * hi;
    lemma_pow2_pos(s);
    lemma_pow2_pos(e);
    lemma_pow2_adds(s, e);
    lemma_pow2_adds(e, (7 - e) as nat);
    lemma2_to64();
    assert(0 <= u * x) by (nonlinear_arith)
        requires
            0 <= u,
            0 <= x,
    ;
    lemma_div_denominator(lo + u * x, u, v);
    lemma_fundamental_div_mod_converse(lo + u * x, u, x, lo);
    assert(x == v * (2 * (w * hi)) + b) by (nonlinear_arith)
        requires
            x == b + 256 * hi,
            v * w == 128,
    ;
    lemma_hoist_over_denominator(b, 2 * (w * hi), v as nat);
    assert(x / v == b / v + 2 * (w * hi));
}

/// The word with a clear digit of a byte, and with that digit set.
proof fn lemma_word_digit(data: Seq<u8>, k: int, m: int)
    requires
        0 <= k,
        4 * k + 4 <= data.len(),
        0 <= m < 32,
        bitstream::digit(bitstream::word(data, k), 32, m) == 0,
    ensures
        data[4 * k + 3 - m / 8] + pow2((7 - m % 8) as nat) <= 255,
        bitstream::word(
            data.update(
                4 * k + 3 - m / 8,
                (data[4 * k + 3 - m / 8] + pow2((7 - m % 8) as nat)) as u8,
            ),
            k,
        ) == bitstream::word(data, k) + pow2((31 - m) as nat),
{
    let b0 = data[4 * k] as int;
    let b1 = data[4 * k + 1] as int;
    let b2 = data[4 * k + 2] as int;
    let b3 = data[4 * k + 3] as int;
    let e = (7 - m % 8) as nat;
    let i = 3 - m / 8;
    lemma2_to64();
    lemma_pow2_adds((8 * i) as nat, e);
    assert((31 - m) as nat == (8 * i) as nat + e);
    if i == 0 {
        lemma_digit_of_byte(0, b0, b1 + 256 * b2 + 65536 * b3, 0, e);
        lemma_clear_bit(b0, e);
    } else if i == 1 {
        lemma_digit_of_byte(b0, b1, b2 + 256 * b3, 8, e);
        lemma_clear_bit(b1, e);
    } else if i == 2 {
        lemma_digit_of_byte(b0 + 256 * b1, b2, b3, 16, e);
        lemma_clear_bit(b2, e);
    } else {
        lemma_digit_of_byte(b0 + 256 * b1 + 65536 * b2, b3, 0, 24, e);
        lemma_clear_bit(b3, e);
    }
}

/// Setting a clear bit adds its weight to the value of a stretch of bits.
proof fn lemma_value_with_bit(bits: Seq<bool>, pos: int, n: nat, m: int)
    requires
        0 <= pos,
        0 <= m < n,
        pos + n <= bits.len(),
        !bits[pos + m],
    ensures
        bitstream::value(bits.update(pos + m, true), pos, n) == bitstream::value(bits, pos, n)
            + pow2((n - 1 - m) as nat),
    decreases n,
{
    let more = bits.update(pos + m, true);
    let l = (n - 1) as nat;
    if m == l {
        lemma2_to64();
        assert forall|j: int| 0 <= j < l implies #[trigger] bitstream::bit(more, pos + j)
            == bitstream::bit(bits, pos + j) by {}
        bitstream::lemma_value_congruent(more, pos, bits, pos, l);
    } else {
        lemma_value_with_bit(bits, pos, l, m);
        lemma_pow2_unfold((n - 1 - m) as nat);
    }
}

/// The bit stream of the bytes with a bit set is the bit stream with that bit
/// set, and no other bit changed.
pub proof fn law_with_bit(part: Seq<u8>, j: int)
    requires
        part.len() % 4 == 0,
        0 <= j < 8 * part.len(),
        !bitstream::stream_bits(part)[j],
    ensures
        with_bit(part, 0, j).len() == part.len(),
        bitstream::stream_bits(with_bit(part, 0, j)) == bitstream::stream_bits(part).update(
            j,
            true,
        ),
{
    let bits = bitstream::stream_bits(part);
    let want = bits.update(j, true);
    let more = with_bit(part, 0, j);
    let got = bitstream::stream_bits(more);
    let k = j / 32;
    let m = j % 32;
    assert(m % 8 == j % 8);
    assert(byte_of(0, j) == 4 * k + 3 - m / 8);
    assert(bitstream::digit(bitstream::word(part, k), 32, m) == 0) by {
        assert(bits[j] == (bitstream::digit(bitstream::word(part, k), 32, m) == 1));
    }
    lemma_word_digit(part, k, m);
    bitstream::lemma_stream_word(part, k);
    bitstream::lemma_stream_word(more, k);
    lemma_value_with_bit(bits, 32 * k, 32, m);
    assert(32 * k + m == j);
    assert(bitstream::value(got, 32 * k, 32) == bitstream::value(want, 32 * k, 32));
    assert forall|p: int| 0 <= p < got.len() implies got[p] == want[p] by {
        if p / 32 == k {
            bitstream::lemma_value_injective(got, 32 * k, want, 32 * k, 32, p - 32 * k);
            assert(32 * k + (p - 32 * k) == p);
        } else {
            assert(bitstream::word(more, p / 32) == bitstream::word(part, p / 32));
        }
    }
    assert(got =~= want);
}

/// Streams that agree up to the end of some codes are read as the same
/// symbols.
proof fn lemma_same_codes(d: Seq<u8>, a: Seq<bool>, b: Seq<bool>, n: nat)
    requires
        canonical::complete(d),
        forall|p: int|
            0 <= p < canonical::position(d, a, n) ==> #[trigger] bitstream::bit(a, p)
                == bitstream::bit(b, p),
    ensures
        canonical::position(d, b, n) == canonical::position(d, a, n),
        canonical::symbols(d, b, n) == canonical::symbols(d, a, n),
    decreases n,
{
    if n == 0 {
        assert(canonical::symbols(d, b, n) =~= canonical::symbols(d, a, n));
    } else {
        let m = (n - 1) as nat;
        let p = canonical::position(d, a, m) as int;
        let s = canonical::next_symbol(d, a, p);
        lemma_same_codes(d, a, b, m);
        canonical::lemma_match_exists(d, a, p);
        let l = d[s as int] as nat;
        assert(canonical::position(d, a, n) == p + l);
        assert forall|j: int| 0 <= j < l implies #[trigger] bitstream::bit(a, p + j)
            == bitstream::bit(b, p + j) by {}
        bitstream::lemma_value_congruent(a, p, b, p, l);
        canonical::lemma_next_symbol(d, b, p, s);
        assert forall|i: int| 0 <= i < n implies canonical::symbols(d, b, n)[i]
            == canonical::symbols(d, a, n)[i] by {
            if i < m {
                assert(canonical::symbols(d, b, m)[i] == canonical::symbols(d, a, m)[i]);
            }
        }
        assert(canonical::symbols(d, b, n) =~= canonical::symbols(d, a, n));
    }
}

proof fn lemma_position_rises(d: Seq<u8>, bits: Seq<bool>, i: nat, n: nat)
    requires
        i <= n,
    ensures
        canonical::position(d, bits, i) <= canonical::position(d, bits, n),
    decreases n,
{
    if i < n {
        lemma_position_rises(d, bits, i, (n - 1) as nat);
    }
}

/// No bit before the first set one is set.
proof fn lemma_all_clear(bits: Seq<bool>, p: nat, end: nat, q: int)
    requires
        canonical::first_set(bits, p, end) is None,
        p <= q < end,
    ensures
        bitstream::bit(bits, q) == 0,
    decreases end - p,
{
    if p < q {
        lemma_all_clear(bits, p + 1, end, q);
    }
}

/// The first set bit is the one that is set.
proof fn lemma_first_set(bits: Seq<bool>, p: nat, end: nat, j: nat)
    requires
        p <= j < end,
        forall|q: int| p <= q < j ==> #[trigger] bitstream::bit(bits, q) == 0,
        bitstream::bit(bits, j as int) == 1,
    ensures
        canonical::first_set(bits, p, end) == Some(j),
    decreases end - p,
{
    if p < j {
        assert(bitstream::bit(bits, p as int) == 0);
        lemma_first_set(bits, p + 1, end, j);
    }
}

/// Slice data with a bit of its padding set: strict decoding names the bit,
/// and plain decoding gives what it gave.
pub proof fn law_slice_padding_bit(
    d: Seq<u8>,
    part: Seq<u8>,
    n: nat,
    plane: usize,
    slice: usize,
    j: nat,
)
    requires
        canonical::shape(d) == Ok::<Shape, Error>(Shape::Coded),
        part.len() % 4 == 0,
        canonical::strict_outcome(d, part, n, plane, slice) is Ok,
        canonical::end_position(d, part, n) <= j,
        j < canonical::padding_end(part, canonical::end_position(d, part, n)),
    ensures
        !bitstream::stream_bits(part)[j as int],
        canonical::decode_outcome(d, with_bit(part, 0, j as int), n) == canonical::decode_outcome(
            d,
            part,
            n,
        ),
        canonical::strict_outcome(d, with_bit(part, 0, j as int), n, plane, slice) == Err::<
            Seq<u8>,
            Error,
        >(Error::NonZeroPadding { plane, slice, bit_position: j as usize }),
{
    let bits = bitstream::stream_bits(part);
    let e = canonical::end_position(d, part, n);
    let end = canonical::padding_end(part, e);
    let limit = 8 * part.len();
    assert(canonical::first_set(bits, e, end) is None);
    lemma_all_clear(bits, e, end, j as int);
    law_with_bit(part, j as int);
    let part2 = with_bit(part, 0, j as int);
    let more = bitstream::stream_bits(part2);
    assert(canonical::fitting(d, bits, limit, n) == n);
    assert(e <= limit);
    assert forall|p: int| 0 <= p < canonical::position(d, bits, n) implies #[trigger] bitstream::bit(
        bits,
        p,
    ) == bitstream::bit(more, p) by {}
    lemma_same_codes(d, bits, more, n);
    assert forall|i: nat| i <= n implies #[trigger] canonical::position(d, more, i) <= limit by {
        lemma_position_rises(d, more, i, n);
    }
    canonical::lemma_fitting(d, more, limit, n, n);
    assert forall|q: int| e <= q < j implies #[trigger] bitstream::bit(more, q) == 0 by {
        lemma_all_clear(bits, e, end, q);
    }
    lemma_first_set(more, e, end, j);
}

/// Where the data of slice `s` of plane `p` begins in a payload.
pub open spec fn slice_low(data: Seq<u8>, n: nat, p: nat, s: int) -> int {
    let o = payload::plane_offset(data, n, p);
    payload::data_start(o, n) + payload::slice_begin(data, o + 256, s)
}

/// Where the data of slice `s` of plane `p` ends in a payload.
pub open spec fn slice_high(data: Seq<u8>, n: nat, p: nat, s: int) -> int {
    let o = payload::plane_offset(data, n, p);
    payload::data_start(o, n) + payload::slice_end(data, o + 256, s)
}

/// Two payloads are equally long and equal but for the bytes from `low` to
/// `high`.
spec fn alike(x: Seq<u8>, y: Seq<u8>, low: int, high: int) -> bool {
    &&& x.len() == y.len()
    &&& forall|i: int| 0 <= i < x.len() && !(low <= i < high) ==> #[trigger] y[i] == x[i]
}

/// The planes of a good payload follow on each other.
proof fn lemma_planes_rise(x: Seq<u8>, n: nat, planes: nat, a: nat, b: nat)
    requires
        n >= 1,
        a <= b <= planes,
    ensures
        payload::plane_offset(x, n, a) <= payload::plane_offset(x, n, b),
        a < b ==> payload::plane_end(x, payload::plane_offset(x, n, a), n)
            <= payload::plane_offset(x, n, b),
    decreases b,
{
    if a < b {
        lemma_planes_rise(x, n, planes, a, (b - 1) as nat);
        let o = payload::plane_offset(x, n, (b - 1) as nat);
        assert(0 <= payload::slice_end(x, o + 256, n - 1));
        let q = payload::plane_offset(x, n, a);
        assert(0 <= payload::slice_end(x, q + 256, n - 1));
    }
}

/// The slices of a good plane at `o` lie between the end offsets and the end
/// of the plane.
proof fn lemma_span(x: Seq<u8>, o: int, n: nat, s: int)
    requires
        payload::plane_error(x, o, n) is None,
        0 <= s < n,
    ensures
        0 <= payload::slice_begin(x, o + 256, s) <= payload::slice_end(x, o + 256, s)
            <= payload::slice_end(x, o + 256, n - 1),
        payload::slice_begin(x, o + 256, s) % 4 == 0,
        payload::slice_end(x, o + 256, s) % 4 == 0,
        payload::plane_end(x, o, n) <= payload::info_offset(x),
        payload::offsets_error(x, o + 256, n) is None,
{
    payload::lemma_offsets(x, o + 256, n, s, n - 1);
}

proof fn lemma_multiples_of_four(a: int, b: int)
    requires
        a % 4 == 0,
        b % 4 == 0,
    ensures
        (b - a) % 4 == 0,
{
}

/// The data of a slice lies inside its plane.
proof fn lemma_slice_inside(x: Seq<u8>, n: nat, planes: nat, p: nat, s: int)
    requires
        n >= 1,
        payload::walk_error(x, n, planes, true) is None,
        p < planes,
        0 <= s < n,
    ensures
        0 <= payload::plane_offset(x, n, p),
        payload::data_start(payload::plane_offset(x, n, p), n) <= slice_low(x, n, p, s)
            <= slice_high(x, n, p, s) <= payload::plane_end(
            x,
            payload::plane_offset(x, n, p),
            n,
        ) <= payload::info_offset(x),
        (slice_high(x, n, p, s) - slice_low(x, n, p, s)) % 4 == 0,
        payload::offsets_error(x, payload::plane_offset(x, n, p) + 256, n) is None,
{
    let o = payload::plane_offset(x, n, p);
    payload::lemma_planes_inside(x, n, planes, p, true);
    lemma_span(x, o, n, s);
    lemma_multiples_of_four(
        payload::slice_begin(x, o + 256, s),
        payload::slice_end(x, o + 256, s),
    );
}

proof fn lemma_same_offsets(x: Seq<u8>, y: Seq<u8>, table: int, k: nat)
    requires
        forall|s: int|
            0 <= s < k ==> #[trigger] payload::slice_end(y, table, s) == payload::slice_end(
                x,
                table,
                s,
            ),
    ensures
        payload::offsets_error(y, table, k) == payload::offsets_error(x, table, k),
    decreases k,
{
    if k > 0 {
        lemma_same_offsets(x, y, table, (k - 1) as nat);
        assert(payload::slice_end(y, table, k - 1) == payload::slice_end(x, table, k - 1));
        if k > 1 {
            assert(payload::slice_end(y, table, k - 2) == payload::slice_end(x, table, k - 2));
        }
    }
}

/// Changing the data of a slice leaves the descriptors and the end offsets
/// alone.
proof fn lemma_same_heads(
    x: Seq<u8>,
    y: Seq<u8>,
    n: nat,
    planes: nat,
    p: nat,
    s: int,
    k: nat,
)
    requires
        n >= 1,
        payload::walk_error(x, n, planes, true) is None,
        p < planes,
        0 <= s < n,
        alike(x, y, slice_low(x, n, p, s), slice_high(x, n, p, s)),
        k < planes,
    ensures
        ({
            let o = payload::plane_offset(x, n, k);
            &&& y.subrange(o, o + 256) == x.subrange(o, o + 256)
            &&& forall|t: int|
                0 <= t < n ==> #[trigger] payload::slice_end(y, o + 256, t) == payload::slice_end(
                    x,
                    o + 256,
                    t,
                )
            &&& payload::plane_error(y, o, n) is None
        }),
{
    let o = payload::plane_offset(x, n, k);
    let q = payload::plane_offset(x, n, p);
    let low = slice_low(x, n, p, s);
    let high = slice_high(x, n, p, s);
    lemma_slice_inside(x, n, planes, p, s);
    lemma_slice_inside(x, n, planes, k, 0);
    payload::lemma_planes_inside(x, n, planes, k, true);
    if k <= p {
        lemma_planes_rise(x, n, planes, k, p);
    } else {
        lemma_planes_rise(x, n, planes, p, k);
    }
    assert forall|i: int| o <= i < payload::data_start(o, n) implies #[trigger] y[i] == x[i] by {}
    assert(y.subrange(o, o + 256) =~= x.subrange(o, o + 256));
    assert forall|t: int| 0 <= t < n implies #[trigger] payload::slice_end(y, o + 256, t)
        == payload::slice_end(x, o + 256, t) by {
        let at = o + 256 + 4 * t;
        assert(y[at] == x[at] && y[at + 1] == x[at + 1] && y[at + 2] == x[at + 2] && y[at + 3]
            == x[at + 3]);
    }
    lemma_same_offsets(x, y, o + 256, n);
    assert(payload::slice_end(y, o + 256, n - 1) == payload::slice_end(x, o + 256, n - 1));
}

/// Changing the data of a slice leaves the structure of a payload alone.
proof fn lemma_same_planes(
    x: Seq<u8>,
    y: Seq<u8>,
    n: nat,
    planes: nat,
    p: nat,
    s: int,
    k: nat,
)
    requires
        n >= 1,
        payload::walk_error(x, n, planes, true) is None,
        p < planes,
        0 <= s < n,
        alike(x, y, slice_low(x, n, p, s), slice_high(x, n, p, s)),
        k <= planes,
    ensures
        payload::plane_offset(y, n, k) == payload::plane_offset(x, n, k),
        payload::planes_error(y, n, k, true) is None,
    decreases k,
{
    if k > 0 {
        let m = (k - 1) as nat;
        lemma_same_planes(x, y, n, planes, p, s, m);
        lemma_same_heads(x, y, n, planes, p, s, m);
        let o = payload::plane_offset(x, n, m);
        assert(payload::slice_end(y, o + 256, n - 1) == payload::slice_end(x, o + 256, n - 1));
        payload::lemma_planes_inside(x, n, planes, m, true);
    }
}

/// Changing the data of a slice leaves the data of the other slices alone.
proof fn lemma_same_slice(
    x: Seq<u8>,
    y: Seq<u8>,
    n: nat,
    planes: nat,
    p: nat,
    s: int,
    k: nat,
    t: int,
)
    requires
        n >= 1,
        payload::walk_error(x, n, planes, true) is None,
        p < planes,
        0 <= s < n,
        alike(x, y, slice_low(x, n, p, s), slice_high(x, n, p, s)),
        k < planes,
        0 <= t < n,
    ensures
        payload::descriptor(y, n, k) == payload::descriptor(x, n, k),
        slice_low(y, n, k, t) == slice_low(x, n, k, t),
        slice_high(y, n, k, t) == slice_high(x, n, k, t),
        payload::slice_data(y, n, k, t) == y.subrange(
            slice_low(x, n, k, t),
            slice_high(x, n, k, t),
        ),
        k != p || t != s ==> payload::slice_data(y, n, k, t) == payload::slice_data(x, n, k, t),
{
    let o = payload::plane_offset(x, n, k);
    let low = slice_low(x, n, p, s);
    let high = slice_high(x, n, p, s);
    lemma_same_planes(x, y, n, planes, p, s, k);
    lemma_same_heads(x, y, n, planes, p, s, k);
    assert(payload::slice_end(y, o + 256, t) == payload::slice_end(x, o + 256, t));
    if t > 0 {
        assert(payload::slice_end(y, o + 256, t - 1) == payload::slice_end(x, o + 256, t - 1));
    }
    if k != p || t != s {
        let a = slice_low(x, n, k, t);
        let b = slice_high(x, n, k, t);
        lemma_slice_inside(x, n, planes, p, s);
        lemma_slice_inside(x, n, planes, k, t);
        if k < p {
            lemma_planes_rise(x, n, planes, k, p);
        } else if k > p {
            lemma_planes_rise(x, n, planes, p, k);
        } else if t < s {
            payload::lemma_offsets(x, o + 256, n, t, s - 1);
        } else {
            payload::lemma_offsets(x, o + 256, n, s, t - 1);
        }
        assert(b <= low || high <= a);
        assert(y.subrange(a, b) =~= x.subrange(a, b));
    }
}

/// The number of samples of slice `s` of plane `p`.
pub open spec fn slice_pixels(cfg: StreamConfig, p: nat, s: int) -> nat {
    let (w, h) = cfg.fourcc.dims(p as int, cfg.width, cfg.height);
    (predict::row_count(h as int, cfg.extradata.slices() as int, s) * w) as nat
}

/// Bit `j` of slice `s` of plane `p` lies in the padding: the plane has codes
/// and the slice has samples, and the bit comes after the last code and before
/// the end of the word that the last code ends in.
pub open spec fn in_padding(cfg: StreamConfig, data: Seq<u8>, p: nat, s: int, j: nat) -> bool {
    let n = cfg.extradata.slices();
    let d = payload::descriptor(data, n, p);
    let part = payload::slice_data(data, n, p, s);
    let end = canonical::end_position(d, part, slice_pixels(cfg, p, s));
    &&& canonical::shape(d) == Ok::<Shape, Error>(Shape::Coded)
    &&& slice_pixels(cfg, p, s) > 0
    &&& end <= j < canonical::padding_end(part, end)
}

/// The payload with bit `j` of slice `s` of plane `p` set.
pub open spec fn with_slice_bit(data: Seq<u8>, n: nat, p: nat, s: int, j: nat) -> Seq<u8> {
    with_bit(data, slice_low(data, n, p, s), j as int)
}

/// An error among the first planes keeps all planes from decoding.
proof fn lemma_planes_ok(cfg: StreamConfig, data: Seq<u8>, j: nat, k: nat, strict: bool)
    requires
        j <= k,
        decoder::planes_outcome(cfg, data, k, strict) is Ok,
    ensures
        decoder::planes_outcome(cfg, data, j, strict) is Ok,
        j < k ==> decoder::plane_outcome(cfg, data, j, strict) is Ok,
    decreases k,
{
    if j < k {
        lemma_planes_ok(cfg, data, j, (k - 1) as nat, strict);
    }
}

/// An error among the first strips keeps all strips from joining.
proof fn lemma_joined_ok(results: Seq<Result<Seq<u8>, Error>>, j: nat, k: nat)
    requires
        j <= k,
        decoder::joined(results, k) is Ok,
    ensures
        decoder::joined(results, j) is Ok,
        j < k ==> results[j as int] is Ok,
    decreases k,
{
    if j < k {
        lemma_joined_ok(results, j, (k - 1) as nat);
    }
}

proof fn lemma_joined_same(a: Seq<Result<Seq<u8>, Error>>, b: Seq<Result<Seq<u8>, Error>>, k: nat)
    requires
        forall|i: int| 0 <= i < k ==> #[trigger] a[i] == b[i],
    ensures
        decoder::joined(a, k) == decoder::joined(b, k),
    decreases k,
{
    if k > 0 {
        lemma_joined_same(a, b, (k - 1) as nat);
        assert(a[k - 1] == b[k - 1]);
    }
}

/// The data of a slice with one of its bits set.
proof fn lemma_slice_bit(x: Seq<u8>, n: nat, planes: nat, p: nat, s: int, j: nat)
    requires
        n >= 1,
        payload::walk_error(x, n, planes, true) is None,
        p < planes,
        0 <= s < n,
        j < 8 * payload::slice_data(x, n, p, s).len(),
    ensures
        payload::slice_data(x, n, p, s).len() % 4 == 0,
        alike(
            x,
            with_slice_bit(x, n, p, s, j),
            slice_low(x, n, p, s),
            slice_high(x, n, p, s),
        ),
        payload::slice_data(with_slice_bit(x, n, p, s, j), n, p, s) == with_bit(
            payload::slice_data(x, n, p, s),
            0,
            j as int,
        ),
{
    let y = with_slice_bit(x, n, p, s, j);
    let low = slice_low(x, n, p, s);
    let high = slice_high(x, n, p, s);
    lemma_slice_inside(x, n, planes, p, s);
    let at = byte_of(0, j as int);
    assert(byte_of(low, j as int) == low + at);
    let words = (high - low) / 4;
    assert(high - low == 4 * words);
    assert(0 <= at < high - low) by {
        assert(j as int / 32 < words);
    }
    assert(alike(x, y, low, high));
    lemma_same_slice(x, y, n, planes, p, s, p, s);
    assert(y.subrange(low, high) =~= with_bit(x.subrange(low, high), 0, j as int));
}

/// What the slices of a payload decode to when a bit of the padding of one of
/// them is set.
proof fn lemma_strips_with_bit(
    cfg: StreamConfig,
    x: Seq<u8>,
    p: nat,
    s: int,
    j: nat,
    k: nat,
    t: int,
)
    requires
        decoder::frame_outcome(cfg, x, true) is Ok,
        p < cfg.fourcc.planes(),
        0 <= s < cfg.extradata.slices(),
        in_padding(cfg, x, p, s, j),
        k < cfg.fourcc.planes(),
        0 <= t < cfg.extradata.slices(),
    ensures
        ({
            let y = with_slice_bit(x, cfg.extradata.slices(), p, s, j);
            &&& decoder::strip_outcome(cfg, y, k, t, false) == decoder::strip_outcome(
                cfg,
                x,
                k,
                t,
                false,
            )
            &&& k != p || t != s ==> decoder::strip_outcome(cfg, y, k, t, true)
                == decoder::strip_outcome(cfg, x, k, t, true)
            &&& k == p && t == s ==> decoder::strip_outcome(cfg, y, k, t, true) == Err::<
                Seq<u8>,
                Error,
            >(
                Error::NonZeroPadding {
                    plane: p as usize,
                    slice: s as usize,
                    bit_position: j as usize,
                },
            )
        }),
{
    let n = cfg.extradata.slices();
    let planes = cfg.fourcc.planes();
    let y = with_slice_bit(x, n, p, s, j);
    let part = payload::slice_data(x, n, p, s);
    let d = payload::descriptor(x, n, p);
    lemma_slice_bit(x, n, planes, p, s, j);
    lemma_same_slice(x, y, n, planes, p, s, k, t);
    lemma_slice_inside(x, n, planes, p, s);
    lemma_same_info(x, y, slice_low(x, n, p, s), slice_high(x, n, p, s));
    if k == p && t == s {
        let pixels = slice_pixels(cfg, p, s);
        lemma_planes_ok(cfg, x, p, planes, true);
        lemma_joined_ok(decoder::strips(cfg, x, p, true), s as nat, n);
        assert(decoder::strips(cfg, x, p, true)[s] == decoder::strip_outcome(cfg, x, p, s, true));
        assert(decoder::residuals_outcome(cfg, x, p, s, true) is Ok);
        assert(canonical::strict_outcome(d, part, pixels, p as usize, s as usize) is Ok);
        law_slice_padding_bit(d, part, pixels, p as usize, s as usize, j);
    }
}

/// Changing bytes before the frame-info word leaves it alone.
proof fn lemma_same_info(x: Seq<u8>, y: Seq<u8>, low: int, high: int)
    requires
        x.len() >= 4,
        alike(x, y, low, high),
        high <= payload::info_offset(x),
    ensures
        payload::frame_info(y) == payload::frame_info(x),
        decoder::predictor_of(y) == decoder::predictor_of(x),
{
    let at = payload::info_offset(x);
    assert(y[at] == x[at] && y[at + 1] == x[at + 1] && y[at + 2] == x[at + 2] && y[at + 3] == x[at
        + 3]);
}

/// What the first planes of a payload decode to when a bit of the padding of
/// one of its slices is set.
proof fn lemma_planes_with_bit(cfg: StreamConfig, x: Seq<u8>, p: nat, s: int, j: nat, k: nat)
    requires
        decoder::frame_outcome(cfg, x, true) is Ok,
        p < cfg.fourcc.planes(),
        0 <= s < cfg.extradata.slices(),
        in_padding(cfg, x, p, s, j),
        k <= cfg.fourcc.planes(),
    ensures
        ({
            let y = with_slice_bit(x, cfg.extradata.slices(), p, s, j);
            &&& decoder::planes_outcome(cfg, y, k, false) == decoder::planes_outcome(
                cfg,
                x,
                k,
                false,
            )
            &&& k <= p ==> decoder::planes_outcome(cfg, y, k, true) == decoder::planes_outcome(
                cfg,
                x,
                k,
                true,
            )
        }),
    decreases k,
{
    if k > 0 {
        let n = cfg.extradata.slices();
        let y = with_slice_bit(x, n, p, s, j);
        let m = (k - 1) as nat;
        lemma_planes_with_bit(cfg, x, p, s, j, m);
        let a = decoder::strips(cfg, y, m, false);
        let b = decoder::strips(cfg, x, m, false);
        assert forall|t: int| 0 <= t < n implies #[trigger] a[t] == b[t] by {
            lemma_strips_with_bit(cfg, x, p, s, j, m, t);
        }
        lemma_joined_same(a, b, n);
        if m < p {
            let a = decoder::strips(cfg, y, m, true);
            let b = decoder::strips(cfg, x, m, true);
            assert forall|t: int| 0 <= t < n implies #[trigger] a[t] == b[t] by {
                lemma_strips_with_bit(cfg, x, p, s, j, m, t);
            }
            lemma_joined_same(a, b, n);
        }
    }
}

/// Take a payload that decodes strictly and set one bit in the padding of one
/// of its slices. Strict decoding then fails and names plane, slice and bit;
/// plain decoding gives what it gave.
pub proof fn law_padding_bit(cfg: StreamConfig, data: Seq<u8>, p: nat, s: int, j: nat)
    requires
        decoder::frame_outcome(cfg, data, true) is Ok,
        p < cfg.fourcc.planes(),
        0 <= s < cfg.extradata.slices(),
        in_padding(cfg, data, p, s, j),
    ensures
        ({
            let more = with_slice_bit(data, cfg.extradata.slices(), p, s, j);
            &&& decoder::frame_outcome(cfg, more, true) == Err::<Seq<Seq<u8>>, Error>(
                Error::NonZeroPadding {
                    plane: p as usize,
                    slice: s as usize,
                    bit_position: j as usize,
                },
            )
            &&& decoder::frame_outcome(cfg, more, false) == decoder::frame_outcome(
                cfg,
                data,
                false,
            )
            &&& payload::frame_info(more) == payload::frame_info(data)
            &&& decoder::predictor_of(more) == decoder::predictor_of(data)
        }),
{
    let n = cfg.extradata.slices();
    let planes = cfg.fourcc.planes();
    let more = with_slice_bit(data, n, p, s, j);
    lemma_slice_bit(data, n, planes, p, s, j);
    lemma_slice_inside(data, n, planes, p, s);
    lemma_same_planes(data, more, n, planes, p, s, planes);
    lemma_same_info(data, more, slice_low(data, n, p, s), slice_high(data, n, p, s));
    lemma_planes_with_bit(cfg, data, p, s, j, planes);
    lemma_planes_with_bit(cfg, data, p, s, j, p);
    lemma_planes_ok(cfg, data, p, planes, true);
    let a = decoder::strips(cfg, more, p, true);
    let b = decoder::strips(cfg, data, p, true);
    assert forall|t: int| 0 <= t < s implies #[trigger] a[t] == b[t] by {
        lemma_strips_with_bit(cfg, data, p, s, j, p, t);
    }
    lemma_joined_same(a, b, s as nat);
    lemma_joined_ok(b, s as nat, n);
    lemma_strips_with_bit(cfg, data, p, s, j, p, s);
    assert(decoder::joined(a, (s + 1) as nat) is Err);
    decoder::lemma_joined_error_grows(a, (s + 1) as nat, n);
    decoder::lemma_planes_outcome_error_grows(cfg, more, p + 1, planes, true);
}

/// The codes of packed symbols end with the last symbol, and the padding with
/// the data.
proof fn lemma_packed_padding(d: Seq<u8>, res: Seq<u8>)
    requires
        canonical::shape(d) == Ok::<Shape, Error>(Shape::Coded),
        canonical::all_coded(d, res),
    ensures
        ({
            let all = canonical::encoded_bits(d, res);
            let part = bitstream::packed(all);
            &&& canonical::end_position(d, part, res.len()) == all.len()
            &&& canonical::padding_end(part, all.len()) == 8 * part.len()
        }),
{
    let all = canonical::encoded_bits(d, res);
    let part = bitstream::packed(all);
    bitstream::law_stream_of_packed(all);
    canonical::lemma_encoded_read_back(d, res, bitstream::stream_bits(part), res.len());
    assert(res.take(res.len() as int) =~= res);
}

/// The bits after the last code of a slice of an encoded frame are padding.
proof fn lemma_encoded_in_padding(
    cfg: StreamConfig,
    frame: EncodedFrame,
    p: nat,
    s: int,
    j: nat,
)
    requires
        frame.input_error() is None,
        frame.countable(),
        laws::offsets_fit(frame),
        laws::configured(cfg, frame),
        p < frame.fourcc.planes(),
        0 <= s < frame.num_slices,
        ({
            let slices = encoder::frame_residuals(frame, p as int);
            let d = encoder::plane_descriptor(slices);
            &&& canonical::shape(d) == Ok::<Shape, Error>(Shape::Coded)
            &&& canonical::encoded_bits(d, slices[s]).len() <= j
            &&& j < 8 * laws::plane_parts(frame, p as int)[s].len()
        }),
    ensures
        in_padding(cfg, encoder::encoded_payload(frame), p, s, j),
{
    let slices = encoder::frame_residuals(frame, p as int);
    let d = encoder::plane_descriptor(slices);
    let res = slices[s];
    laws::lemma_slice_found(frame, p, s);
    laws::lemma_slice_len(frame, p as int, s);
    encoder::lemma_frame_residuals(frame, p as int);
    encoder::lemma_plane_descriptor(slices);
    assert(canonical::all_coded(d, slices[s]));
    lemma_packed_padding(d, res);
    if res.len() == 0 {
        assert(canonical::encoded_bits(d, res).len() == 0);
    }
}

/// Take the payload of an encoded frame and set one bit after the last code
/// and before the end of the data of a slice, in a plane with codes. Strict
/// decoding then fails and names plane, slice and bit; plain decoding still
/// gives the frame back.
pub proof fn law_encoded_padding_bit(
    cfg: StreamConfig,
    frame: EncodedFrame,
    p: nat,
    s: int,
    j: nat,
)
    requires
        frame.input_error() is None,
        frame.countable(),
        laws::offsets_fit(frame),
        laws::configured(cfg, frame),
        p < frame.fourcc.planes(),
        0 <= s < frame.num_slices,
        ({
            let slices = encoder::frame_residuals(frame, p as int);
            let d = encoder::plane_descriptor(slices);
            &&& canonical::shape(d) == Ok::<Shape, Error>(Shape::Coded)
            &&& canonical::encoded_bits(d, slices[s]).len() <= j
            &&& j < 8 * laws::plane_parts(frame, p as int)[s].len()
        }),
    ensures
        ({
            let data = encoder::encoded_payload(frame);
            let more = with_slice_bit(data, frame.num_slices as nat, p, s, j);
            &&& decoder::frame_outcome(cfg, more, true) == Err::<Seq<Seq<u8>>, Error>(
                Error::NonZeroPadding {
                    plane: p as usize,
                    slice: s as usize,
                    bit_position: j as usize,
                },
            )
            &&& decoder::frame_outcome(cfg, more, false) == decoder::frame_outcome(
                cfg,
                data,
                false,
            )
            &&& decoder::frame_outcome(cfg, more, false) == Ok::<Seq<Seq<u8>>, Error>(
                encoder::input_samples(frame.planes@),
            )
            &&& payload::frame_info(more) == payload::frame_info(data)
            &&& decoder::predictor_of(more) == decoder::predictor_of(data)
        }),
{
    lemma_encoded_in_padding(cfg, frame, p, s, j);
    laws::law_round_trip(cfg, frame, true);
    laws::law_round_trip(cfg, frame, false);
    law_padding_bit(cfg, encoder::encoded_payload(frame), p, s, j);
}

} // verus!
