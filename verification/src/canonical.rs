//! The canonical prefix code that a code-length descriptor stands for.
//!
//! A descriptor gives each of the 256 symbols a code length; 255 marks an
//! unused symbol and 0 the only symbol of a plane. Codes are handed out from
//! zero on in order of falling length, and of falling symbol inside a length,
//! so the longest codes begin with zeros and the shortest with ones.

use crate::bitstream;
use crate::bytes;
use crate::error::Error;
use vstd::arithmetic::div_mod::*;
use vstd::arithmetic::mul::*;
use vstd::arithmetic::power2::*;
use vstd::prelude::*;

verus! {

/// How many of the first `n` symbols have length `l`.
pub open spec fn tally(d: Seq<u8>, l: int, n: nat) -> nat
    decreases n,
{
    if n == 0 {
        0
    } else {
        tally(d, l, (n - 1) as nat) + if d[n - 1] == l {
            1nat
        } else {
            0nat
        }
    }
}

/// How many symbols have length `l`.
pub open spec fn count(d: Seq<u8>, l: int) -> nat {
    tally(d, l, 256)
}

/// How many symbols above `s` have the length of `s`.
pub open spec fn rank(d: Seq<u8>, s: int) -> nat {
    (count(d, d[s] as int) - tally(d, d[s] as int, (s + 1) as nat)) as nat
}

/// The part of the code space, in units of 2^-32, that is taken by codes
/// longer than `l`.
pub open spec fn deeper(d: Seq<u8>, l: nat) -> nat
    decreases 32 - l,
{
    if l >= 32 {
        0
    } else {
        deeper(d, l + 1) + count(d, (l + 1) as int) * pow2((31 - l) as nat)
    }
}

/// A symbol with a code of its own: neither unused nor the only symbol.
pub open spec fn is_active(length: u8) -> bool {
    length != 0 && length != 255
}

/// No code is longer than 32 bits.
pub open spec fn within_limit(d: Seq<u8>) -> bool {
    forall|s: int| 0 <= s < 256 && is_active(#[trigger] d[s]) ==> d[s] <= 32
}

/// The codes fill the code space exactly.
pub open spec fn complete(d: Seq<u8>) -> bool {
    within_limit(d) && deeper(d, 0) == pow2(32)
}

/// Some symbol has a code of its own.
pub open spec fn has_active(d: Seq<u8>) -> bool {
    exists|s: int| 0 <= s < 256 && is_active(#[trigger] d[s])
}

/// What a descriptor describes.
pub enum Shape {
    /// Exactly one symbol occurs; its code is empty.
    Single(u8),
    /// The symbols with an active length form a complete prefix code.
    Coded,
}

/// The shape of a descriptor, or why it has none.
pub open spec fn shape(d: Seq<u8>) -> Result<Shape, Error> {
    if count(d, 0) > 1 {
        Err(Error::MultipleSingleSymbolSentinels)
    } else if count(d, 0) == 1 {
        if has_active(d) {
            Err(Error::KraftViolation)
        } else {
            Ok(Shape::Single(only_symbol(d)))
        }
    } else if complete(d) {
        Ok(Shape::Coded)
    } else {
        Err(Error::KraftViolation)
    }
}

/// The symbol of length zero.
pub open spec fn only_symbol(d: Seq<u8>) -> u8 {
    choose|s: u8| d[s as int] == 0
}

/// The first code of length `l`.
pub open spec fn first_code(d: Seq<u8>, l: nat) -> nat {
    deeper(d, l) / pow2((32 - l) as nat)
}

/// The code of symbol `s`, as a number of `d[s]` bits.
pub open spec fn code(d: Seq<u8>, s: int) -> nat {
    first_code(d, d[s] as nat) + rank(d, s)
}

/// The bits of the code of symbol `s`.
pub open spec fn symbol_bits(d: Seq<u8>, s: int) -> Seq<bool> {
    bitstream::code_bits(code(d, s), d[s] as nat)
}

/// The code of symbol `s` stands at position `pos` of the stream.
pub open spec fn matches_at(d: Seq<u8>, bits: Seq<bool>, pos: int, s: int) -> bool {
    1 <= d[s] <= 32 && bitstream::value(bits, pos, d[s] as nat) == code(d, s)
}

/// The symbol whose code stands at position `pos`.
pub open spec fn next_symbol(d: Seq<u8>, bits: Seq<bool>, pos: int) -> u8 {
    choose|s: u8| matches_at(d, bits, pos, s as int)
}

/// Tallies grow by at most one per symbol.
pub proof fn lemma_tally_monotone(d: Seq<u8>, l: int, m: nat, n: nat)
    requires
        m <= n,
    ensures
        tally(d, l, m) <= tally(d, l, n) <= tally(d, l, m) + (n - m),
    decreases n,
{
    if m < n {
        lemma_tally_monotone(d, l, m, (n - 1) as nat);
    }
}

/// The symbol that is number `k` among those of length `l`.
proof fn lemma_tally_find(d: Seq<u8>, l: int, n: nat, k: nat) -> (s: int)
    requires
        k < tally(d, l, n),
    ensures
        0 <= s < n,
        d[s] == l,
        tally(d, l, s as nat) == k,
    decreases n,
{
    if k < tally(d, l, (n - 1) as nat) {
        lemma_tally_find(d, l, (n - 1) as nat, k)
    } else {
        n - 1
    }
}

/// The symbol with a given rank among those of length `l`.
pub proof fn lemma_rank_find(d: Seq<u8>, l: int, r: nat) -> (s: int)
    requires
        r < count(d, l),
    ensures
        0 <= s < 256,
        d[s] == l,
        rank(d, s) == r,
{
    lemma_tally_find(d, l, 256, (count(d, l) - 1 - r) as nat)
}

/// A rank is below the count of its length.
pub proof fn lemma_rank_bound(d: Seq<u8>, s: int)
    requires
        0 <= s < 256,
    ensures
        rank(d, s) < count(d, d[s] as int),
        rank(d, s) + tally(d, d[s] as int, s as nat) + 1 == count(d, d[s] as int),
{
    lemma_tally_monotone(d, d[s] as int, (s + 1) as nat, 256);
}

/// Symbols of one length have different ranks.
pub proof fn lemma_rank_injective(d: Seq<u8>, s: int, t: int)
    requires
        0 <= s < t < 256,
        d[s] == d[t],
    ensures
        rank(d, s) > rank(d, t),
{
    lemma_rank_bound(d, s);
    lemma_rank_bound(d, t);
    lemma_tally_monotone(d, d[s] as int, (s + 1) as nat, t as nat);
}

/// Fewer codes are longer than a greater length.
pub proof fn lemma_deeper_monotone(d: Seq<u8>, a: nat, b: nat)
    requires
        a <= b <= 32,
    ensures
        deeper(d, b) <= deeper(d, a),
    decreases b - a,
{
    if a < b {
        lemma_deeper_monotone(d, a + 1, b);
        lemma_mul_nonnegative(count(d, (a + 1) as int) as int, pow2((31 - a) as nat) as int);
    }
}

/// The space of the longer codes is a whole number of codes of length `l`.
pub proof fn lemma_first_code_exact(d: Seq<u8>, l: nat)
    requires
        complete(d),
        l <= 32,
    ensures
        deeper(d, l) == first_code(d, l) * pow2((32 - l) as nat),
        l >= 1 ==> first_code(d, l) + count(d, l as int) == 2 * first_code(d, (l - 1) as nat),
    decreases l,
{
    if l == 0 {
        lemma_pow2_pos(32);
        lemma_div_by_self(pow2(32) as int);
        assert((32 - l) as nat == 32);
        assert(first_code(d, l) == 1);
    } else {
        let m = (l - 1) as nat;
        lemma_first_code_exact(d, m);
        let p = pow2((32 - l) as nat) as int;
        lemma_pow2_pos((32 - l) as nat);
        lemma_pow2_unfold((32 - m) as nat);
        let f = first_code(d, m) as int;
        let c = count(d, l as int) as int;
        assert(deeper(d, m) == deeper(d, l) + count(d, l as int) * pow2((31 - m) as nat));
        assert(deeper(d, l) == f * (2 * p) - c * p);
        assert(f * (2 * p) - c * p == (2 * f - c) * p) by (nonlinear_arith);
        lemma_fundamental_div_mod_converse(deeper(d, l) as int, p, 2 * f - c, 0);
        assert(first_code(d, l) == 2 * f - c);
    }
}

/// The code of a symbol fits its length, and its place in the code space.
pub proof fn lemma_code_place(d: Seq<u8>, s: int)
    requires
        complete(d),
        0 <= s < 256,
        1 <= d[s] <= 32,
    ensures
        code(d, s) < pow2(d[s] as nat),
        code(d, s) * pow2((32 - d[s]) as nat) >= deeper(d, d[s] as nat),
        (code(d, s) + 1) * pow2((32 - d[s]) as nat) <= deeper(d, (d[s] - 1) as nat),
{
    let l = d[s] as nat;
    let p = pow2((32 - l) as nat) as int;
    lemma_first_code_exact(d, l);
    lemma_first_code_exact(d, (l - 1) as nat);
    lemma_rank_bound(d, s);
    lemma_deeper_monotone(d, 0, (l - 1) as nat);
    lemma_pow2_unfold((33 - l) as nat);
    lemma_pow2_pos((32 - l) as nat);
    let c = code(d, s) as int;
    let g = first_code(d, (l - 1) as nat) as int;
    let f = first_code(d, l) as int;
    assert((c + 1) * p <= g * (2 * p)) by (nonlinear_arith)
        requires
            c + 1 <= 2 * g,
            0 <= p,
    ;
    assert(c * p >= f * p) by (nonlinear_arith)
        requires
            c >= f,
            0 <= p,
    ;
    lemma_pow2_adds(l, (32 - l) as nat);
    let q = pow2(l) as int;
    assert(c < q) by (nonlinear_arith)
        requires
            (c + 1) * p <= q * p,
            0 < p,
    ;
}

/// A symbol's code stands at a place of the stream exactly if the next 32
/// bits there lie in the symbol's part of the code space.
pub proof fn lemma_match_window(d: Seq<u8>, bits: Seq<bool>, pos: int, s: int)
    requires
        complete(d),
        0 <= s < 256,
        1 <= d[s] <= 32,
    ensures
        matches_at(d, bits, pos, s) <==> code(d, s) * pow2((32 - d[s]) as nat)
            <= bitstream::value(bits, pos, 32) < (code(d, s) + 1) * pow2((32 - d[s]) as nat),
{
    let l = d[s] as nat;
    let k = (32 - l) as nat;
    let p = pow2(k) as int;
    let w = bitstream::value(bits, pos, 32) as int;
    let v = bitstream::value(bits, pos, l) as int;
    let c = code(d, s) as int;
    bitstream::lemma_value_prefix(bits, pos, l, k);
    lemma_pow2_pos(k);
    lemma_fundamental_div_mod(w, p);
    lemma_mod_bound(w, p);
    let r = w % p;
    assert(w == p * v + r);
    assert(v == c <==> c * p <= w < (c + 1) * p) by (nonlinear_arith)
        requires
            w == p * v + r,
            0 <= r < p,
    ;
}

/// No two codes stand at the same place.
pub proof fn lemma_match_unique(d: Seq<u8>, bits: Seq<bool>, pos: int, s: int, t: int)
    requires
        complete(d),
        0 <= s < 256,
        0 <= t < 256,
        matches_at(d, bits, pos, s),
        matches_at(d, bits, pos, t),
    ensures
        s == t,
{
    lemma_match_window(d, bits, pos, s);
    lemma_match_window(d, bits, pos, t);
    lemma_code_place(d, s);
    lemma_code_place(d, t);
    if d[s] < d[t] {
        lemma_deeper_monotone(d, d[s] as nat, (d[t] - 1) as nat);
    } else if d[t] < d[s] {
        lemma_deeper_monotone(d, d[t] as nat, (d[s] - 1) as nat);
    } else if s < t {
        lemma_rank_injective(d, s, t);
    } else if t < s {
        lemma_rank_injective(d, t, s);
    }
}

/// The length of the code at a place: the one whose part of the code space
/// holds the next 32 bits.
proof fn lemma_match_length(d: Seq<u8>, w: nat, l: nat) -> (m: nat)
    requires
        l <= 32,
        w < deeper(d, l),
    ensures
        l < m <= 32,
        deeper(d, m) <= w < deeper(d, (m - 1) as nat),
    decreases 32 - l,
{
    if deeper(d, l + 1) <= w {
        l + 1
    } else {
        lemma_match_length(d, w, l + 1)
    }
}

/// The symbol that matches when the next 32 bits lie in the part of the code
/// space of length `l`.
pub proof fn lemma_match_in_tier(d: Seq<u8>, bits: Seq<bool>, pos: int, l: nat) -> (s: int)
    requires
        complete(d),
        1 <= l <= 32,
        deeper(d, l) <= bitstream::value(bits, pos, 32) < deeper(d, (l - 1) as nat),
    ensures
        0 <= s < 256,
        d[s] == l,
        matches_at(d, bits, pos, s),
        rank(d, s) == bitstream::value(bits, pos, l) - first_code(d, l),
{
    let k = (32 - l) as nat;
    let p = pow2(k) as int;
    let w = bitstream::value(bits, pos, 32) as int;
    let v = bitstream::value(bits, pos, l) as int;
    let f = first_code(d, l) as int;
    let g = first_code(d, (l - 1) as nat) as int;
    lemma_pow2_pos(k);
    lemma_pow2_unfold(k + 1);
    lemma_first_code_exact(d, l);
    lemma_first_code_exact(d, (l - 1) as nat);
    bitstream::lemma_value_prefix(bits, pos, l, k);
    lemma_fundamental_div_mod(w, p);
    lemma_mod_bound(w, p);
    let r = w % p;
    assert(f <= v < 2 * g) by (nonlinear_arith)
        requires
            w == p * v + r,
            0 <= r < p,
            f * p <= w < g * (2 * p),
    ;
    lemma_rank_find(d, l as int, (v - f) as nat)
}

/// Some code stands at every place of a stream.
pub proof fn lemma_match_exists(d: Seq<u8>, bits: Seq<bool>, pos: int)
    requires
        complete(d),
    ensures
        matches_at(d, bits, pos, next_symbol(d, bits, pos) as int),
{
    bitstream::lemma_value_bound(bits, pos, 32);
    let m = lemma_match_length(d, bitstream::value(bits, pos, 32), 0);
    let s = lemma_match_in_tier(d, bits, pos, m);
    assert(matches_at(d, bits, pos, (s as u8) as int));
}

/// A symbol whose code stands at a place is the next symbol there.
pub proof fn lemma_next_symbol(d: Seq<u8>, bits: Seq<bool>, pos: int, s: u8)
    requires
        complete(d),
        matches_at(d, bits, pos, s as int),
    ensures
        next_symbol(d, bits, pos) == s,
{
    lemma_match_exists(d, bits, pos);
    lemma_match_unique(d, bits, pos, s as int, next_symbol(d, bits, pos) as int);
}

/// The position after the first `i` codes of a stream.
pub open spec fn position(d: Seq<u8>, bits: Seq<bool>, i: nat) -> nat
    decreases i,
{
    if i == 0 {
        0
    } else {
        let p = position(d, bits, (i - 1) as nat);
        p + d[next_symbol(d, bits, p as int) as int] as nat
    }
}

/// The first `n` symbols of a stream.
pub open spec fn symbols(d: Seq<u8>, bits: Seq<bool>, n: nat) -> Seq<u8> {
    Seq::new(n, |i: int| next_symbol(d, bits, position(d, bits, i as nat) as int))
}

/// How many of the first `n` codes of a stream end within its first `limit`
/// bits.
pub open spec fn fitting(d: Seq<u8>, bits: Seq<bool>, limit: nat, n: nat) -> nat
    decreases n,
{
    if n == 0 {
        0
    } else {
        let k = fitting(d, bits, limit, (n - 1) as nat);
        if k == n - 1 && position(d, bits, n) <= limit {
            n
        } else {
            k
        }
    }
}

/// The position after the codes of `n` symbols in slice data `data`.
pub open spec fn end_position(d: Seq<u8>, data: Seq<u8>, n: nat) -> nat {
    if shape(d) == Ok::<Shape, Error>(Shape::Coded) {
        position(d, bitstream::stream_bits(data), n)
    } else {
        0
    }
}

/// What decoding `n` symbols from slice data `data` gives.
pub open spec fn decode_outcome(d: Seq<u8>, data: Seq<u8>, n: nat) -> Result<Seq<u8>, Error> {
    match shape(d) {
        Err(e) => Err(e),
        Ok(Shape::Single(s)) => Ok(bytes::repeated(s, n)),
        Ok(Shape::Coded) => {
            let bits = bitstream::stream_bits(data);
            let k = fitting(d, bits, 8 * data.len(), n);
            if k == n {
                Ok(symbols(d, bits, n))
            } else {
                Err(
                    Error::SliceTruncated {
                        bit_position: position(d, bits, k) as usize,
                        expected_pixels: n as usize,
                        decoded: k as usize,
                    },
                )
            }
        },
    }
}

/// The end of the word that the last bit before `p` lies in, or the end of
/// the data if that comes first.
pub open spec fn padding_end(data: Seq<u8>, p: nat) -> nat {
    let boundary = 32 * bitstream::word_count(p);
    if boundary <= 8 * data.len() {
        boundary
    } else {
        8 * data.len()
    }
}

/// The first set bit of a stream from position `p` on and before `end`.
pub open spec fn first_set(bits: Seq<bool>, p: nat, end: nat) -> Option<nat>
    decreases end - p,
{
    if p >= end {
        None
    } else if bitstream::bit(bits, p as int) == 1 {
        Some(p)
    } else {
        first_set(bits, p + 1, end)
    }
}

/// What decoding `n` symbols gives when the padding after the last code has
/// to be zero.
pub open spec fn strict_outcome(
    d: Seq<u8>,
    data: Seq<u8>,
    n: nat,
    plane: usize,
    slice: usize,
) -> Result<Seq<u8>, Error> {
    match decode_outcome(d, data, n) {
        Err(e) => Err(e),
        Ok(out) => {
            let p = end_position(d, data, n);
            match first_set(bitstream::stream_bits(data), p, padding_end(data, p)) {
                None => Ok(out),
                Some(q) => Err(Error::NonZeroPadding { plane, slice, bit_position: q as usize }),
            }
        },
    }
}

/// All codes up to the last fitting one fit, and the next one does not.
pub proof fn lemma_fitting(d: Seq<u8>, bits: Seq<bool>, limit: nat, n: nat, k: nat)
    requires
        k <= n,
        forall|i: nat| i <= k ==> #[trigger] position(d, bits, i) <= limit,
        k < n ==> position(d, bits, k + 1) > limit,
    ensures
        fitting(d, bits, limit, n) == k,
    decreases n,
{
    if k == n {
        if n > 0 {
            lemma_fitting(d, bits, limit, (n - 1) as nat, (n - 1) as nat);
            assert(position(d, bits, n) <= limit);
        }
    } else {
        lemma_fitting(d, bits, limit, (n - 1) as nat, k);
    }
}

/// The bits of a sequence of symbols: their codes one after the other.
pub open spec fn encoded_bits(d: Seq<u8>, syms: Seq<u8>) -> Seq<bool>
    decreases syms.len(),
{
    if syms.len() == 0 {
        Seq::empty()
    } else {
        encoded_bits(d, syms.drop_last()) + symbol_bits(d, syms.last() as int)
    }
}

/// Every symbol of a sequence has a code.
pub open spec fn all_coded(d: Seq<u8>, syms: Seq<u8>) -> bool {
    forall|i: int| 0 <= i < syms.len() ==> is_active(d[#[trigger] syms[i] as int])
}

/// The bits of the first symbols come first.
proof fn lemma_encoded_prefix(d: Seq<u8>, syms: Seq<u8>, i: int)
    requires
        0 <= i <= syms.len(),
    ensures
        encoded_bits(d, syms.take(i)).len() <= encoded_bits(d, syms).len(),
        encoded_bits(d, syms).take(encoded_bits(d, syms.take(i)).len() as int) == encoded_bits(
            d,
            syms.take(i),
        ),
    decreases syms.len(),
{
    if i == syms.len() {
        assert(syms.take(i) =~= syms);
        assert(encoded_bits(d, syms).take(encoded_bits(d, syms).len() as int) =~= encoded_bits(
            d,
            syms,
        ));
    } else {
        lemma_encoded_prefix(d, syms.drop_last(), i);
        assert(syms.drop_last().take(i) =~= syms.take(i));
        let n = encoded_bits(d, syms.take(i)).len() as int;
        assert(encoded_bits(d, syms).take(n) =~= encoded_bits(d, syms.drop_last()).take(n));
    }
}

/// A stream that begins with the codes of some symbols is read as these
/// symbols.
pub proof fn lemma_encoded_read_back(d: Seq<u8>, syms: Seq<u8>, bits: Seq<bool>, n: nat)
    requires
        complete(d),
        all_coded(d, syms),
        n <= syms.len(),
        forall|p: int|
            0 <= p < encoded_bits(d, syms).len() ==> #[trigger] bitstream::bit(bits, p)
                == bitstream::bit(encoded_bits(d, syms), p),
    ensures
        position(d, bits, n) == encoded_bits(d, syms.take(n as int)).len(),
        symbols(d, bits, n) == syms.take(n as int),
    decreases n,
{
    if n == 0 {
        assert(symbols(d, bits, n) =~= syms.take(0));
        assert(syms.take(0).len() == 0);
    } else {
        let m = (n - 1) as nat;
        lemma_encoded_read_back(d, syms, bits, m);
        let s = syms[m as int];
        let l = d[s as int] as nat;
        assert(is_active(d[s as int]));
        let all = encoded_bits(d, syms);
        let head = encoded_bits(d, syms.take(m as int));
        let more = encoded_bits(d, syms.take(n as int));
        lemma_encoded_prefix(d, syms, n as int);
        assert(syms.take(n as int).drop_last() =~= syms.take(m as int));
        assert(syms.take(n as int).last() == s);
        assert(more == head + symbol_bits(d, s as int));
        let p = head.len() as int;
        lemma_code_place(d, s as int);
        assert forall|j: int| 0 <= j < l implies #[trigger] bitstream::bit(bits, p + j)
            == bitstream::digit(code(d, s as int), l, j) by {
            assert(bitstream::bit(bits, p + j) == bitstream::bit(all, p + j));
            assert(all.take(more.len() as int)[p + j] == more[p + j]);
            assert(more[p + j] == symbol_bits(d, s as int)[j]);
        }
        bitstream::lemma_value_of_digits(bits, p, code(d, s as int), l);
        lemma_small_mod(code(d, s as int), pow2(l));
        assert(matches_at(d, bits, p, s as int));
        lemma_next_symbol(d, bits, p, s);
        assert(symbols(d, bits, n) =~= syms.take(n as int)) by {
            assert forall|i: int| 0 <= i < n implies symbols(d, bits, n)[i] == syms.take(
                n as int,
            )[i] by {
                if i < m {
                    assert(symbols(d, bits, m)[i] == syms.take(m as int)[i]);
                }
            }
        }
    }
}

/// Slice data that packs the codes of some symbols decodes to these symbols,
/// under the strict rule too.
pub proof fn law_slice_round_trip(d: Seq<u8>, syms: Seq<u8>, plane: usize, slice: usize)
    requires
        shape(d) == Ok::<Shape, Error>(Shape::Coded),
        all_coded(d, syms),
    ensures
        decode_outcome(d, bitstream::packed(encoded_bits(d, syms)), syms.len()) == Ok::<
            Seq<u8>,
            Error,
        >(syms),
        strict_outcome(
            d,
            bitstream::packed(encoded_bits(d, syms)),
            syms.len(),
            plane,
            slice,
        ) == Ok::<Seq<u8>, Error>(syms),
{
    let all = encoded_bits(d, syms);
    let data = bitstream::packed(all);
    let bits = bitstream::stream_bits(data);
    let n = syms.len();
    bitstream::law_stream_of_packed(all);
    assert forall|i: nat| i <= n implies #[trigger] position(d, bits, i) <= 8 * data.len() by {
        lemma_encoded_read_back(d, syms, bits, i);
        lemma_encoded_prefix(d, syms, i as int);
    }
    lemma_fitting(d, bits, 8 * data.len(), n, n);
    lemma_encoded_read_back(d, syms, bits, n);
    assert(syms.take(n as int) =~= syms);
    let e = padding_end(data, all.len());
    lemma_no_set_bit(bits, all.len(), e);
}

/// A stretch of zero bits has no set bit.
proof fn lemma_no_set_bit(bits: Seq<bool>, p: nat, end: nat)
    requires
        forall|q: int| p <= q < end ==> #[trigger] bitstream::bit(bits, q) == 0,
    ensures
        first_set(bits, p, end) is None,
    decreases end - p,
{
    if p < end {
        assert(bitstream::bit(bits, p as int) == 0);
        lemma_no_set_bit(bits, p + 1, end);
    }
}

/// The part of the code space that the codes of the first `n` symbols take,
/// of those codes that are longer than `l`.
pub open spec fn space(d: Seq<u8>, l: int, n: nat) -> nat
    decreases n,
{
    if n == 0 {
        0
    } else {
        space(d, l, (n - 1) as nat) + if l < d[n - 1] <= 32 {
            pow2((32 - d[n - 1]) as nat)
        } else {
            0
        }
    }
}

proof fn lemma_space_step(d: Seq<u8>, l: int, n: nat)
    requires
        0 <= l < 32,
    ensures
        space(d, l, n) == space(d, l + 1, n) + tally(d, l + 1, n) * pow2((31 - l) as nat),
    decreases n,
{
    let q = pow2((31 - l) as nat) as int;
    if n == 0 {
        lemma_mul_basics_1(q);
    } else {
        lemma_space_step(d, l, (n - 1) as nat);
        let c = tally(d, l + 1, (n - 1) as nat) as int;
        assert((c + 1) * q == c * q + q) by (nonlinear_arith);
    }
}

/// A complete code is not empty.
pub proof fn law_complete_has_active(d: Seq<u8>)
    requires
        complete(d),
    ensures
        has_active(d),
{
    lemma_match_exists(d, Seq::empty(), 0);
    let s = next_symbol(d, Seq::empty(), 0) as int;
    assert(is_active(d[s]));
}

/// The space of the codes longer than `l`, added up symbol by symbol.
pub proof fn lemma_deeper_is_space(d: Seq<u8>, l: nat)
    requires
        l <= 32,
    ensures
        deeper(d, l) == space(d, l as int, 256),
    decreases 32 - l,
{
    if l == 32 {
        lemma_space_empty(d, 256);
    } else {
        lemma_deeper_is_space(d, l + 1);
        lemma_space_step(d, l as int, 256);
    }
}

proof fn lemma_space_empty(d: Seq<u8>, n: nat)
    ensures
        space(d, 32, n) == 0,
    decreases n,
{
    if n > 0 {
        lemma_space_empty(d, (n - 1) as nat);
    }
}

/// No codes are longer than the longest one.
proof fn lemma_deeper_zero(d: Seq<u8>, l: nat)
    requires
        l <= 32,
        forall|s: int| 0 <= s < 256 && is_active(#[trigger] d[s]) ==> d[s] <= l,
    ensures
        deeper(d, l) == 0,
    decreases 32 - l,
{
    if l < 32 {
        lemma_deeper_zero(d, l + 1);
        if count(d, (l + 1) as int) > 0 {
            let s = lemma_rank_find(d, (l + 1) as int, 0);
            assert(is_active(d[s]));
        }
        lemma_mul_basics_1(pow2((31 - l) as nat) as int);
    }
}

/// All the code space is taken by codes longer than `l` if no code is
/// shorter.
proof fn lemma_deeper_all(d: Seq<u8>, l: nat)
    requires
        complete(d),
        l <= 32,
        forall|s: int| 0 <= s < 256 && is_active(#[trigger] d[s]) ==> d[s] > l,
    ensures
        deeper(d, l) == pow2(32),
    decreases l,
{
    if l > 0 {
        lemma_deeper_all(d, (l - 1) as nat);
        if count(d, l as int) > 0 {
            let s = lemma_rank_find(d, l as int, 0);
            assert(is_active(d[s]));
        }
        lemma_mul_basics_1(pow2((32 - l) as nat) as int);
    }
}

/// The highest symbol of the greatest length has the code of zeros only.
pub proof fn law_first_code_is_zeros(d: Seq<u8>, s: int)
    requires
        complete(d),
        0 <= s < 256,
        is_active(d[s]),
        forall|t: int| 0 <= t < 256 && is_active(#[trigger] d[t]) ==> d[t] <= d[s],
        forall|t: int| s < t < 256 ==> #[trigger] d[t] != d[s],
    ensures
        code(d, s) == 0,
{
    lemma_deeper_zero(d, d[s] as nat);
    lemma_pow2_pos((32 - d[s]) as nat);
    lemma_div_of0(pow2((32 - d[s]) as nat) as int);
    lemma_tally_constant(d, d[s] as int, (s + 1) as nat, 256);
}

/// The lowest symbol of the least length has the code of ones only.
pub proof fn law_last_code_is_ones(d: Seq<u8>, s: int)
    requires
        complete(d),
        0 <= s < 256,
        is_active(d[s]),
        forall|t: int| 0 <= t < 256 && is_active(#[trigger] d[t]) ==> d[s] <= d[t],
        forall|t: int| 0 <= t < s ==> #[trigger] d[t] != d[s],
    ensures
        code(d, s) + 1 == pow2(d[s] as nat),
{
    let l = d[s] as nat;
    lemma_deeper_all(d, (l - 1) as nat);
    lemma_first_code_exact(d, l);
    lemma_first_code_exact(d, (l - 1) as nat);
    lemma_tally_constant(d, l as int, 0, s as nat);
    lemma_rank_bound(d, s);
    let g = first_code(d, (l - 1) as nat) as int;
    let u = pow2((33 - l) as nat) as int;
    lemma_pow2_adds((l - 1) as nat, (33 - l) as nat);
    lemma_pow2_pos((33 - l) as nat);
    lemma_pow2_unfold(l);
    let q = pow2((l - 1) as nat) as int;
    assert(g == q) by (nonlinear_arith)
        requires
            g * u == q * u,
            u > 0,
    ;
}

/// A tally does not grow over symbols of other lengths.
proof fn lemma_tally_constant(d: Seq<u8>, l: int, m: nat, n: nat)
    requires
        m <= n,
        forall|t: int| m <= t < n ==> #[trigger] d[t] != l,
    ensures
        tally(d, l, n) == tally(d, l, m),
    decreases n,
{
    if m < n {
        assert(d[n - 1] != l);
        lemma_tally_constant(d, l, m, (n - 1) as nat);
    }
}

/// Codes are handed out in order of falling length, and of falling symbol
/// inside a length: filled up with zeros to 32 bits, an earlier code is
/// smaller.
pub proof fn law_code_order(d: Seq<u8>, s: int, t: int)
    requires
        complete(d),
        0 <= s < 256,
        0 <= t < 256,
        is_active(d[s]),
        is_active(d[t]),
        d[s] > d[t] || (d[s] == d[t] && s > t),
    ensures
        code(d, s) * pow2((32 - d[s]) as nat) < code(d, t) * pow2((32 - d[t]) as nat),
{
    lemma_code_place(d, s);
    lemma_code_place(d, t);
    lemma_pow2_pos((32 - d[s]) as nat);
    let u = pow2((32 - d[s]) as nat) as int;
    let a = code(d, s) as int;
    assert((a + 1) * u == a * u + u) by (nonlinear_arith);
    if d[s] > d[t] {
        lemma_deeper_monotone(d, d[t] as nat, (d[s] - 1) as nat);
    } else {
        lemma_rank_injective(d, t, s);
        let b = code(d, t) as int;
        assert((a + 1) * u <= b * u) by (nonlinear_arith)
            requires
                a + 1 <= b,
                u > 0,
        ;
    }
}

/// No code is the beginning of another symbol's code.
pub proof fn law_prefix_free(d: Seq<u8>, s: int, t: int)
    requires
        complete(d),
        0 <= s < 256,
        0 <= t < 256,
        is_active(d[s]),
        is_active(d[t]),
        d[s] <= d[t],
        symbol_bits(d, t).take(d[s] as int) == symbol_bits(d, s),
    ensures
        s == t,
{
    let bits = symbol_bits(d, t);
    lemma_code_place(d, s);
    lemma_code_place(d, t);
    assert(bits.subrange(0, d[t] as int) =~= bits);
    assert(bits.subrange(0, d[s] as int) =~= bits.take(d[s] as int));
    bitstream::lemma_value_of_code(bits, 0, code(d, t), d[t] as nat);
    bitstream::lemma_value_of_code(bits, 0, code(d, s), d[s] as nat);
    lemma_match_unique(d, bits, 0, s, t);
}

} // verus!
