//! What a descriptor, a code and the decoding of a slice are, said without the
//! tables that work them out.

use crate::bitstream;
use crate::bytes;
use crate::canonical;
use crate::canonical::Shape;
use crate::error::Error;
use crate::padding;
use vstd::arithmetic::power2::*;
use vstd::prelude::*;

verus! {

proof fn lemma_tally_multiset(d: Seq<u8>, l: u8, n: nat)
    requires
        n <= d.len(),
    ensures
        canonical::tally(d, l as int, n) == d.take(n as int).to_multiset().count(l),
    decreases n,
{
    broadcast use vstd::seq_lib::group_to_multiset_ensures;

    if n == 0 {
        assert(d.take(0) =~= Seq::<u8>::empty());
    } else {
        lemma_tally_multiset(d, l, (n - 1) as nat);
        assert(d.take(n as int) =~= d.take(n - 1).push(d[n - 1]));
    }
}

/// The number of symbols of a length is how often the length stands in the
/// descriptor.
pub proof fn law_count(d: Seq<u8>, l: u8)
    requires
        d.len() == 256,
    ensures
        canonical::count(d, l as int) == d.to_multiset().count(l),
{
    lemma_tally_multiset(d, l, 256);
    assert(d.take(256) =~= d);
}

/// The part of the code space that the codes of a descriptor take, in units of
/// 2^-32.
proof fn lemma_space_folded(d: Seq<u8>, n: nat)
    requires
        n <= d.len(),
    ensures
        canonical::space(d, 0, n) == d.take(n as int).fold_left(
            0int,
            |sum: int, l: u8|
                if 1 <= l <= 32 {
                    sum + pow2((32 - l) as nat)
                } else {
                    sum
                },
        ),
    decreases n,
{
    if n > 0 {
        lemma_space_folded(d, (n - 1) as nat);
        assert(d.take(n as int).drop_last() =~= d.take(n - 1));
        assert(d.take(n as int).last() == d[n - 1]);
    }
}

/// Two symbols of length zero are two in the count.
proof fn lemma_two_counted(d: Seq<u8>, s: int, t: int)
    requires
        0 <= s < t < 256,
        d[s] == d[t],
    ensures
        canonical::count(d, d[s] as int) >= 2,
{
    canonical::lemma_rank_injective(d, s, t);
    canonical::lemma_rank_bound(d, s);
}

/// The symbols of length zero, as far as the count tells them apart.
proof fn lemma_zeros(d: Seq<u8>)
    ensures
        canonical::count(d, 0) >= 1 <==> exists|s: int| 0 <= s < 256 && #[trigger] d[s] == 0,
        canonical::count(d, 0) >= 2 <==> exists|s: int, t: int|
            0 <= s < t < 256 && #[trigger] d[s] == 0 && #[trigger] d[t] == 0,
{
    let zeros = canonical::count(d, 0);
    if zeros >= 1 {
        let a = canonical::lemma_rank_find(d, 0, 0);
        assert(d[a] == 0);
        if zeros >= 2 {
            let b = canonical::lemma_rank_find(d, 0, 1);
            assert(a != b);
            if a < b {
                assert(d[a] == 0 && d[b] == 0);
            } else {
                assert(d[b] == 0 && d[a] == 0);
            }
        }
    }
    assert forall|s: int| 0 <= s < 256 && #[trigger] d[s] == 0 implies zeros >= 1 by {
        canonical::lemma_rank_bound(d, s);
    }
    assert forall|s: int, t: int|
        0 <= s < t < 256 && #[trigger] d[s] == 0 && #[trigger] d[t] == 0 implies zeros >= 2 by {
        lemma_two_counted(d, s, t);
    }
}

/// A descriptor describes a plane of one symbol exactly if that symbol has
/// length zero and all others have 255.
pub proof fn law_single_shape(d: Seq<u8>, s: u8)
    requires
        d.len() == 256,
    ensures
        canonical::shape(d) == Ok::<Shape, Error>(Shape::Single(s)) <==> d[s as int] == 0 && forall|
            t: int,
        | 0 <= t < 256 && t != s ==> #[trigger] d[t] == 255,
{
    lemma_zeros(d);
    let alone = forall|t: int| 0 <= t < 256 && t != s ==> #[trigger] d[t] == 255;
    if canonical::shape(d) == Ok::<Shape, Error>(Shape::Single(s)) {
        let a = choose|a: int| 0 <= a < 256 && #[trigger] d[a] == 0;
        assert(d[(a as u8) as int] == 0);
        assert(d[s as int] == 0);
        assert forall|t: int| 0 <= t < 256 && t != s implies #[trigger] d[t] == 255 by {
            if d[t] == 0 {
                if t < s {
                    assert(d[t] == 0 && d[s as int] == 0);
                } else {
                    assert(d[s as int] == 0 && d[t] == 0);
                }
            }
            assert(!canonical::is_active(d[t]));
        }
    }
    if d[s as int] == 0 && alone {
        assert(canonical::count(d, 0) == 1);
        assert forall|t: int| 0 <= t < 256 implies !canonical::is_active(#[trigger] d[t]) by {
            if t != s {
                assert(d[t] == 255);
            }
        }
        assert(!canonical::has_active(d));
        let o = canonical::only_symbol(d);
        assert(d[s as int] == 0);
        assert(d[o as int] == 0);
        assert(o == s);
    }
}

/// A descriptor describes a code exactly if no symbol has length zero, no
/// length in use is above 32, and the codes fill the code space exactly.
pub proof fn law_coded_shape(d: Seq<u8>)
    requires
        d.len() == 256,
    ensures
        canonical::shape(d) == Ok::<Shape, Error>(Shape::Coded) <==> {
            &&& forall|t: int| 0 <= t < 256 ==> #[trigger] d[t] != 0
            &&& forall|t: int| 0 <= t < 256 ==> #[trigger] d[t] <= 32 || d[t] == 255
            &&& d.fold_left(
                0int,
                |sum: int, l: u8|
                    if 1 <= l <= 32 {
                        sum + pow2((32 - l) as nat)
                    } else {
                        sum
                    },
            ) == 0x1_0000_0000
        },
{
    lemma2_to64();
    lemma_space_folded(d, 256);
    assert(d.take(256) =~= d);
    canonical::lemma_deeper_is_space(d, 0);
    lemma_zeros(d);
    let short = forall|t: int| 0 <= t < 256 ==> #[trigger] d[t] <= 32 || d[t] == 255;
    if short {
        assert(canonical::within_limit(d));
    }
    if canonical::within_limit(d) && canonical::count(d, 0) == 0 {
        assert forall|t: int| 0 <= t < 256 implies #[trigger] d[t] <= 32 || d[t] == 255 by {
            assert(canonical::is_active(d[t]) ==> d[t] <= 32);
        }
    }
}

/// A descriptor with two symbols of length zero is refused as such, and every
/// other one that describes no code as a broken code.
pub proof fn law_shape_errors(d: Seq<u8>)
    requires
        d.len() == 256,
    ensures
        canonical::shape(d) == Err::<Shape, Error>(Error::MultipleSingleSymbolSentinels) <==> exists|
            s: int,
            t: int,
        | 0 <= s < t < 256 && #[trigger] d[s] == 0 && #[trigger] d[t] == 0,
        canonical::shape(d) is Err ==> canonical::shape(d) == Err::<Shape, Error>(
            Error::MultipleSingleSymbolSentinels,
        ) || canonical::shape(d) == Err::<Shape, Error>(Error::KraftViolation),
{
    lemma_zeros(d);
}

/// The bits of a code: as many as its length, the most significant one first.
pub proof fn law_symbol_bits(d: Seq<u8>, s: int, j: int)
    requires
        0 <= j < d[s],
    ensures
        canonical::symbol_bits(d, s).len() == d[s],
        canonical::symbol_bits(d, s)[j] == (canonical::code(d, s) / pow2((d[s] - 1 - j) as nat) % 2
            == 1),
{
}

/// The bits of a sequence of symbols are the bits of the first ones followed by
/// the code of the last one.
pub proof fn law_encoded_bits(d: Seq<u8>, syms: Seq<u8>, s: u8)
    ensures
        canonical::encoded_bits(d, Seq::<u8>::empty()) == Seq::<bool>::empty(),
        canonical::encoded_bits(d, syms.push(s)) == canonical::encoded_bits(d, syms)
            + canonical::symbol_bits(d, s as int),
{
    assert(syms.push(s).drop_last() =~= syms);
    assert(syms.push(s).last() == s);
}

/// The symbols that a stream is read as have the bits that stand there.
proof fn lemma_read_bits(d: Seq<u8>, bits: Seq<bool>, n: nat)
    requires
        canonical::complete(d),
        canonical::position(d, bits, n) <= bits.len(),
    ensures
        canonical::all_coded(d, canonical::symbols(d, bits, n)),
        canonical::encoded_bits(d, canonical::symbols(d, bits, n)) == bits.take(
            canonical::position(d, bits, n) as int,
        ),
    decreases n,
{
    let out = canonical::symbols(d, bits, n);
    if n == 0 {
        assert(out =~= Seq::<u8>::empty());
        assert(bits.take(0) =~= Seq::<bool>::empty());
    } else {
        let m = (n - 1) as nat;
        let p = canonical::position(d, bits, m) as int;
        let s = canonical::next_symbol(d, bits, p);
        let l = d[s as int] as nat;
        canonical::lemma_match_exists(d, bits, p);
        lemma_read_bits(d, bits, m);
        assert(out.drop_last() =~= canonical::symbols(d, bits, m));
        assert(out.last() == s);
        bitstream::lemma_code_of_value(bits, p, l);
        assert(bits.take(p + l) =~= bits.take(p) + bits.subrange(p, p + l));
        assert forall|i: int| 0 <= i < n implies canonical::is_active(
            d[#[trigger] out[i] as int],
        ) by {
            if i < m {
                assert(out[i] == canonical::symbols(d, bits, m)[i]);
            }
        }
    }
}

proof fn lemma_fits(d: Seq<u8>, bits: Seq<bool>, limit: nat, n: nat)
    ensures
        ({
            let k = canonical::fitting(d, bits, limit, n);
            &&& k <= n
            &&& canonical::position(d, bits, k) <= limit
            &&& k < n ==> canonical::position(d, bits, k + 1) > limit
        }),
    decreases n,
{
    if n > 0 {
        lemma_fits(d, bits, limit, (n - 1) as nat);
    }
}

/// The data ran out after the symbols `out`: their codes are its first bits,
/// the code of `s` stands next and does not fit into the rest, and the error
/// says so.
pub open spec fn ran_out(
    d: Seq<u8>,
    data: Seq<u8>,
    n: nat,
    out: Seq<u8>,
    s: u8,
    e: Error,
) -> bool {
    let bits = canonical::encoded_bits(d, out);
    let all = bitstream::stream_bits(data);
    &&& out.len() < n
    &&& canonical::all_coded(d, out)
    &&& bits.len() <= 8 * data.len()
    &&& bits == all.take(bits.len() as int)
    &&& canonical::matches_at(d, all, bits.len() as int, s as int)
    &&& bits.len() + d[s as int] > 8 * data.len()
    &&& e == Error::SliceTruncated {
        bit_position: bits.len() as usize,
        expected_pixels: n as usize,
        decoded: out.len() as usize,
    }
}

/// Decoding a slice with codes. Success: as many symbols as asked for, whose
/// codes one after the other are the first bits of the data. Failure: the data
/// ran out; the symbols decoded so far are fewer than asked for, their codes
/// are the first bits of the data and end at the reported position, and the
/// code that begins there does not fit into the rest.
pub proof fn law_decoded_slice(d: Seq<u8>, data: Seq<u8>, n: nat)
    requires
        canonical::shape(d) == Ok::<Shape, Error>(Shape::Coded),
    ensures
        8 * data.len() <= bitstream::stream_bits(data).len() < 8 * data.len() + 32,
        match canonical::decode_outcome(d, data, n) {
            Ok(out) => {
                let bits = canonical::encoded_bits(d, out);
                &&& out.len() == n
                &&& canonical::all_coded(d, out)
                &&& bits.len() <= 8 * data.len()
                &&& bits == bitstream::stream_bits(data).take(bits.len() as int)
                &&& canonical::end_position(d, data, n) == bits.len()
            },
            Err(e) => exists|out: Seq<u8>, s: u8| #[trigger] ran_out(d, data, n, out, s, e),
        },
{
    let all = bitstream::stream_bits(data);
    let limit = 8 * data.len();
    let k = canonical::fitting(d, all, limit, n);
    lemma_fits(d, all, limit, n);
    lemma_read_bits(d, all, k);
    if k < n {
        let out = canonical::symbols(d, all, k);
        let p = canonical::position(d, all, k) as int;
        let s = canonical::next_symbol(d, all, p);
        canonical::lemma_match_exists(d, all, p);
        let bits = canonical::encoded_bits(d, out);
        assert(bits.len() == p);
        assert(ran_out(d, data, n, out, s, canonical::decode_outcome(d, data, n)->Err_0));
    }
}

/// Decoding a slice of a plane with one symbol gives that symbol as often as
/// asked for, whatever the data.
pub proof fn law_decoded_single(d: Seq<u8>, data: Seq<u8>, n: nat, s: u8, i: int)
    requires
        canonical::shape(d) == Ok::<Shape, Error>(Shape::Single(s)),
        0 <= i < n,
    ensures
        canonical::decode_outcome(d, data, n) is Ok,
        (canonical::decode_outcome(d, data, n)->Ok_0).len() == n,
        (canonical::decode_outcome(d, data, n)->Ok_0)[i] == s,
{
}

/// A code stands at a place of a stream if the bits there, zeros past the end,
/// are its bits.
pub proof fn law_matches(d: Seq<u8>, bits: Seq<bool>, pos: int, s: int)
    requires
        canonical::complete(d),
        0 <= pos,
        0 <= s < 256,
        1 <= d[s] <= 32,
    ensures
        canonical::matches_at(d, bits, pos, s) <==> forall|j: int|
            0 <= j < d[s] ==> (pos + j < bits.len() && bits[pos + j])
                == #[trigger] canonical::symbol_bits(d, s)[j],
{
    let l = d[s] as nat;
    let cb = canonical::symbol_bits(d, s);
    canonical::lemma_code_place(d, s);
    assert(cb.subrange(0, l as int) =~= cb);
    bitstream::lemma_value_of_code(cb, 0, canonical::code(d, s), l);
    if canonical::matches_at(d, bits, pos, s) {
        assert forall|j: int| 0 <= j < d[s] implies (pos + j < bits.len() && bits[pos + j])
            == #[trigger] cb[j] by {
            bitstream::lemma_value_injective(bits, pos, cb, 0, l, j);
        }
    }
    if forall|j: int| 0 <= j < d[s] ==> (pos + j < bits.len() && bits[pos + j]) == #[trigger] cb[j] {
        assert forall|j: int| 0 <= j < l implies #[trigger] bitstream::bit(bits, pos + j)
            == bitstream::bit(cb, 0 + j) by {
            assert((pos + j < bits.len() && bits[pos + j]) == cb[j]);
        }
        bitstream::lemma_value_congruent(bits, pos, cb, 0, l);
    }
}

/// Bit `j` of slice data: inside a word of four bytes the last byte comes
/// first, and inside a byte the most significant bit. Bytes that the last word
/// lacks are zero.
pub proof fn law_stream_bit(data: Seq<u8>, j: int)
    requires
        0 <= j < bitstream::stream_bits(data).len(),
    ensures
        bitstream::stream_bits(data).len() % 32 == 0,
        8 * data.len() <= bitstream::stream_bits(data).len() < 8 * data.len() + 32,
        ({
            let i = 4 * (j / 32) + 3 - j % 32 / 8;
            &&& i < data.len() ==> bitstream::stream_bits(data)[j] == (data[i] as int / pow2(
                (7 - j % 8) as nat,
            ) as int % 2 == 1)
            &&& i >= data.len() ==> !bitstream::stream_bits(data)[j]
        }),
{
    let k = j / 32;
    let m = j % 32;
    let b0 = bitstream::byte_or_zero(data, 4 * k);
    let b1 = bitstream::byte_or_zero(data, 4 * k + 1);
    let b2 = bitstream::byte_or_zero(data, 4 * k + 2);
    let b3 = bitstream::byte_or_zero(data, 4 * k + 3);
    let e = (7 - m % 8) as nat;
    let i = 3 - m / 8;
    assert(m % 8 == j % 8);
    lemma2_to64();
    assert((31 - m) as nat == (8 * i) as nat + e);
    if i == 0 {
        padding::lemma_digit_of_byte(0, b0, b1 + 256 * b2 + 65536 * b3, 0, e);
    } else if i == 1 {
        padding::lemma_digit_of_byte(b0, b1, b2 + 256 * b3, 8, e);
    } else if i == 2 {
        padding::lemma_digit_of_byte(b0 + 256 * b1, b2, b3, 16, e);
    } else {
        padding::lemma_digit_of_byte(b0 + 256 * b1 + 65536 * b2, b3, 0, 24, e);
    }
}

/// Packed bits are the bits, followed by fewer than 32 zeros up to a whole
/// number of words.
pub proof fn law_packed_bits(bits: Seq<bool>, j: int)
    ensures
        ({
            let data = bitstream::packed(bits);
            let all = bitstream::stream_bits(data);
            &&& data.len() % 4 == 0
            &&& bits.len() <= 8 * data.len() < bits.len() + 32
            &&& all.len() == 8 * data.len()
            &&& 0 <= j < all.len() ==> all[j] == (j < bits.len() && bits[j])
        }),
{
    bitstream::law_stream_of_packed(bits);
    let all = bitstream::stream_bits(bitstream::packed(bits));
    if 0 <= j < all.len() {
        assert(bitstream::bit(all, j) == bitstream::bit(bits, j));
    }
}

/// Words in byte strings: the first byte of a little-endian word, and the last
/// byte of a big-endian one, is the least significant.
pub proof fn law_words(v: u32, s: Seq<u8>, at: int)
    ensures
        bytes::le_bytes(v).len() == 4,
        bytes::le_bytes(v)[0] == v % 256,
        bytes::le_bytes(v)[1] == v / 256 % 256,
        bytes::le_bytes(v)[2] == v / 65536 % 256,
        bytes::le_bytes(v)[3] == v / 16777216,
        bytes::le32(s, at) == ((s[at + 3] * 256 + s[at + 2]) * 256 + s[at + 1]) * 256 + s[at],
        bytes::be32(s, at) == ((s[at] * 256 + s[at + 1]) * 256 + s[at + 2]) * 256 + s[at + 3],
{
}

} // verus!
