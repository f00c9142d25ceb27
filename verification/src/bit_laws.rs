//! What reading, writing and packing of bits give, digit by digit, and what
//! strict decoding and the lookup table say of a slice.

use crate::bitstream;
use crate::bytes;
use crate::canonical;
use crate::canonical::Shape;
use crate::code_laws;
use crate::encoder;
use crate::error::Error;
use crate::huffman;
use crate::huffman::LutEntry;
use vstd::arithmetic::div_mod::*;
use vstd::arithmetic::power2::*;
use vstd::prelude::*;

verus! {

/// Reading `n` bits gives a number of `n` binary digits, the first bit being
/// the most significant one; bits past the end are zero.
pub proof fn law_read_bits(bits: Seq<bool>, pos: int, n: nat, j: int)
    requires
        0 <= pos,
        0 <= j < n,
    ensures
        bitstream::value(bits, pos, n) < pow2(n),
        bitstream::value(bits, pos, n) / pow2((n - 1 - j) as nat) % 2 == 1 <==> pos + j < bits.len()
            && bits[pos + j],
{
    let v = bitstream::value(bits, pos, n);
    let cb = bitstream::code_bits(v, n);
    bitstream::lemma_value_bound(bits, pos, n);
    bitstream::lemma_value_of_digits(cb, 0, v, n);
    lemma_small_mod(v, pow2(n));
    bitstream::lemma_value_injective(cb, 0, bits, pos, n, j);
}

/// Writing the low `n` bits of a number writes its binary digits, the most
/// significant one first.
pub proof fn law_written_bits(v: nat, n: nat, j: int)
    requires
        0 <= j < n,
    ensures
        bitstream::code_bits(v, n).len() == n,
        bitstream::code_bits(v, n)[j] == (v / pow2((n - 1 - j) as nat) % 2 == 1),
{
}

proof fn lemma_first_set_found(bits: Seq<bool>, p: nat, end: nat)
    ensures
        canonical::first_set(bits, p, end) is None <==> forall|q: int|
            p <= q < end ==> #[trigger] bitstream::bit(bits, q) == 0,
        canonical::first_set(bits, p, end) matches Some(f) ==> {
            &&& p <= f < end
            &&& bitstream::bit(bits, f as int) == 1
            &&& forall|q: int| p <= q < f ==> #[trigger] bitstream::bit(bits, q) == 0
        },
    decreases end - p,
{
    if p < end {
        if bitstream::bit(bits, p as int) != 1 {
            lemma_first_set_found(bits, p + 1, end);
        }
    }
}

/// A bit of the data after the codes that end at `p`, in the word in which they
/// end.
pub open spec fn left_over(data: Seq<u8>, p: int, q: int) -> bool {
    p <= q < 32 * ((p + 31) / 32) && q < 8 * data.len()
}

/// Strict decoding gives what plain decoding gives, unless a bit is set between
/// the end of the codes and the end of the word in which they end; the first
/// such bit is named.
pub proof fn law_strict_slice(
    d: Seq<u8>,
    data: Seq<u8>,
    n: nat,
    plane: usize,
    slice: usize,
    q: int,
)
    requires
        canonical::shape(d) == Ok::<Shape, Error>(Shape::Coded),
    ensures
        ({
            let plain = canonical::decode_outcome(d, data, n);
            let strict = canonical::strict_outcome(d, data, n, plane, slice);
            let bits = bitstream::stream_bits(data);
            let p = canonical::encoded_bits(d, plain->Ok_0).len() as int;
            &&& plain is Err ==> strict == plain
            &&& plain is Ok && strict is Ok ==> strict == plain
            &&& plain is Ok && left_over(data, p, q) && bits[q] ==> strict is Err
            &&& plain is Ok && strict is Err ==> exists|f: int|
                {
                    &&& #[trigger] left_over(data, p, f)
                    &&& bits[f]
                    &&& forall|g: int| p <= g < f ==> !#[trigger] bits[g]
                    &&& strict == Err::<Seq<u8>, Error>(
                        Error::NonZeroPadding { plane, slice, bit_position: f as usize },
                    )
                }
        }),
{
    let plain = canonical::decode_outcome(d, data, n);
    if plain is Ok {
        code_laws::law_decoded_slice(d, data, n);
        let bits = bitstream::stream_bits(data);
        let p = canonical::end_position(d, data, n);
        let end = canonical::padding_end(data, p);
        lemma_first_set_found(bits, p, end);
        if left_over(data, p as int, q) && bits[q] {
            assert(bitstream::bit(bits, q) == 1);
        }
        if canonical::first_set(bits, p, end) is Some {
            let f = canonical::first_set(bits, p, end)->0 as int;
            assert(left_over(data, p as int, f));
            assert forall|g: int| p <= g < f implies !#[trigger] bits[g] by {
                assert(bitstream::bit(bits, g) == 0);
            }
        }
    }
}

/// Strict decoding of a plane with one symbol gives what plain decoding gives,
/// and so does a descriptor that describes no code.
pub proof fn law_strict_single(d: Seq<u8>, data: Seq<u8>, n: nat, plane: usize, slice: usize)
    requires
        canonical::shape(d) != Ok::<Shape, Error>(Shape::Coded),
    ensures
        canonical::strict_outcome(d, data, n, plane, slice) == canonical::decode_outcome(
            d,
            data,
            n,
        ),
        canonical::shape(d) matches Err(e) ==> canonical::decode_outcome(d, data, n) == Err::<
            Seq<u8>,
            Error,
        >(e),
{
}

proof fn lemma_covers(d: Seq<u8>, s: int, key: int)
    requires
        canonical::complete(d),
        0 <= key < 4096,
        0 <= s < 256,
        1 <= d[s] <= 12,
    ensures
        huffman::covers(d, s, key) <==> forall|j: int|
            0 <= j < d[s] ==> (key / pow2((11 - j) as nat) as int % 2 == 1)
                == #[trigger] canonical::symbol_bits(d, s)[j],
{
    let k = key as nat;
    let bits = bitstream::code_bits(k, 12);
    let l = d[s] as nat;
    lemma2_to64();
    bitstream::lemma_value_of_digits(bits, 0, k, 12);
    lemma_small_mod(k, pow2(12));
    bitstream::lemma_value_prefix(bits, 0, l, (12 - l) as nat);
    assert(huffman::covers(d, s, key) == canonical::matches_at(d, bits, 0, s));
    code_laws::law_matches(d, bits, 0, s);
    let cb = canonical::symbol_bits(d, s);
    assert forall|j: int| 0 <= j < l implies #[trigger] bits[j] == (key / pow2(
        (11 - j) as nat,
    ) as int % 2 == 1) by {}
    if forall|j: int|
        0 <= j < d[s] ==> (key / pow2((11 - j) as nat) as int % 2 == 1) == #[trigger] cb[j] {
        assert forall|j: int| 0 <= j < d[s] implies (0 + j < bits.len() && bits[0 + j])
            == #[trigger] cb[j] by {}
    }
    if canonical::matches_at(d, bits, 0, s) {
        assert forall|j: int| 0 <= j < d[s] implies (key / pow2((11 - j) as nat) as int % 2 == 1)
            == #[trigger] cb[j] by {
            assert((0 + j < bits.len() && bits[0 + j]) == cb[j]);
        }
    }
}

/// A slot of the lookup table, numbered by twelve bits, names the symbol whose
/// code these bits begin with, and the length of the code; it has the length 255
/// if no code of up to twelve bits begins them.
pub proof fn law_slot(d: Seq<u8>, key: int, e: LutEntry, s: int)
    requires
        canonical::shape(d) == Ok::<Shape, Error>(Shape::Coded),
        0 <= key < 4096,
        huffman::slot_ok(d, key, e),
        0 <= s < 256,
        1 <= d[s] <= 12,
        forall|j: int|
            0 <= j < d[s] ==> (key / pow2((11 - j) as nat) as int % 2 == 1)
                == #[trigger] canonical::symbol_bits(d, s)[j],
    ensures
        e.sym == s,
        e.len == d[s],
{
    lemma_covers(d, s, key);
    let t = e.sym as int;
    if t != s {
        lemma2_to64();
        let bits = bitstream::code_bits(key as nat, 12);
        bitstream::lemma_value_of_digits(bits, 0, key as nat, 12);
        lemma_small_mod(key as nat, pow2(12));
        bitstream::lemma_value_prefix(bits, 0, d[s] as nat, (12 - d[s]) as nat);
        bitstream::lemma_value_prefix(bits, 0, d[t] as nat, (12 - d[t]) as nat);
        canonical::lemma_match_unique(d, bits, 0, s, t);
    }
}

/// A slot whose length is not 255 names a symbol of that length, from 1 to 12,
/// whose code the twelve bits begin with.
pub proof fn law_filled_slot(d: Seq<u8>, key: int, e: LutEntry, j: int)
    requires
        canonical::shape(d) == Ok::<Shape, Error>(Shape::Coded),
        0 <= key < 4096,
        huffman::slot_ok(d, key, e),
        e.len != 255,
    ensures
        1 <= e.len <= 12,
        d[e.sym as int] == e.len,
        0 <= j < e.len ==> canonical::symbol_bits(d, e.sym as int)[j] == (key / pow2(
            (11 - j) as nat,
        ) as int % 2 == 1),
{
    lemma_covers(d, e.sym as int, key);
}

/// Packing the residuals of a slice: in a plane with codes the bits of their
/// codes and fewer than 32 zeros, or an error if a residual has no code; no
/// bytes in any other plane.
pub proof fn law_pack(d: Seq<u8>, res: Seq<u8>, i: int)
    requires
        d.len() == 256,
    ensures
        canonical::shape(d) != Ok::<Shape, Error>(Shape::Coded) ==> encoder::pack_outcome(d, res)
            == Ok::<Seq<u8>, Error>(Seq::empty()),
        canonical::shape(d) == Ok::<Shape, Error>(Shape::Coded) && 0 <= i < res.len()
            && d[res[i] as int] == 255 ==> encoder::pack_outcome(d, res) == Err::<Seq<u8>, Error>(
            Error::HuffmanDecodeFailure { bit_position: 0 },
        ),
        canonical::shape(d) == Ok::<Shape, Error>(Shape::Coded) && (forall|k: int|
            0 <= k < res.len() ==> d[#[trigger] res[k] as int] != 255) ==> {
            let codes = canonical::encoded_bits(d, res);
            &&& encoder::pack_outcome(d, res) matches Ok(data)
            &&& data.len() % 4 == 0
            &&& codes.len() <= 8 * data.len() < codes.len() + 32
            &&& 0 <= i < 8 * data.len() ==> bitstream::stream_bits(data)[i] == (i < codes.len()
                && codes[i])
        },
{
    if canonical::shape(d) == Ok::<Shape, Error>(Shape::Coded) {
        assert forall|s: int| 0 <= s < 256 implies #[trigger] d[s] != 0 by {
            if d[s] == 0 {
                code_laws::law_count(d, 0);
                lemma_counted(d, s, 256);
            }
        }
        if forall|k: int| 0 <= k < res.len() ==> d[#[trigger] res[k] as int] != 255 {
            assert forall|k: int| 0 <= k < res.len() implies canonical::is_active(
                d[#[trigger] res[k] as int],
            ) by {
                assert(d[res[k] as int] != 0);
            }
            assert(canonical::all_coded(d, res));
            code_laws::law_packed_bits(canonical::encoded_bits(d, res), i);
        }
        if 0 <= i < res.len() && d[res[i] as int] == 255 {
            assert(!canonical::is_active(d[res[i] as int]));
            assert(!canonical::all_coded(d, res));
        }
    }
}

proof fn lemma_counted(d: Seq<u8>, s: int, n: nat)
    requires
        0 <= s < n,
    ensures
        canonical::tally(d, d[s] as int, n) > 0,
    decreases n,
{
    if s < n - 1 {
        lemma_counted(d, s, (n - 1) as nat);
    }
}

proof fn lemma_table(blobs: Seq<Seq<u8>>, k: nat, s: int)
    requires
        k <= blobs.len(),
    ensures
        encoder::offset_table(blobs, k).len() == 4 * k,
        0 <= s < k ==> encoder::offset_table(blobs, k).subrange(4 * s, 4 * s + 4)
            == bytes::le_bytes(
            (bytes::concat(blobs.take(s + 1)).len() % 0x1_0000_0000) as u32,
        ),
    decreases k,
{
    if k > 0 {
        lemma_table(blobs, (k - 1) as nat, s);
        let t = encoder::offset_table(blobs, k);
        let init = encoder::offset_table(blobs, (k - 1) as nat);
        if 0 <= s < k - 1 {
            assert(t.subrange(4 * s, 4 * s + 4) =~= init.subrange(4 * s, 4 * s + 4));
        } else if s == k - 1 {
            assert(t.subrange(4 * s, 4 * s + 4) =~= bytes::le_bytes(
                (bytes::concat(blobs.take(s + 1)).len() % 0x1_0000_0000) as u32,
            ));
        }
    }
}

/// The little-endian word at byte offset `a` of `t`.
proof fn lemma_word_of_part(t: Seq<u8>, a: int, v: u32)
    requires
        0 <= a,
        a + 4 <= t.len(),
        t.subrange(a, a + 4) == bytes::le_bytes(v),
    ensures
        t[a] + 256 * t[a + 1] + 65536 * t[a + 2] + 16777216 * t[a + 3] == v,
{
    let part = t.subrange(a, a + 4);
    bytes::lemma_le_bytes_read_back(v);
    assert(part[0] == t[a]);
    assert(part[1] == t[a + 1]);
    assert(part[2] == t[a + 2]);
    assert(part[3] == t[a + 3]);
}

proof fn lemma_next_end(a: int, n: int)
    requires
        0 <= a,
        0 <= n,
    ensures
        (a + n) % 0x1_0000_0000 == (a % 0x1_0000_0000 + n) % 0x1_0000_0000,
{
    lemma_add_mod_noop_right(n, a, 0x1_0000_0000);
}

proof fn lemma_entry(blobs: Seq<Seq<u8>>, t: Seq<u8>, s: int)
    requires
        0 <= s < blobs.len(),
        t == encoder::offset_table(blobs, blobs.len()),
    ensures
        t.len() == 4 * blobs.len(),
        t[4 * s] + 256 * t[4 * s + 1] + 65536 * t[4 * s + 2] + 16777216 * t[4 * s + 3]
            == bytes::concat(blobs.take(s + 1)).len() as int % 0x1_0000_0000,
{
    lemma_table(blobs, blobs.len(), s);
    let b = bytes::concat(blobs.take(s + 1)).len();
    lemma_word_of_part(t, 4 * s, (b % 0x1_0000_0000) as u32);
}

/// The table of end offsets has a little-endian word for each slice. The first
/// is the length of the first slice, and each other one exceeds the one before
/// it by the length of its slice, modulo 2^32.
pub proof fn law_offset_table(blobs: Seq<Seq<u8>>, s: int)
    requires
        0 <= s < blobs.len(),
    ensures
        ({
            let t = encoder::offset_table(blobs, blobs.len());
            let a = 4 * s;
            let word = t[a] + 256 * t[a + 1] + 65536 * t[a + 2] + 16777216 * t[a + 3];
            let last = if s == 0 {
                0
            } else {
                t[a - 4] + 256 * t[a - 3] + 65536 * t[a - 2] + 16777216 * t[a - 1]
            };
            &&& t.len() == 4 * blobs.len()
            &&& word == (last + blobs[s].len()) % 0x1_0000_0000
        }),
{
    let t = encoder::offset_table(blobs, blobs.len());
    lemma_entry(blobs, t, s);
    bytes::lemma_concat_part(blobs, s);
    lemma_next_end(bytes::concat(blobs.take(s)).len() as int, blobs[s].len() as int);
    if s > 0 {
        lemma_entry(blobs, t, s - 1);
    } else {
        assert(bytes::concat(blobs.take(0)).len() == 0);
    }
}

/// The bytes of a plane: its descriptor, the table of end offsets and the data
/// of its slices, in this order.
pub proof fn law_plane_bytes(d: Seq<u8>, blobs: Seq<Seq<u8>>, s: int)
    requires
        d.len() == 256,
        0 <= s < blobs.len(),
    ensures
        ({
            let all = encoder::plane_blob(d, blobs);
            let n = blobs.len() as int;
            let a = 256 + 4 * n + bytes::concat(blobs.take(s)).len();
            &&& all.take(256) == d
            &&& all.subrange(256, 256 + 4 * n) == encoder::offset_table(blobs, n as nat)
            &&& all.subrange(a, a + blobs[s].len()) == blobs[s]
            &&& all.len() == 256 + 4 * n + bytes::concat(blobs).len()
        }),
{
    let all = encoder::plane_blob(d, blobs);
    let n = blobs.len() as int;
    let x = bytes::concat(blobs.take(s)).len() as int;
    let a = 256 + 4 * n + x;
    lemma_table(blobs, n as nat, s);
    bytes::lemma_concat_part(blobs, s);
    assert(all.take(256) =~= d);
    assert(all.subrange(256, 256 + 4 * n) =~= encoder::offset_table(blobs, n as nat));
    assert(all.subrange(a, a + blobs[s].len()) =~= bytes::concat(blobs).subrange(
        x,
        x + blobs[s].len(),
    ));
}

/// Packed slices are collected in order; the first error among them stays.
pub proof fn law_collected(results: Seq<Result<Seq<u8>, Error>>, k: nat)
    ensures
        encoder::collected(results, 0) == Ok::<Seq<Seq<u8>>, Error>(Seq::empty()),
        encoder::collected(results, k) matches Err(e) ==> encoder::collected(results, k + 1) == Err::<
            Seq<Seq<u8>>,
            Error,
        >(e),
        encoder::collected(results, k) matches Ok(list) ==> match results[k as int] {
            Err(e) => encoder::collected(results, k + 1) == Err::<Seq<Seq<u8>>, Error>(e),
            Ok(b) => encoder::collected(results, k + 1) == Ok::<Seq<Seq<u8>>, Error>(list.push(b)),
        },
{
}

} // verus!
