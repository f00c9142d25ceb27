//! Slice-data bit streams: 32-bit little-endian words, most significant bit
//! first inside each word, zero-padded to a whole number of words.

use crate::bytes;
use vstd::arithmetic::div_mod::*;
use vstd::arithmetic::mul::*;
use vstd::arithmetic::power2::*;
use vstd::prelude::*;

verus! {

/// Bit `p` of a stream as a number; zero past the end.
pub open spec fn bit(bits: Seq<bool>, p: int) -> int {
    if 0 <= p < bits.len() && bits[p] {
        1
    } else {
        0
    }
}

/// The `n` bits from position `pos` on, read as a binary number whose first
/// bit is the most significant one.
pub open spec fn value(bits: Seq<bool>, pos: int, n: nat) -> nat
    decreases n,
{
    if n == 0 {
        0
    } else {
        (2 * value(bits, pos, (n - 1) as nat) + bit(bits, pos + n - 1)) as nat
    }
}

/// Digit `j` of the `n`-digit binary number `v`, the most significant digit
/// being digit zero.
pub open spec fn digit(v: nat, n: nat, j: int) -> int {
    (v / pow2((n - 1 - j) as nat) % 2) as int
}

/// The low `n` bits of `v`, most significant bit first.
pub open spec fn code_bits(v: nat, n: nat) -> Seq<bool> {
    Seq::new(n, |j: int| digit(v, n, j) == 1)
}

/// Byte `i` of `data`; zero past the end.
pub open spec fn byte_or_zero(data: Seq<u8>, i: int) -> int {
    if 0 <= i < data.len() {
        data[i] as int
    } else {
        0
    }
}

/// Word `k` of `data`, little-endian, missing bytes being zero.
pub open spec fn word(data: Seq<u8>, k: int) -> nat {
    (byte_or_zero(data, 4 * k) + 0x100 * byte_or_zero(data, 4 * k + 1) + 0x1_0000 * byte_or_zero(
        data,
        4 * k + 2,
    ) + 0x100_0000 * byte_or_zero(data, 4 * k + 3)) as nat
}

/// Number of words needed for `n` bits.
pub open spec fn word_count(n: nat) -> nat {
    (n + 31) / 32
}

/// The bits that a reader of `data` sees.
pub open spec fn stream_bits(data: Seq<u8>) -> Seq<bool> {
    Seq::new(32 * ((data.len() + 3) / 4), |p: int| digit(word(data, p / 32), 32, p % 32) == 1)
}

/// The bytes that carry `bits`: as many words as needed, unused bits zero.
pub open spec fn packed(bits: Seq<bool>) -> Seq<u8> {
    Seq::new(
        4 * word_count(bits.len()),
        |i: int| bytes::le_bytes(value(bits, 32 * (i / 4), 32) as u32)[i % 4],
    )
}

/// A value of `n` bits is below 2^n.
pub proof fn lemma_value_bound(bits: Seq<bool>, pos: int, n: nat)
    ensures
        value(bits, pos, n) < pow2(n),
    decreases n,
{
    if n == 0 {
        lemma2_to64();
    } else {
        lemma_value_bound(bits, pos, (n - 1) as nat);
        lemma_pow2_unfold(n);
    }
}

/// Reading `m + k` bits is reading `m` bits and then `k` more.
pub proof fn lemma_value_split(bits: Seq<bool>, pos: int, m: nat, k: nat)
    ensures
        value(bits, pos, m + k) == value(bits, pos, m) * pow2(k) + value(bits, pos + m, k),
    decreases k,
{
    if k == 0 {
        lemma2_to64();
    } else {
        lemma_value_split(bits, pos, m, (k - 1) as nat);
        lemma_pow2_unfold(k);
        let a = value(bits, pos, m) as int;
        let q = pow2((k - 1) as nat) as int;
        assert((m + k - 1) as nat == m + (k - 1) as nat);
        assert(2 * (a * q) == a * (2 * q)) by (nonlinear_arith);
    }
}

/// The leading `m` bits of an `m + k`-bit value.
pub proof fn lemma_value_prefix(bits: Seq<bool>, pos: int, m: nat, k: nat)
    ensures
        value(bits, pos, m) == value(bits, pos, m + k) / pow2(k),
        value(bits, pos + m, k) == value(bits, pos, m + k) % pow2(k),
{
    lemma_value_split(bits, pos, m, k);
    lemma_value_bound(bits, pos + m, k);
    lemma_fundamental_div_mod_converse(
        value(bits, pos, m + k) as int,
        pow2(k) as int,
        value(bits, pos, m) as int,
        value(bits, pos + m, k) as int,
    );
}

/// The value of a run of bits that are the digits of `v`.
pub proof fn lemma_value_of_digits(bits: Seq<bool>, pos: int, v: nat, n: nat)
    requires
        forall|j: int| 0 <= j < n ==> #[trigger] bit(bits, pos + j) == digit(v, n, j),
    ensures
        value(bits, pos, n) == v % pow2(n),
    decreases n,
{
    if n == 0 {
        lemma2_to64();
    } else {
        let m = (n - 1) as nat;
        assert forall|j: int| 0 <= j < m implies #[trigger] bit(bits, pos + j) == digit(
            v / 2,
            m,
            j,
        ) by {
            assert(bit(bits, pos + j) == digit(v, n, j));
            lemma_pow2_unfold((n - 1 - j) as nat);
            lemma_pow2_pos((m - 1 - j) as nat);
            lemma_div_denominator(v as int, 2, pow2((m - 1 - j) as nat) as int);
        }
        lemma_value_of_digits(bits, pos, v / 2, m);
        assert(bit(bits, pos + m) == digit(v, n, m as int));
        lemma2_to64();
        lemma_div_basics_2(v as int);
        assert(digit(v, n, m as int) == v % 2);
        lemma_pow2_unfold(n);
        lemma_pow2_pos(m);
        lemma_mod_breakdown(v as int, 2, pow2(m) as int);
    }
}

/// Equal values of equally many bits come from equal bits.
pub proof fn lemma_value_injective(a: Seq<bool>, pa: int, b: Seq<bool>, pb: int, n: nat, j: int)
    requires
        value(a, pa, n) == value(b, pb, n),
        0 <= j < n,
    ensures
        bit(a, pa + j) == bit(b, pb + j),
    decreases n,
{
    if j < n - 1 {
        lemma_value_injective(a, pa, b, pb, (n - 1) as nat, j);
    }
}

/// Equal bits have equal values.
pub proof fn lemma_value_congruent(a: Seq<bool>, pa: int, b: Seq<bool>, pb: int, n: nat)
    requires
        forall|j: int| 0 <= j < n ==> #[trigger] bit(a, pa + j) == bit(b, pb + j),
    ensures
        value(a, pa, n) == value(b, pb, n),
    decreases n,
{
    if n > 0 {
        lemma_value_congruent(a, pa, b, pb, (n - 1) as nat);
        assert(bit(a, pa + (n - 1)) == bit(b, pb + (n - 1)));
    }
}

/// The value of a code written at `pos` is the code.
pub proof fn lemma_value_of_code(bits: Seq<bool>, pos: int, v: nat, n: nat)
    requires
        0 <= pos,
        pos + n <= bits.len(),
        bits.subrange(pos, pos + n) == code_bits(v, n),
        v < pow2(n),
    ensures
        value(bits, pos, n) == v,
{
    assert forall|j: int| 0 <= j < n implies #[trigger] bit(bits, pos + j) == digit(v, n, j) by {
        assert(bits.subrange(pos, pos + n)[j] == bits[pos + j]);
    }
    lemma_value_of_digits(bits, pos, v, n);
    lemma_small_mod(v, pow2(n));
}

/// The code bits of the value read at `pos` are the bits there.
pub proof fn lemma_code_of_value(bits: Seq<bool>, pos: int, n: nat)
    requires
        0 <= pos,
        pos + n <= bits.len(),
    ensures
        code_bits(value(bits, pos, n), n) == bits.subrange(pos, pos + n),
{
    let v = value(bits, pos, n);
    let cb = code_bits(v, n);
    lemma_value_bound(bits, pos, n);
    lemma_value_of_digits(cb, 0, v, n);
    lemma_small_mod(v, pow2(n));
    assert forall|j: int| 0 <= j < n implies cb[j] == bits.subrange(pos, pos + n)[j] by {
        lemma_value_injective(cb, 0, bits, pos, n, j);
    }
    assert(cb =~= bits.subrange(pos, pos + n));
}

/// A word is below 2^32.
pub proof fn lemma_word_bound(data: Seq<u8>, k: int)
    ensures
        word(data, k) <= u32::MAX,
{
}

/// The 32 stream bits of word `k` have the value of that word.
pub proof fn lemma_stream_word(data: Seq<u8>, k: int)
    requires
        0 <= k,
    ensures
        value(stream_bits(data), 32 * k, 32) == word(data, k),
{
    let s = stream_bits(data);
    let w = word(data, k);
    assert forall|j: int| 0 <= j < 32 implies #[trigger] bit(s, 32 * k + j) == digit(w, 32, j) by {
        assert((32 * k + j) / 32 == k && (32 * k + j) % 32 == j);
        if 32 * k + j >= s.len() {
            assert(4 * k >= data.len());
            assert(w == 0);
            lemma_pow2_pos((32 - 1 - j) as nat);
            lemma_div_of0(pow2((32 - 1 - j) as nat) as int);
        }
    }
    lemma_value_of_digits(s, 32 * k, w, 32);
    lemma2_to64();
    lemma_word_bound(data, k);
    lemma_small_mod(w, pow2(32));
}

/// 2^n, for exponents of up to 63.
pub fn power_of_two(n: u32) -> (p: u64)
    requires
        n < 64,
    ensures
        p == pow2(n as nat),
        p > 0,
{
    proof {
        vstd::bits::lemma_u64_pow2_no_overflow(n as nat);
        vstd::bits::lemma_u64_shl_is_mul(1, n as u64);
    }
    1u64 << n
}

/// Slice-data bit reader.
pub struct BitReader<'a> {
    data: &'a [u8],
    pos: usize,
    total_bits: usize,
}

impl<'a> BitReader<'a> {
    /// The reader's length is that of its data.
    pub closed spec fn wf(&self) -> bool {
        self.total_bits == 8 * self.data@.len()
    }

    /// The bytes that are read.
    pub closed spec fn source(&self) -> Seq<u8> {
        self.data@
    }

    /// The position of the next bit to read.
    pub closed spec fn cursor(&self) -> nat {
        self.pos as nat
    }

    /// A reader at the start of `data`.
    pub fn new(data: &'a [u8]) -> (r: Self)
        requires
            8 * data@.len() <= usize::MAX,
        ensures
            r.wf(),
            r.source() == data@,
            r.cursor() == 0,
    {
        Self { data, pos: 0, total_bits: data.len() * 8 }
    }

    /// The number of bits consumed so far.
    pub fn position(&self) -> (p: usize)
        ensures
            p == self.cursor(),
    {
        self.pos
    }

    /// True if `n` more bits are left.
    pub fn has_bits(&self, n: usize) -> (b: bool)
        requires
            self.wf(),
        ensures
            b == (self.cursor() + n <= 8 * self.source().len()),
    {
        self.pos <= self.total_bits && n <= self.total_bits - self.pos
    }

    /// The next `n` bits as a number, most significant bit first. Bits past
    /// the end of the data read as zero.
    pub fn peek_bits(&self, n: usize) -> (v: u32)
        requires
            1 <= n <= 32,
        ensures
            v == value(stream_bits(self.source()), self.cursor() as int, n as nat),
    {
        let word_idx: usize = self.pos / 32;
        let bit_in_word: usize = self.pos % 32;
        let byte_off: usize = word_idx * 4;
        let w0: u32 = self.load_word(byte_off);
        let w1: u32 = self.load_word(byte_off + 4);
        let combined: u64 = (w0 as u64) * 0x1_0000_0000 + (w1 as u64);
        let tail: u32 = (64 - bit_in_word - n) as u32;
        proof {
            let s = stream_bits(self.data@);
            let k = word_idx as int;
            let b = bit_in_word as nat;
            lemma2_to64();
            lemma_stream_word(self.data@, k);
            lemma_stream_word(self.data@, k + 1);
            lemma_value_split(s, 32 * k, 32, 32);
            assert(combined == value(s, 32 * k, 64));
            lemma_value_prefix(s, 32 * k, b + n as nat, tail as nat);
            lemma_value_prefix(s, 32 * k, b, n as nat);
            vstd::bits::lemma_u64_shr_is_div(combined, tail as u64);
            lemma_value_bound(s, 32 * k + b, n as nat);
            if n < 32 {
                lemma_pow2_strictly_increases(n as nat, 32);
            }
        }
        ((combined >> tail) % power_of_two(n as u32)) as u32
    }

    /// The little-endian word at `byte_off`, missing bytes being zero.
    fn load_word(&self, byte_off: usize) -> (w: u32)
        requires
            byte_off % 4 == 0,
            byte_off <= usize::MAX - 4,
        ensures
            w == word(self.source(), byte_off as int / 4),
    {
        let n: usize = self.data.len();
        if n >= 4 && byte_off <= n - 4 {
            bytes::read_u32_le(self.data, byte_off)
        } else {
            let b0: u32 = if byte_off < n { self.data[byte_off] as u32 } else { 0 };
            let b1: u32 = if byte_off + 1 < n { self.data[byte_off + 1] as u32 } else { 0 };
            let b2: u32 = if byte_off + 2 < n { self.data[byte_off + 2] as u32 } else { 0 };
            let b3: u32 = if byte_off + 3 < n { self.data[byte_off + 3] as u32 } else { 0 };
            b0 + 0x100 * b1 + 0x1_0000 * b2 + 0x100_0000 * b3
        }
    }

    /// Moves the position forward by `n` bits.
    pub fn consume_bits(&mut self, n: usize)
        requires
            old(self).cursor() + n <= usize::MAX,
        ensures
            final(self).cursor() == old(self).cursor() + n,
            final(self).source() == old(self).source(),
            old(self).wf() ==> final(self).wf(),
    {
        self.pos = self.pos + n;
    }
}

/// Two codes one after the other are one longer code.
pub proof fn lemma_code_append(a: nat, m: nat, b: nat, n: nat)
    requires
        a < pow2(m),
    ensures
        code_bits(a, m) + code_bits(b, n) == code_bits(a * pow2(n) + b % pow2(n), m + n),
{
    let s = code_bits(a, m) + code_bits(b, n);
    lemma_value_split(s, 0, m, n);
    lemma_value_of_digits(s, 0, a, m);
    lemma_value_of_digits(s, m as int, b, n);
    lemma_small_mod(a, pow2(m));
    lemma_code_of_value(s, 0, m + n);
    assert(s.subrange(0, (m + n) as int) =~= s);
}

/// Appending a word to whole words appends its bits to the stream.
proof fn lemma_stream_push_word(data: Seq<u8>, w: u32)
    requires
        data.len() % 4 == 0,
    ensures
        stream_bits(data + bytes::le_bytes(w)) == stream_bits(data) + code_bits(w as nat, 32),
{
    let more = data + bytes::le_bytes(w);
    let n = data.len() / 4;
    bytes::lemma_le_bytes_read_back(w);
    assert(word(more, n as int) == w);
    let joined = stream_bits(data) + code_bits(w as nat, 32);
    assert forall|p: int| 0 <= p < 32 * n + 32 implies stream_bits(more)[p] == joined[p] by {
        if p < 32 * n {
            assert(word(more, p / 32) == word(data, p / 32));
        } else {
            assert(p / 32 == n && p % 32 == p - 32 * n);
        }
    }
    assert(stream_bits(more) =~= joined);
}

/// Whole words that have the values of a stream's bits are its packed bytes.
proof fn lemma_packed_unique(data: Seq<u8>, bits: Seq<bool>)
    requires
        data.len() == 4 * word_count(bits.len()),
        forall|k: int|
            0 <= k < word_count(bits.len()) ==> #[trigger] word(data, k) == value(
                bits,
                32 * k,
                32,
            ),
    ensures
        data == packed(bits),
{
    assert forall|i: int| 0 <= i < data.len() implies data[i] == packed(bits)[i] by {
        let k = i / 4;
        assert(word(data, k) == value(bits, 32 * k, 32));
        assert(word(data, k) == bytes::le32(data, 4 * k));
        bytes::lemma_le32_write_back(data, 4 * k);
        assert(data.subrange(4 * k, 4 * k + 4)[i % 4] == data[i]);
    }
    assert(data =~= packed(bits));
}

/// Reading back packed bits gives the bits, followed by zero padding up to
/// the end of the last word.
pub proof fn law_stream_of_packed(bits: Seq<bool>)
    ensures
        packed(bits).len() == 4 * word_count(bits.len()),
        stream_bits(packed(bits)).len() == 32 * word_count(bits.len()),
        bits.len() <= stream_bits(packed(bits)).len() < bits.len() + 32,
        forall|p: int| #[trigger] bit(stream_bits(packed(bits)), p) == bit(bits, p),
{
    let data = packed(bits);
    let s = stream_bits(data);
    assert forall|p: int| #[trigger] bit(s, p) == bit(bits, p) by {
        if 0 <= p < s.len() {
            let k = p / 32;
            let v = value(bits, 32 * k, 32);
            lemma_value_bound(bits, 32 * k, 32);
            lemma2_to64();
            bytes::lemma_le_bytes_read_back(v as u32);
            assert((4 * k) / 4 == k && (4 * k) % 4 == 0);
            assert((4 * k + 1) / 4 == k && (4 * k + 1) % 4 == 1);
            assert((4 * k + 2) / 4 == k && (4 * k + 2) % 4 == 2);
            assert((4 * k + 3) / 4 == k && (4 * k + 3) % 4 == 3);
            assert(word(data, k) == v);
            lemma_stream_word(data, k);
            lemma_value_injective(s, 32 * k, bits, 32 * k, 32, p % 32);
        }
    }
}

/// Packing the bits of whole words gives the words back.
pub proof fn law_packed_of_stream(data: Seq<u8>)
    requires
        data.len() % 4 == 0,
    ensures
        packed(stream_bits(data)) == data,
{
    let bits = stream_bits(data);
    assert forall|k: int| 0 <= k < word_count(bits.len()) implies #[trigger] word(data, k)
        == value(bits, 32 * k, 32) by {
        lemma_stream_word(data, k);
    }
    lemma_packed_unique(data, bits);
}

/// The bits after the full words, with zeros behind them, make one word.
proof fn lemma_last_word(full: Seq<u8>, acc: nat, p: nat)
    requires
        full.len() % 4 == 0,
        0 < p < 32,
        acc < pow2(p),
    ensures
        value(
            stream_bits(full) + code_bits(acc, p),
            32 * (full.len() / 4) as int,
            32,
        ) == acc * pow2((32 - p) as nat),
{
    let bits = stream_bits(full) + code_bits(acc, p);
    let start = 32 * (full.len() / 4) as int;
    let rest = (32 - p) as nat;
    lemma_value_split(bits, start, p, rest);
    lemma_value_of_digits(bits, start, acc, p);
    lemma_small_mod(acc, pow2(p));
    assert forall|j: int| 0 <= j < rest implies #[trigger] bit(bits, start + p + j) == digit(
        0,
        rest,
        j,
    ) by {
        lemma_pow2_pos((rest - 1 - j) as nat);
        lemma_div_of0(pow2((rest - 1 - j) as nat) as int);
    }
    lemma_value_of_digits(bits, start + p, 0, rest);
    lemma_pow2_pos(rest);
    lemma_small_mod(0, pow2(rest));
}

/// What is written after the full words leaves their values as they are.
proof fn lemma_full_word(full: Seq<u8>, acc: nat, p: nat, k: int)
    requires
        full.len() % 4 == 0,
        0 <= k < full.len() / 4,
    ensures
        value(stream_bits(full) + code_bits(acc, p), 32 * k, 32) == word(full, k),
{
    let bits = stream_bits(full) + code_bits(acc, p);
    lemma_stream_word(full, k);
    assert forall|j: int| 0 <= j < 32 implies #[trigger] bit(bits, 32 * k + j) == bit(
        stream_bits(full),
        32 * k + j,
    ) by {
        assert(32 * k + j < stream_bits(full).len());
    }
    lemma_value_congruent(bits, 32 * k, stream_bits(full), 32 * k, 32);
}

/// Slice-data bit writer, the mirror of [`BitReader`].
pub struct BitWriter {
    /// The bits that do not fill a word yet, as a number.
    acc: u64,
    /// How many bits those are.
    pending: u32,
    /// The words that are full.
    out: Vec<u8>,
}

impl BitWriter {
    /// Fewer than a word's bits are pending and only whole words are out.
    pub closed spec fn wf(&self) -> bool {
        &&& self.pending < 32
        &&& self.acc < pow2(self.pending as nat)
        &&& self.out@.len() % 4 == 0
    }

    /// The bits written so far.
    pub closed spec fn written(&self) -> Seq<bool> {
        stream_bits(self.out@) + code_bits(self.acc as nat, self.pending as nat)
    }

    /// A writer of an empty stream.
    pub fn new() -> (w: Self)
        ensures
            w.wf(),
            w.written() == Seq::<bool>::empty(),
    {
        proof {
            lemma2_to64();
        }
        let w = Self { acc: 0, pending: 0, out: Vec::new() };
        assert(w.written() =~= Seq::<bool>::empty());
        w
    }

    /// Appends the low `length` bits of `code`, most significant bit first.
    pub fn write_code(&mut self, code: u32, length: u8)
        requires
            old(self).wf(),
            1 <= length <= 32,
        ensures
            final(self).wf(),
            final(self).written() == old(self).written() + code_bits(code as nat, length as nat),
    {
        let scale: u64 = power_of_two(length as u32);
        let total_bits: u32 = self.pending + length as u32;
        let ghost p = self.pending as nat;
        let ghost n = length as nat;
        proof {
            vstd::bits::lemma_u64_pow2_no_overflow(p + n);
            lemma_pow2_adds(p, n);
            let acc = self.acc as int;
            let top = pow2(p) as int;
            let sc = scale as int;
            assert(acc * sc + sc <= top * sc) by (nonlinear_arith)
                requires
                    acc + 1 <= top,
                    0 <= sc,
            ;
            lemma_mod_bound(code as int, sc);
            assert(0 <= acc * sc) by (nonlinear_arith)
                requires
                    0 <= acc,
                    0 <= sc,
            ;
        }
        let total: u64 = self.acc * scale + (code as u64) % scale;
        proof {
            lemma_code_append(self.acc as nat, p, code as nat, n);
            assert(old(self).written() + code_bits(code as nat, n) =~= stream_bits(self.out@)
                + code_bits(total as nat, p + n));
        }
        if total_bits < 32 {
            self.acc = total;
            self.pending = total_bits;
        } else {
            let rest: u32 = total_bits - 32;
            let low_scale: u64 = power_of_two(rest);
            let high: u64 = total >> rest;
            let low: u64 = total % low_scale;
            proof {
                let k = rest as nat;
                vstd::bits::lemma_u64_shr_is_div(total, rest as u64);
                lemma_fundamental_div_mod(total as int, low_scale as int);
                lemma_mod_bound(total as int, low_scale as int);
                lemma_pow2_adds(32, k);
                lemma2_to64();
                lemma_multiply_divide_lt(total as int, low_scale as int, pow2(32) as int);
                lemma_small_mod(low as nat, pow2(k));
                lemma_mul_is_commutative(high as int, low_scale as int);
                lemma_code_append(high as nat, 32, low as nat, k);
                lemma_stream_push_word(self.out@, high as u32);
                assert(stream_bits(self.out@) + code_bits(total as nat, p + n) =~= (stream_bits(
                    self.out@,
                ) + code_bits(high as nat, 32)) + code_bits(low as nat, k));
            }
            bytes::push_u32_le(&mut self.out, high as u32);
            self.acc = low;
            self.pending = rest;
        }
    }

    /// Pads the last word with zeros and returns the bytes.
    pub fn finish(self) -> (bytes: Vec<u8>)
        requires
            self.wf(),
        ensures
            bytes@ == packed(self.written()),
    {
        let mut out: Vec<u8> = self.out;
        let ghost full = out@;
        let ghost bits = self.written();
        let ghost p = self.pending as nat;
        if self.pending > 0 {
            let scale: u64 = power_of_two(32 - self.pending);
            proof {
                lemma_pow2_adds(p, (32 - p) as nat);
                lemma2_to64();
                let acc = self.acc as int;
                let sc = scale as int;
                let top = pow2(p) as int;
                assert(acc * sc + sc <= top * sc) by (nonlinear_arith)
                    requires
                        acc + 1 <= top,
                        0 <= sc,
                ;
            }
            let w: u64 = self.acc * scale;
            bytes::push_u32_le(&mut out, w as u32);
            proof {
                bytes::lemma_le_bytes_read_back(w as u32);
                assert(word(out@, (full.len() / 4) as int) == w);
                lemma_last_word(full, self.acc as nat, p);
            }
        }
        proof {
            assert(out@.len() == 4 * word_count(bits.len()));
            assert forall|k: int| 0 <= k < word_count(bits.len()) implies #[trigger] word(out@, k)
                == value(bits, 32 * k, 32) by {
                if k < full.len() / 4 {
                    assert(word(out@, k) == word(full, k));
                    lemma_full_word(full, self.acc as nat, p, k);
                }
            }
            lemma_packed_unique(out@, bits);
        }
        out
    }
}

impl Default for BitWriter {
    fn default() -> (w: Self)
        ensures
            w.wf(),
            w.written() == Seq::<bool>::empty(),
    {
        Self::new()
    }
}

} // verus!
