//! 32-bit words in byte sequences.

use vstd::prelude::*;

verus! {

/// The little-endian 32-bit word at byte offset `at` of `s`.
pub open spec fn le32(s: Seq<u8>, at: int) -> int {
    s[at] + 0x100 * s[at + 1] + 0x1_0000 * s[at + 2] + 0x100_0000 * s[at + 3]
}

/// The big-endian 32-bit word at byte offset `at` of `s`.
pub open spec fn be32(s: Seq<u8>, at: int) -> int {
    0x100_0000 * s[at] + 0x1_0000 * s[at + 1] + 0x100 * s[at + 2] + s[at + 3]
}

/// The four little-endian bytes of `v`.
pub open spec fn le_bytes(v: u32) -> Seq<u8> {
    seq![
        (v % 0x100) as u8,
        (v / 0x100 % 0x100) as u8,
        (v / 0x1_0000 % 0x100) as u8,
        (v / 0x100_0000) as u8,
    ]
}

/// Writing a word and reading it back gives the word.
pub proof fn lemma_le_bytes_read_back(v: u32)
    ensures
        le_bytes(v).len() == 4,
        le32(le_bytes(v), 0) == v,
{
}

/// Reading a word and writing it back gives the bytes.
pub proof fn lemma_le32_write_back(s: Seq<u8>, at: int)
    requires
        0 <= at,
        at + 4 <= s.len(),
    ensures
        0 <= le32(s, at) <= u32::MAX,
        le_bytes(le32(s, at) as u32) == s.subrange(at, at + 4),
{
    lemma_digits(s[at] as int, s[at + 1] as int, s[at + 2] as int, s[at + 3] as int);
    assert(le_bytes(le32(s, at) as u32) =~= s.subrange(at, at + 4));
}

/// The base-256 digits of a number below 2^32 are recovered by division.
proof fn lemma_digits(a: int, b: int, c: int, d: int)
    requires
        0 <= a < 0x100,
        0 <= b < 0x100,
        0 <= c < 0x100,
        0 <= d < 0x100,
    ensures
        (a + 0x100 * b + 0x1_0000 * c + 0x100_0000 * d) % 0x100 == a,
        (a + 0x100 * b + 0x1_0000 * c + 0x100_0000 * d) / 0x100 % 0x100 == b,
        (a + 0x100 * b + 0x1_0000 * c + 0x100_0000 * d) / 0x1_0000 % 0x100 == c,
        (a + 0x100 * b + 0x1_0000 * c + 0x100_0000 * d) / 0x100_0000 == d,
{
    let v = a + 0x100 * b + 0x1_0000 * c + 0x100_0000 * d;
    assert(v / 0x100 == b + 0x100 * c + 0x1_0000 * d);
    assert(v / 0x1_0000 == c + 0x100 * d);
}

/// Reads the little-endian word at `at`.
pub fn read_u32_le(buf: &[u8], at: usize) -> (v: u32)
    requires
        at + 4 <= buf@.len(),
    ensures
        v == le32(buf@, at as int),
{
    buf[at] as u32 + 0x100 * buf[at + 1] as u32 + 0x1_0000 * buf[at + 2] as u32 + 0x100_0000 * buf[
    at + 3] as u32
}

/// Reads the big-endian word at `at`.
pub fn read_u32_be(buf: &[u8], at: usize) -> (v: u32)
    requires
        at + 4 <= buf@.len(),
    ensures
        v == be32(buf@, at as int),
{
    0x100_0000 * buf[at] as u32 + 0x1_0000 * buf[at + 1] as u32 + 0x100 * buf[at + 2] as u32 + buf[
    at + 3] as u32
}

/// Appends the four little-endian bytes of `v`.
pub fn push_u32_le(out: &mut Vec<u8>, v: u32)
    ensures
        final(out)@ == old(out)@ + le_bytes(v),
{
    out.push((v % 0x100) as u8);
    out.push((v / 0x100 % 0x100) as u8);
    out.push((v / 0x1_0000 % 0x100) as u8);
    out.push((v / 0x100_0000) as u8);
    assert(out@ =~= old(out)@ + le_bytes(v));
}

/// Appends a copy of `src`.
pub fn push_bytes(out: &mut Vec<u8>, src: &[u8])
    ensures
        final(out)@ == old(out)@ + src@,
{
    out.extend_from_slice(src);
    assert(out@ =~= old(out)@ + src@);
}

/// Copies `src` into a vector of its own.
pub fn copy_bytes(src: &[u8]) -> (out: Vec<u8>)
    ensures
        out@ == src@,
{
    let mut out: Vec<u8> = Vec::new();
    push_bytes(&mut out, src);
    assert(out@ =~= src@);
    out
}

/// `n` bytes, all equal to `value`.
pub open spec fn repeated(value: u8, n: nat) -> Seq<u8> {
    Seq::new(n, |i: int| value)
}

/// A vector of `n` copies of `value`.
pub fn fill_bytes(value: u8, n: usize) -> (out: Vec<u8>)
    ensures
        out@ == repeated(value, n as nat),
{
    let out: Vec<u8> = vec![value; n];
    assert(out@ =~= repeated(value, n as nat));
    out
}

/// Byte strings one after the other.
pub open spec fn concat(list: Seq<Seq<u8>>) -> Seq<u8>
    decreases list.len(),
{
    if list.len() == 0 {
        Seq::empty()
    } else {
        concat(list.drop_last()) + list.last()
    }
}

/// Adding a byte string to a list adds it to the end.
pub proof fn lemma_concat_push(list: Seq<Seq<u8>>, s: Seq<u8>)
    ensures
        concat(list.push(s)) == concat(list) + s,
{
    assert(list.push(s).drop_last() =~= list);
}

/// The first byte strings come first.
pub proof fn lemma_concat_take(list: Seq<Seq<u8>>, k: int)
    requires
        0 <= k < list.len(),
    ensures
        concat(list.take(k + 1)) == concat(list.take(k)) + list[k],
{
    assert(list.take(k + 1) =~= list.take(k).push(list[k]));
    lemma_concat_push(list.take(k), list[k]);
}

/// A part of a list is no longer than the list, and stands at its place.
pub proof fn lemma_concat_part(list: Seq<Seq<u8>>, k: int)
    requires
        0 <= k < list.len(),
    ensures
        concat(list.take(k)).len() + list[k].len() == concat(list.take(k + 1)).len()
            <= concat(list).len(),
        concat(list).subrange(
            concat(list.take(k)).len() as int,
            concat(list.take(k + 1)).len() as int,
        ) == list[k],
    decreases list.len(),
{
    lemma_concat_take(list, k);
    let all = concat(list);
    let a = concat(list.take(k));
    let b = concat(list.take(k + 1));
    if k == list.len() - 1 {
        assert(list.take(k + 1) =~= list);
        assert(all.subrange(a.len() as int, b.len() as int) =~= list[k]);
    } else {
        let init = list.drop_last();
        lemma_concat_part(init, k);
        assert(init.take(k) =~= list.take(k));
        assert(init.take(k + 1) =~= list.take(k + 1));
        assert(all == concat(init) + list.last());
        assert(all.subrange(a.len() as int, b.len() as int) =~= concat(init).subrange(
            a.len() as int,
            b.len() as int,
        ));
    }
}

} // verus!
