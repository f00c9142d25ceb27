//! Code tables for one plane: building them from a code-length descriptor,
//! and decoding slice data with them.

use crate::bitstream;
pub use crate::bitstream::{BitReader, BitWriter};
use crate::bytes;
use crate::canonical;
use crate::canonical::Shape;
use crate::error::Error;
use vstd::arithmetic::div_mod::*;
use vstd::arithmetic::mul::*;
use vstd::arithmetic::power2::*;
use vstd::prelude::*;

verus! {

/// Depth of the lookup table in bits.
pub const LUT_BITS: u8 = 12;

/// Number of entries of the lookup table.
pub const LUT_SIZE: usize = 4096;

/// Length that marks a lookup slot without a short code.
pub const MISS_LENGTH: u8 = 0xff;

/// One entry of the codebook.
#[derive(Debug, Clone, Copy, PartialEq, Eq)]
struct CodeEntry {
    code: u32,
    length: u8,
}

/// One entry of the reverse table.
#[derive(Debug, Clone, Copy, PartialEq, Eq)]
struct RevEntry {
    length: u8,
    code: u32,
    sym: u8,
}

/// The codes of one length: they are consecutive numbers from `first` on and
/// stand in the reverse table from `start` on.
#[derive(Debug, Clone, Copy, PartialEq, Eq)]
struct Tier {
    length: u8,
    first: u32,
    start: usize,
    count: usize,
}

/// One slot of the lookup table: the symbol whose code begins the slot's
/// index, and the length of that code. A slot whose code is longer than the
/// table is deep has the length [`MISS_LENGTH`].
#[derive(Debug, Clone, Copy, PartialEq, Eq)]
pub struct LutEntry {
    pub sym: u8,
    pub len: u8,
}

/// The codebook of one plane.
#[derive(Debug, Clone)]
pub struct HuffmanTable {
    /// The descriptor that the table was built from.
    code_length: [u8; 256],
    /// The code of each symbol that has one.
    entries: [Option<CodeEntry>; 256],
    /// The codes by rising length, and by rising code inside a length.
    by_length: Vec<RevEntry>,
    /// The lengths in use, rising.
    tiers: Vec<Tier>,
    /// The longest code length; zero if there are no codes.
    max_len: u8,
    /// The symbol whose code begins each number of [`LUT_BITS`] bits.
    lut: Vec<LutEntry>,
    /// The only symbol of the plane, if there is just one.
    pub single_symbol: Option<u8>,
}

/// The code of symbol `s` begins the 12-bit number `key`.
pub open spec fn covers(d: Seq<u8>, s: int, key: int) -> bool {
    1 <= d[s] <= LUT_BITS && key / pow2((LUT_BITS - d[s]) as nat) as int == canonical::code(d, s)
}

/// A lookup slot holds the symbol whose code begins its index, or marks that
/// no short code does.
pub open spec fn slot_ok(d: Seq<u8>, key: int, e: LutEntry) -> bool {
    if e.len <= LUT_BITS {
        d[e.sym as int] == e.len && covers(d, e.sym as int, key)
    } else {
        e.len == MISS_LENGTH && forall|s: int| 0 <= s < 256 ==> !#[trigger] covers(d, s, key)
    }
}

/// A reverse-table entry belongs to symbol `e.sym`.
spec fn rev_ok(d: Seq<u8>, e: RevEntry) -> bool {
    &&& 1 <= e.length <= 32
    &&& d[e.sym as int] == e.length
    &&& e.code == canonical::code(d, e.sym as int)
}

/// A tier describes all the codes of its length.
spec fn tier_ok(d: Seq<u8>, rev: Seq<RevEntry>, t: Tier) -> bool {
    &&& 1 <= t.length <= 32
    &&& t.first == canonical::first_code(d, t.length as nat)
    &&& t.count == canonical::count(d, t.length as int)
    &&& t.start + t.count <= rev.len()
    &&& forall|r: int|
        0 <= r < t.count ==> {
            &&& (#[trigger] rev[t.start + r]).length == t.length
            &&& canonical::rank(d, rev[t.start + r].sym as int) == r
        }
}

/// The reverse table and its tiers cover the lengths up to `top`.
spec fn reverse_ok(d: Seq<u8>, rev: Seq<RevEntry>, tiers: Seq<Tier>, top: int) -> bool {
    &&& forall|i: int| 0 <= i < rev.len() ==> rev_ok(d, #[trigger] rev[i])
    &&& forall|i: int| 0 <= i < tiers.len() ==> tier_ok(d, rev, #[trigger] tiers[i])
    &&& forall|i: int| 0 <= i < tiers.len() ==> (#[trigger] tiers[i]).length <= top
    &&& forall|i: int, j: int|
        0 <= i < j < tiers.len() ==> (#[trigger] tiers[i]).length < (#[trigger] tiers[j]).length
    &&& forall|s: int|
        0 <= s < 256 && 1 <= #[trigger] d[s] <= top ==> exists|i: int|
            0 <= i < tiers.len() && (#[trigger] tiers[i]).length == d[s]
    &&& forall|s: int|
        0 <= s < 256 && 1 <= #[trigger] d[s] <= top ==> exists|i: int|
            0 <= i < rev.len() && (#[trigger] rev[i]).sym == s
}

/// The codebook entry of symbol `s`.
spec fn entry_of(d: Seq<u8>, s: int) -> Option<CodeEntry> {
    if canonical::is_active(d[s]) {
        Some(CodeEntry { code: canonical::code(d, s) as u32, length: d[s] })
    } else {
        None
    }
}

/// `m` is the greatest length of a code.
pub open spec fn is_longest(d: Seq<u8>, m: u8) -> bool {
    &&& exists|s: int| 0 <= s < 256 && canonical::is_active(d[s]) && #[trigger] d[s] == m
    &&& forall|s: int| 0 <= s < 256 && canonical::is_active(#[trigger] d[s]) ==> d[s] <= m
}

/// How many symbols have each length.
pub(crate) fn length_counts(code_length: &[u8; 256]) -> (counts: [usize; 256])
    ensures
        forall|l: int| 0 <= l < 256 ==> #[trigger] counts@[l] == canonical::count(code_length@, l),
{
    let mut counts: [usize; 256] = [0; 256];
    let mut i: usize = 0;
    while i < 256
        invariant
            i <= 256,
            forall|l: int|
                0 <= l < 256 ==> #[trigger] counts@[l] == canonical::tally(
                    code_length@,
                    l,
                    i as nat,
                ),
        decreases 256 - i,
    {
        let l: usize = code_length[i] as usize;
        proof {
            canonical::lemma_tally_monotone(code_length@, l as int, 0, i as nat);
        }
        counts[l] = counts[l] + 1;
        i = i + 1;
    }
    counts
}

/// The longest code length in use, or zero.
pub(crate) fn longest_active(code_length: &[u8; 256]) -> (m: u8)
    ensures
        m == 0 ==> !canonical::has_active(code_length@),
        m != 0 ==> is_longest(code_length@, m),
{
    let mut m: u8 = 0;
    let mut i: usize = 0;
    while i < 256
        invariant
            i <= 256,
            m != 0 ==> exists|s: int|
                0 <= s < 256 && canonical::is_active(code_length@[s]) && #[trigger] code_length@[s]
                    == m,
            forall|s: int|
                0 <= s < i && canonical::is_active(#[trigger] code_length@[s]) ==> code_length@[s]
                    <= m,
        decreases 256 - i,
    {
        let l: u8 = code_length[i];
        if l != 0 && l != 255 && l > m {
            m = l;
            assert(code_length@[i as int] == m);
        }
        i = i + 1;
    }
    m
}

/// The symbol of length zero, where there is one.
fn find_only_symbol(code_length: &[u8; 256]) -> (s: u8)
    requires
        canonical::count(code_length@, 0) == 1,
    ensures
        s == canonical::only_symbol(code_length@),
{
    let mut i: usize = 0;
    while i < 255 && code_length[i] != 0
        invariant
            i <= 255,
            forall|t: int| 0 <= t < i ==> #[trigger] code_length@[t] != 0,
        decreases 255 - i,
    {
        i = i + 1;
    }
    proof {
        let d = code_length@;
        let s = canonical::lemma_rank_find(d, 0, 0);
        assert(d[(s as u8) as int] == 0);
        let o = canonical::only_symbol(d) as int;
        assert(d[o] == 0);
        canonical::lemma_rank_bound(d, o);
        canonical::lemma_rank_bound(d, i as int);
        if o < i {
            assert(false);
        } else if (i as int) < o {
            if d[i as int] == 0 {
                canonical::lemma_rank_injective(d, i as int, o);
            } else {
                assert(i == 255);
            }
            assert(false);
        }
    }
    i as u8
}

/// Succeeds if the codes fill the code space exactly.
fn kraft_check(code_length: &[u8; 256], counts: &[usize; 256], max_len: u8) -> (r: Result<
    (),
    Error,
>)
    requires
        is_longest(code_length@, max_len),
        forall|l: int| 0 <= l < 256 ==> #[trigger] counts@[l] == canonical::count(code_length@, l),
    ensures
        r is Ok <==> canonical::complete(code_length@),
        r matches Err(e) ==> e == Error::KraftViolation,
{
    let ghost d = code_length@;
    if max_len > 32 {
        assert(!canonical::within_limit(d));
        return Err(Error::KraftViolation);
    }
    assert(canonical::within_limit(d));
    let mut sum: u64 = 0;
    let mut l: usize = 32;
    while l > 0
        invariant
            l <= 32,
            d == code_length@,
            sum == canonical::deeper(d, l as nat),
            sum <= (32 - l) * 0x100_0000_0000,
            forall|k: int| 0 <= k < 256 ==> #[trigger] counts@[k] == canonical::count(d, k),
        decreases l,
    {
        let unit: u64 = bitstream::power_of_two((32 - l) as u32);
        let c: u64 = counts[l] as u64;
        proof {
            canonical::lemma_tally_monotone(d, l as int, 0, 256);
            lemma2_to64();
            if l > 0 {
                lemma_pow2_strictly_increases((32 - l) as nat, 32);
            }
            assert(c * unit <= 256 * 0x1_0000_0000) by (nonlinear_arith)
                requires
                    0 <= c <= 256,
                    0 <= unit <= 0x1_0000_0000,
            ;
            assert(0 <= c * unit) by (nonlinear_arith)
                requires
                    0 <= c,
                    0 <= unit,
            ;
        }
        sum = sum + c * unit;
        l = l - 1;
    }
    proof {
        lemma2_to64();
    }
    if sum != 0x1_0000_0000 {
        return Err(Error::KraftViolation);
    }
    Ok(())
}

/// The reverse-table entries of length `l`, from index `start` on, for the
/// symbols from `low` on.
spec fn tier_filled(d: Seq<u8>, rev: Seq<RevEntry>, start: int, l: int, low: int) -> bool {
    &&& rev.len() == start + canonical::count(d, l) - canonical::tally(d, l, low as nat)
    &&& forall|i: int|
        start <= i < rev.len() ==> {
            &&& rev_ok(d, #[trigger] rev[i])
            &&& rev[i].length == l
            &&& canonical::rank(d, rev[i].sym as int) == i - start
        }
    &&& forall|s: int|
        low <= s < 256 && #[trigger] d[s] == l ==> rev[start + canonical::rank(d, s)].sym == s
}

/// Writes the codes of length `l` into the codebook and the reverse table.
fn fill_tier(
    code_length: &[u8; 256],
    l: u8,
    first: u32,
    entries: &mut [Option<CodeEntry>; 256],
    by_length: &mut Vec<RevEntry>,
)
    requires
        canonical::complete(code_length@),
        1 <= l <= 32,
        first == canonical::first_code(code_length@, l as nat),
    ensures
        final(by_length)@.len() >= old(by_length)@.len(),
        final(by_length)@.subrange(0, old(by_length)@.len() as int) == old(by_length)@,
        tier_filled(
            code_length@,
            final(by_length)@,
            old(by_length)@.len() as int,
            l as int,
            0,
        ),
        forall|s: int|
            0 <= s < 256 ==> #[trigger] final(entries)@[s] == if code_length@[s] == l {
                entry_of(code_length@, s)
            } else {
                old(entries)@[s]
            },
{
    let ghost d = code_length@;
    let ghost before = by_length@;
    let ghost start = before.len() as int;
    let mut code: u64 = first as u64;
    let mut s: usize = 256;
    while s > 0
        invariant
            s <= 256,
            d == code_length@,
            start == before.len(),
            canonical::complete(d),
            1 <= l <= 32,
            first == canonical::first_code(d, l as nat),
            canonical::tally(d, l as int, s as nat) <= canonical::count(d, l as int),
            code == first + canonical::count(d, l as int) - canonical::tally(
                d,
                l as int,
                s as nat,
            ),
            by_length@.len() >= start,
            by_length@.subrange(0, start) == before,
            tier_filled(d, by_length@, start, l as int, s as int),
            forall|t: int|
                0 <= t < 256 ==> #[trigger] entries@[t] == if d[t] == l && s <= t {
                    entry_of(d, t)
                } else {
                    old(entries)@[t]
                },
        decreases s,
    {
        s = s - 1;
        if code_length[s] == l {
            proof {
                canonical::lemma_rank_bound(d, s as int);
                canonical::lemma_code_place(d, s as int);
                lemma2_to64();
                if l < 32 {
                    lemma_pow2_strictly_increases(l as nat, 32);
                }
            }
            entries[s] = Some(CodeEntry { code: code as u32, length: l });
            let ghost rev = by_length@;
            by_length.push(RevEntry { length: l, code: code as u32, sym: s as u8 });
            proof {
                assert(by_length@.subrange(0, start) =~= before);
                assert forall|t: int| s <= t < 256 && #[trigger] d[t] == l implies by_length@[start
                    + canonical::rank(d, t)].sym == t by {
                    if t > s {
                        canonical::lemma_rank_injective(d, s as int, t);
                        assert(by_length@[start + canonical::rank(d, t)] == rev[start
                            + canonical::rank(d, t)]);
                    }
                }
            }
            code = code + 1;
        }
    }
    proof {
        assert(canonical::tally(d, l as int, 0) == 0);
    }
}

/// The reverse table stays right when the next length is added to it.
proof fn lemma_reverse_extend(
    d: Seq<u8>,
    rev: Seq<RevEntry>,
    tiers: Seq<Tier>,
    more: Seq<RevEntry>,
    t: Tier,
)
    requires
        canonical::complete(d),
        reverse_ok(d, rev, tiers, t.length - 1),
        1 <= t.length <= 32,
        t.first == canonical::first_code(d, t.length as nat),
        t.count == canonical::count(d, t.length as int),
        t.start == rev.len(),
        more.len() >= rev.len(),
        more.subrange(0, rev.len() as int) == rev,
        tier_filled(d, more, rev.len() as int, t.length as int, 0),
    ensures
        reverse_ok(d, more, tiers.push(t), t.length as int),
{
    let all = tiers.push(t);
    let start = rev.len() as int;
    assert forall|i: int| 0 <= i < start implies #[trigger] more[i] == rev[i] by {
        assert(more.subrange(0, start)[i] == more[i]);
    }
    assert(canonical::tally(d, t.length as int, 0) == 0);
    assert(tier_ok(d, more, t));
    assert forall|i: int| 0 <= i < all.len() implies tier_ok(d, more, #[trigger] all[i]) by {
        if i < tiers.len() {
            let u = tiers[i];
            assert(tier_ok(d, rev, u));
            assert forall|r: int| 0 <= r < u.count implies {
                &&& (#[trigger] more[u.start + r]).length == u.length
                &&& canonical::rank(d, more[u.start + r].sym as int) == r
            } by {
                assert(more[u.start + r] == rev[u.start + r]);
            }
        }
    }
    assert forall|s: int| 0 <= s < 256 && 1 <= #[trigger] d[s] <= t.length implies exists|i: int|
        0 <= i < all.len() && (#[trigger] all[i]).length == d[s] by {
        if d[s] == t.length {
            assert(all[tiers.len() as int].length == d[s]);
        } else {
            let i = choose|i: int| 0 <= i < tiers.len() && (#[trigger] tiers[i]).length == d[s];
            assert(all[i].length == d[s]);
        }
    }
    assert forall|s: int| 0 <= s < 256 && 1 <= #[trigger] d[s] <= t.length implies exists|i: int|
        0 <= i < more.len() && (#[trigger] more[i]).sym == s by {
        if d[s] == t.length {
            canonical::lemma_rank_bound(d, s);
            assert(more[start + canonical::rank(d, s)].sym == s);
        } else {
            let i = choose|i: int| 0 <= i < rev.len() && (#[trigger] rev[i]).sym == s;
            assert(more[i].sym == s);
        }
    }
}

/// The reverse table stays right past a length that is not in use.
proof fn lemma_reverse_skip(d: Seq<u8>, rev: Seq<RevEntry>, tiers: Seq<Tier>, l: int)
    requires
        reverse_ok(d, rev, tiers, l - 1),
        canonical::count(d, l) == 0,
    ensures
        reverse_ok(d, rev, tiers, l),
{
    assert forall|s: int| 0 <= s < 256 implies #[trigger] d[s] != l by {
        canonical::lemma_rank_bound(d, s);
    }
}

/// Hands out the codes of a complete descriptor, by rising length.
fn assign_codes(code_length: &[u8; 256], counts: &[usize; 256]) -> (r: (
    [Option<CodeEntry>; 256],
    Vec<RevEntry>,
    Vec<Tier>,
))
    requires
        canonical::complete(code_length@),
        forall|l: int| 0 <= l < 256 ==> #[trigger] counts@[l] == canonical::count(code_length@, l),
    ensures
        forall|s: int| 0 <= s < 256 ==> #[trigger] r.0@[s] == entry_of(code_length@, s),
        reverse_ok(code_length@, r.1@, r.2@, 32),
{
    let ghost d = code_length@;
    let mut entries: [Option<CodeEntry>; 256] = [None; 256];
    let mut by_length: Vec<RevEntry> = Vec::new();
    let mut tiers: Vec<Tier> = Vec::new();
    let mut remaining: u64 = 0x1_0000_0000;
    let mut l: u8 = 1;
    proof {
        lemma2_to64();
    }
    while l <= 32
        invariant
            1 <= l <= 33,
            d == code_length@,
            canonical::complete(d),
            remaining == canonical::deeper(d, (l - 1) as nat),
            forall|k: int| 0 <= k < 256 ==> #[trigger] counts@[k] == canonical::count(d, k),
            forall|s: int|
                0 <= s < 256 ==> #[trigger] entries@[s] == if 1 <= d[s] < l {
                    entry_of(d, s)
                } else {
                    None
                },
            reverse_ok(d, by_length@, tiers@, l - 1),
        decreases 33 - l,
    {
        let c: usize = counts[l as usize];
        let unit: u64 = bitstream::power_of_two(32 - l as u32);
        proof {
            assert(canonical::deeper(d, (l - 1) as nat) == canonical::deeper(d, l as nat)
                + canonical::count(d, l as int) * pow2((32 - l) as nat));
            canonical::lemma_first_code_exact(d, l as nat);
            lemma_mul_nonnegative(c as int, unit as int);
        }
        let ghost was = entries@;
        if c > 0 {
            remaining = remaining - (c as u64) * unit;
            proof {
                let s = canonical::lemma_rank_find(d, l as int, 0);
                canonical::lemma_code_place(d, s);
                canonical::lemma_rank_bound(d, s);
                lemma2_to64();
                if l < 32 {
                    lemma_pow2_strictly_increases(l as nat, 32);
                }
            }
            let first: u32 = (remaining / unit) as u32;
            let start: usize = by_length.len();
            let ghost rev = by_length@;
            fill_tier(code_length, l, first, &mut entries, &mut by_length);
            let t = Tier { length: l, first, start, count: c };
            proof {
                lemma_reverse_extend(d, rev, tiers@, by_length@, t);
            }
            tiers.push(t);
        } else {
            proof {
                lemma_mul_by_zero_is_zero(unit as int);
                lemma_reverse_skip(d, by_length@, tiers@, l as int);
                assert forall|s: int| 0 <= s < 256 implies #[trigger] d[s] != l by {
                    canonical::lemma_rank_bound(d, s);
                }
            }
        }
        l = l + 1;
    }
    (entries, by_length, tiers)
}

/// The code of a reverse-table entry begins the 12-bit number `key`.
spec fn rev_covers(e: RevEntry, key: int) -> bool {
    e.length <= LUT_BITS && key / pow2((LUT_BITS - e.length) as nat) as int == e.code
}

/// A lookup slot agrees with the first `n` entries of the reverse table.
spec fn slot_filled(rev: Seq<RevEntry>, n: int, key: int, e: LutEntry) -> bool {
    if e.len <= LUT_BITS {
        exists|i: int|
            0 <= i < n && rev_covers(#[trigger] rev[i], key) && e.sym == rev[i].sym && e.len
                == rev[i].length
    } else {
        e.len == MISS_LENGTH && forall|i: int| 0 <= i < n ==> !rev_covers(#[trigger] rev[i], key)
    }
}

/// The numbers that a code begins are consecutive.
proof fn lemma_covered_range(code: int, key: int, span: int)
    requires
        0 < span,
        0 <= key,
    ensures
        key / span == code <==> code * span <= key < code * span + span,
{
    lemma_fundamental_div_mod(key, span);
    lemma_mod_bound(key, span);
    let q = key / span;
    let r = key % span;
    assert(q == code <==> code * span <= key < code * span + span) by (nonlinear_arith)
        requires
            key == span * q + r,
            0 <= r < span,
    ;
}

/// Builds the lookup table: every number of [`LUT_BITS`] bits that begins
/// with a short code gets that code's symbol and length.
fn build_lut(by_length: &Vec<RevEntry>) -> (lut: Vec<LutEntry>)
    requires
        forall|i: int|
            0 <= i < by_length@.len() ==> 1 <= (#[trigger] by_length@[i]).length <= 32
                && by_length@[i].code < pow2(by_length@[i].length as nat),
    ensures
        lut@.len() == LUT_SIZE,
        forall|key: int|
            0 <= key < LUT_SIZE ==> slot_filled(
                by_length@,
                by_length@.len() as int,
                key,
                #[trigger] lut@[key],
            ),
{
    let ghost rev = by_length@;
    let mut lut: Vec<LutEntry> = vec![LutEntry { sym: 0, len: MISS_LENGTH }; LUT_SIZE];
    let mut i: usize = 0;
    while i < by_length.len()
        invariant
            rev == by_length@,
            i <= rev.len(),
            forall|j: int|
                0 <= j < rev.len() ==> 1 <= (#[trigger] rev[j]).length <= 32 && rev[j].code < pow2(
                    rev[j].length as nat,
                ),
            lut@.len() == LUT_SIZE,
            forall|key: int|
                0 <= key < LUT_SIZE ==> slot_filled(rev, i as int, key, #[trigger] lut@[key]),
        decreases rev.len() - i,
    {
        let e = by_length[i];
        let ghost was = lut@;
        if e.length <= LUT_BITS {
            let span: usize = bitstream::power_of_two((LUT_BITS - e.length) as u32) as usize;
            proof {
                lemma_pow2_adds(e.length as nat, (LUT_BITS - e.length) as nat);
                lemma2_to64();
                lemma_pow2_strictly_increases((LUT_BITS - e.length) as nat, 12);
                let c = e.code as int;
                let sp = span as int;
                let top = pow2(e.length as nat) as int;
                assert(c * sp + sp <= top * sp && 0 <= c * sp) by (nonlinear_arith)
                    requires
                        0 <= c < top,
                        0 < sp,
                ;
            }
            let base: usize = e.code as usize * span;
            let slot = LutEntry { sym: e.sym, len: e.length };
            let mut k: usize = 0;
            while k < span
                invariant
                    k <= span,
                    base + span <= LUT_SIZE,
                    lut@.len() == LUT_SIZE,
                    was.len() == LUT_SIZE,
                    forall|key: int|
                        0 <= key < LUT_SIZE ==> #[trigger] lut@[key] == if base <= key < base + k {
                            slot
                        } else {
                            was[key]
                        },
                decreases span - k,
            {
                lut.set(base + k, slot);
                k = k + 1;
            }
            proof {
                assert forall|key: int| 0 <= key < LUT_SIZE implies slot_filled(
                    rev,
                    i + 1,
                    key,
                    #[trigger] lut@[key],
                ) by {
                    lemma_covered_range(e.code as int, key, span as int);
                    assert(rev_covers(rev[i as int], key) <==> base <= key < base + span);
                    assert(slot_filled(rev, i as int, key, was[key]));
                }
            }
        } else {
            proof {
                assert forall|key: int| 0 <= key < LUT_SIZE implies slot_filled(
                    rev,
                    i + 1,
                    key,
                    #[trigger] lut@[key],
                ) by {
                    assert(slot_filled(rev, i as int, key, was[key]));
                }
            }
        }
        i = i + 1;
    }
    lut
}

/// A result as a mathematical value.
pub open spec fn outcome_of(r: Result<Vec<u8>, Error>) -> Result<Seq<u8>, Error> {
    match r {
        Ok(v) => Ok(v@),
        Err(e) => Err(e),
    }
}

impl HuffmanTable {
    /// The descriptor that the table was built from.
    pub closed spec fn descriptor(&self) -> Seq<u8> {
        self.code_length@
    }

    /// The value of the field `single_symbol`.
    pub closed spec fn only(&self) -> Option<u8> {
        self.single_symbol
    }

    /// The table is the one that its descriptor stands for.
    pub closed spec fn wf(&self) -> bool {
        let d = self.code_length@;
        match canonical::shape(d) {
            Err(_) => false,
            Ok(Shape::Coded) => {
                &&& self.single_symbol is None
                &&& forall|s: int| 0 <= s < 256 ==> #[trigger] self.entries@[s] == entry_of(d, s)
                &&& reverse_ok(d, self.by_length@, self.tiers@, 32)
                &&& is_longest(d, self.max_len)
                &&& self.lut@.len() == LUT_SIZE
                &&& forall|key: int|
                    0 <= key < LUT_SIZE ==> slot_ok(d, key, #[trigger] self.lut@[key])
            },
            Ok(Shape::Single(s)) => {
                &&& self.single_symbol == Some(s)
                &&& forall|s: int| 0 <= s < 256 ==> #[trigger] self.entries@[s] is None
                &&& self.by_length@.len() == 0
                &&& self.tiers@.len() == 0
                &&& self.max_len == 0
                &&& self.lut@.len() == 0
            },
        }
    }

    /// Builds the codebook of a descriptor.
    pub fn build(code_length: &[u8; 256]) -> (r: Result<Self, Error>)
        ensures
            r is Ok <==> canonical::shape(code_length@) is Ok,
            r matches Ok(t) ==> t.wf() && t.descriptor() == code_length@ && t.only() == (
            match canonical::shape(code_length@) {
                Ok(Shape::Single(s)) => Some(s),
                _ => None,
            }),
            r matches Err(e) ==> canonical::shape(code_length@) == Err::<Shape, Error>(e),
    {
        let ghost d = code_length@;
        let counts: [usize; 256] = length_counts(code_length);
        let max_len: u8 = longest_active(code_length);
        assert(counts@[0] == canonical::count(d, 0));
        if counts[0] > 1 {
            return Err(Error::MultipleSingleSymbolSentinels);
        }
        if counts[0] == 1 {
            if max_len != 0 {
                return Err(Error::KraftViolation);
            }
            let single: u8 = find_only_symbol(code_length);
            return Ok(Self::of_single(code_length, single));
        }
        if max_len == 0 {
            proof {
                if canonical::complete(d) {
                    canonical::law_complete_has_active(d);
                }
            }
            return Err(Error::KraftViolation);
        }
        match kraft_check(code_length, &counts, max_len) {
            Err(e) => {
                return Err(e);
            },
            Ok(_) => {},
        }
        let (entries, by_length, tiers) = assign_codes(code_length, &counts);
        proof {
            assert forall|i: int| 0 <= i < by_length@.len() implies 1 <= (
            #[trigger] by_length@[i]).length <= 32 && by_length@[i].code < pow2(
                by_length@[i].length as nat,
            ) by {
                assert(rev_ok(d, by_length@[i]));
                canonical::lemma_code_place(d, by_length@[i].sym as int);
            }
        }
        let lut: Vec<LutEntry> = build_lut(&by_length);
        proof {
            assert forall|key: int| 0 <= key < LUT_SIZE implies slot_ok(
                d,
                key,
                #[trigger] lut@[key],
            ) by {
                let e = lut@[key];
                let rev = by_length@;
                assert(slot_filled(rev, rev.len() as int, key, e));
                if e.len <= LUT_BITS {
                    let i = choose|i: int|
                        0 <= i < rev.len() && rev_covers(#[trigger] rev[i], key) && e.sym
                            == rev[i].sym && e.len == rev[i].length;
                    assert(rev_ok(d, rev[i]));
                } else {
                    assert forall|s: int| 0 <= s < 256 implies !#[trigger] covers(d, s, key) by {
                        if 1 <= d[s] <= LUT_BITS {
                            let i = choose|i: int|
                                0 <= i < rev.len() && (#[trigger] rev[i]).sym == s;
                            assert(rev_ok(d, rev[i]));
                            assert(!rev_covers(rev[i], key));
                        }
                    }
                }
            }
        }
        Ok(
            Self {
                code_length: *code_length,
                entries,
                by_length,
                tiers,
                max_len,
                lut,
                single_symbol: None,
            },
        )
    }

    /// The table of a descriptor with one symbol.
    fn of_single(code_length: &[u8; 256], symbol: u8) -> (t: Self)
        requires
            canonical::shape(code_length@) == Ok::<Shape, Error>(Shape::Single(symbol)),
        ensures
            t.wf(),
            t.descriptor() == code_length@,
            t.only() == Some(symbol),
    {
        Self {
            code_length: *code_length,
            entries: [None; 256],
            by_length: Vec::new(),
            tiers: Vec::new(),
            max_len: 0,
            lut: Vec::new(),
            single_symbol: Some(symbol),
        }
    }

    /// The field `single_symbol` holds the symbol of a descriptor with one
    /// symbol, and nothing if the descriptor has codes.
    pub proof fn law_only(&self)
        requires
            self.wf(),
        ensures
            canonical::shape(self.descriptor()) is Ok,
            self.only() == (match canonical::shape(self.descriptor()) {
                Ok(Shape::Single(s)) => Some(s),
                _ => None,
            }),
    {
    }

    /// True if the plane has only one symbol.
    pub fn is_single(&self) -> (b: bool)
        requires
            self.wf(),
        ensures
            b == (canonical::shape(self.descriptor()) matches Ok(Shape::Single(_))),
    {
        self.single_symbol.is_some()
    }

    /// A table has one symbol or codes.
    pub proof fn lemma_coded(&self)
        requires
            self.wf(),
        ensures
            self.coded() || canonical::shape(self.descriptor()) matches Ok(Shape::Single(_)),
    {
    }

    /// The code of symbol `s` and its length, if the symbol has a code.
    pub fn code_for(&self, s: u8) -> (r: Option<(u32, u8)>)
        requires
            self.wf(),
        ensures
            r == (if canonical::shape(self.descriptor()) == Ok::<Shape, Error>(Shape::Coded)
                && canonical::is_active(self.descriptor()[s as int]) {
                Some(
                    (
                        canonical::code(self.descriptor(), s as int) as u32,
                        self.descriptor()[s as int],
                    ),
                )
            } else {
                None
            }),
    {
        match self.entries[s as usize] {
            Some(e) => Some((e.code, e.length)),
            None => None,
        }
    }

    /// The lookup table: empty if there are no codes, else one slot for each
    /// number of [`LUT_BITS`] bits.
    pub fn lut(&self) -> (l: &[LutEntry])
        requires
            self.wf(),
        ensures
            canonical::shape(self.descriptor()) == Ok::<Shape, Error>(Shape::Coded) ==> l@.len()
                == LUT_SIZE && (forall|key: int|
                0 <= key < LUT_SIZE ==> slot_ok(
                    self.descriptor(),
                    key,
                    #[trigger] l@[key],
                )),
            canonical::shape(self.descriptor()) != Ok::<Shape, Error>(Shape::Coded) ==> l@.len()
                == 0,
    {
        self.lut.as_slice()
    }

    /// The longest code length, or zero if there are no codes.
    pub fn max_code_length(&self) -> (m: u8)
        requires
            self.wf(),
        ensures
            canonical::shape(self.descriptor()) == Ok::<Shape, Error>(Shape::Coded) ==> is_longest(
                self.descriptor(),
                m,
            ),
            canonical::shape(self.descriptor()) != Ok::<Shape, Error>(Shape::Coded) ==> m == 0,
    {
        self.max_len
    }

    /// The table has codes.
    pub open spec fn coded(&self) -> bool {
        canonical::shape(self.descriptor()) == Ok::<Shape, Error>(Shape::Coded)
    }

    /// The number of bits of the code at the reader's position.
    spec fn code_len_at(&self, br: &BitReader) -> int {
        let bits = bitstream::stream_bits(br.source());
        self.descriptor()[canonical::next_symbol(
            self.descriptor(),
            bits,
            br.cursor() as int,
        ) as int] as int
    }

    /// Reads the next symbol, or nothing if its code does not fit the rest of
    /// the data.
    fn next_symbol(&self, br: &mut BitReader) -> (r: Option<u8>)
        requires
            self.wf(),
            self.coded(),
            old(br).wf(),
            old(br).cursor() <= 8 * old(br).source().len() <= usize::MAX,
        ensures
            final(br).wf(),
            final(br).source() == old(br).source(),
            r is Some <==> old(br).cursor() + self.code_len_at(old(br)) <= 8
                * old(br).source().len(),
            r matches Some(s) ==> s == canonical::next_symbol(
                self.descriptor(),
                bitstream::stream_bits(old(br).source()),
                old(br).cursor() as int,
            ) && final(br).cursor() == old(br).cursor() + self.code_len_at(old(br)),
            r is None ==> final(br).cursor() == old(br).cursor(),
    {
        let ghost d = self.code_length@;
        let ghost bits = bitstream::stream_bits(br.source());
        let ghost pos = br.cursor() as int;
        let ghost ns = canonical::next_symbol(d, bits, pos);
        proof {
            canonical::lemma_match_exists(d, bits, pos);
        }
        if br.has_bits(LUT_BITS as usize) {
            let key: u32 = br.peek_bits(LUT_BITS as usize);
            proof {
                bitstream::lemma_value_bound(bits, pos, 12);
                lemma2_to64();
            }
            let entry: LutEntry = self.lut[key as usize];
            assert(slot_ok(d, key as int, entry));
            if entry.len <= LUT_BITS {
                proof {
                    let l = entry.len as nat;
                    bitstream::lemma_value_prefix(bits, pos, l, (12 - l) as nat);
                    assert(canonical::matches_at(d, bits, pos, entry.sym as int));
                    canonical::lemma_next_symbol(d, bits, pos, entry.sym);
                }
                br.consume_bits(entry.len as usize);
                return Some(entry.sym);
            }
        }
        let mut i: usize = 0;
        while i < self.tiers.len()
            invariant
                d == self.code_length@,
                self.wf(),
                self.coded(),
                br.wf(),
                br.source() == old(br).source(),
                br.cursor() == old(br).cursor(),
                br.cursor() <= 8 * br.source().len() <= usize::MAX,
                bits == bitstream::stream_bits(br.source()),
                pos == br.cursor(),
                ns == canonical::next_symbol(d, bits, pos),
                canonical::matches_at(d, bits, pos, ns as int),
                i <= self.tiers@.len(),
                forall|j: int| 0 <= j < i ==> (#[trigger] self.tiers@[j]).length != d[ns as int],
            decreases self.tiers@.len() - i,
        {
            let tier: Tier = self.tiers[i];
            assert(tier_ok(d, self.by_length@, self.tiers@[i as int]));
            proof {
                let j = choose|j: int|
                    0 <= j < self.tiers@.len() && (#[trigger] self.tiers@[j]).length
                        == d[ns as int];
                assert(tier.length <= d[ns as int]);
            }
            if !br.has_bits(tier.length as usize) {
                return None;
            }
            let candidate: u32 = br.peek_bits(tier.length as usize);
            if candidate >= tier.first && ((candidate - tier.first) as usize) < tier.count {
                assert(self.by_length.len() <= usize::MAX);
                let rev: RevEntry = self.by_length[tier.start + (candidate
                    - tier.first) as usize];
                proof {
                    let r = candidate - tier.first;
                    assert(self.by_length@[tier.start + r] == rev);
                    assert(rev_ok(d, rev));
                    assert(canonical::matches_at(d, bits, pos, rev.sym as int));
                    canonical::lemma_next_symbol(d, bits, pos, rev.sym);
                }
                br.consume_bits(tier.length as usize);
                return Some(rev.sym);
            }
            proof {
                if d[ns as int] == tier.length {
                    canonical::lemma_rank_bound(d, ns as int);
                    assert(false);
                }
            }
            i = i + 1;
        }
        proof {
            let j = choose|j: int|
                0 <= j < self.tiers@.len() && (#[trigger] self.tiers@[j]).length == d[ns as int];
            assert(false);
        }
        None
    }

    /// Decodes `n_pixels` symbols and says where their codes end.
    fn decode_symbols(&self, slice_data: &[u8], n_pixels: usize) -> (r: Result<
        (Vec<u8>, usize),
        Error,
    >)
        requires
            self.wf(),
            8 * slice_data@.len() <= usize::MAX,
        ensures
            match r {
                Ok(p) => canonical::decode_outcome(self.descriptor(), slice_data@, n_pixels as nat)
                    == Ok::<Seq<u8>, Error>(p.0@) && p.1 == canonical::end_position(
                    self.descriptor(),
                    slice_data@,
                    n_pixels as nat,
                ) && p.1 <= 8 * slice_data@.len(),
                Err(e) => canonical::decode_outcome(self.descriptor(), slice_data@, n_pixels as nat)
                    == Err::<Seq<u8>, Error>(e),
            },
    {
        let ghost d = self.code_length@;
        if let Some(sym) = self.single_symbol {
            return Ok((bytes::fill_bytes(sym, n_pixels), 0));
        }
        let ghost bits = bitstream::stream_bits(slice_data@);
        let ghost limit = 8 * slice_data@.len();
        let mut br = BitReader::new(slice_data);
        let mut out: Vec<u8> = Vec::new();
        let mut px: usize = 0;
        proof {
            assert(canonical::position(d, bits, 0) == 0);
            assert(out@ =~= canonical::symbols(d, bits, 0));
        }
        while px < n_pixels
            invariant
                d == self.code_length@,
                self.wf(),
                self.coded(),
                px <= n_pixels,
                bits == bitstream::stream_bits(slice_data@),
                limit == 8 * slice_data@.len(),
                limit <= usize::MAX,
                br.wf(),
                br.source() == slice_data@,
                br.cursor() == canonical::position(d, bits, px as nat),
                out@ == canonical::symbols(d, bits, px as nat),
                forall|i: nat| i <= px ==> #[trigger] canonical::position(d, bits, i) <= limit,
            decreases n_pixels - px,
        {
            let start: usize = br.position();
            match self.next_symbol(&mut br) {
                Some(sym) => {
                    out.push(sym);
                    assert(canonical::position(d, bits, (px + 1) as nat) == br.cursor());
                    assert(out@ =~= canonical::symbols(d, bits, (px + 1) as nat));
                },
                None => {
                    proof {
                        canonical::lemma_fitting(d, bits, limit, n_pixels as nat, px as nat);
                    }
                    return Err(
                        Error::SliceTruncated {
                            bit_position: start,
                            expected_pixels: n_pixels,
                            decoded: px,
                        },
                    );
                },
            }
            px = px + 1;
        }
        proof {
            canonical::lemma_fitting(d, bits, limit, n_pixels as nat, n_pixels as nat);
        }
        Ok((out, br.position()))
    }

    /// Decodes `n_pixels` symbols from slice data.
    pub fn decode_slice(&self, slice_data: &[u8], n_pixels: usize) -> (r: Result<Vec<u8>, Error>)
        requires
            self.wf(),
            8 * slice_data@.len() <= usize::MAX,
        ensures
            outcome_of(r) == canonical::decode_outcome(
                self.descriptor(),
                slice_data@,
                n_pixels as nat,
            ),
    {
        match self.decode_symbols(slice_data, n_pixels) {
            Ok((out, _)) => Ok(out),
            Err(e) => Err(e),
        }
    }

    /// Decodes `n_pixels` symbols from slice data and checks that the bits
    /// between the last code and the next word boundary are zero. `plane` and
    /// `slice` say where the data comes from and are handed on in the error.
    pub fn decode_slice_strict(
        &self,
        slice_data: &[u8],
        n_pixels: usize,
        plane: usize,
        slice: usize,
    ) -> (r: Result<Vec<u8>, Error>)
        requires
            self.wf(),
            8 * slice_data@.len() <= usize::MAX,
        ensures
            outcome_of(r) == canonical::strict_outcome(
                self.descriptor(),
                slice_data@,
                n_pixels as nat,
                plane,
                slice,
            ),
    {
        match self.decode_symbols(slice_data, n_pixels) {
            Ok((out, end)) => {
                match first_set_padding(slice_data, end) {
                    None => Ok(out),
                    Some(bit_position) => Err(
                        Error::NonZeroPadding { plane, slice, bit_position },
                    ),
                }
            },
            Err(e) => Err(e),
        }
    }
}

/// The first set bit between position `p` and the next word boundary.
fn first_set_padding(slice_data: &[u8], p: usize) -> (r: Option<usize>)
    requires
        p <= 8 * slice_data@.len() <= usize::MAX,
    ensures
        r matches Some(q) ==> canonical::first_set(
            bitstream::stream_bits(slice_data@),
            p as nat,
            canonical::padding_end(slice_data@, p as nat),
        ) == Some(q as nat),
        r is None ==> canonical::first_set(
            bitstream::stream_bits(slice_data@),
            p as nat,
            canonical::padding_end(slice_data@, p as nat),
        ) is None,
{
    let ghost bits = bitstream::stream_bits(slice_data@);
    let total: usize = slice_data.len() * 8;
    let used: usize = p % 32;
    let end: usize = if used == 0 {
        p
    } else if 32 - used <= total - p {
        p + (32 - used)
    } else {
        total
    };
    assert(end == canonical::padding_end(slice_data@, p as nat));
    let mut br = BitReader::new(slice_data);
    br.consume_bits(p);
    while br.position() < end
        invariant
            br.wf(),
            br.source() == slice_data@,
            bits == bitstream::stream_bits(slice_data@),
            end == canonical::padding_end(slice_data@, p as nat),
            canonical::first_set(bits, p as nat, end as nat) == canonical::first_set(
                bits,
                br.cursor(),
                end as nat,
            ),
        decreases end - br.cursor(),
    {
        let b: u32 = br.peek_bits(1);
        proof {
            assert(bitstream::value(bits, br.cursor() as int, 0) == 0);
            assert(bitstream::value(bits, br.cursor() as int, 1) == bitstream::bit(
                bits,
                br.cursor() as int,
            ));
        }
        if b != 0 {
            return Some(br.position());
        }
        br.consume_bits(1);
    }
    None
}

} // verus!
