//! Length-limited code lengths by package-merge.
//!
//! The symbols that occur are listed by rising count. A level is the list of
//! the packages that can still be bought at one code length: at the greatest
//! length the symbols themselves, and at every smaller length the symbols
//! merged by weight with the pairs of neighbours of the level before. The code
//! length of a symbol is the number of times that it occurs in the cheapest
//! packages of the last level.

use crate::bitstream;
use crate::bytes;
use crate::canonical;
use crate::error::Error;
use vstd::arithmetic::div_mod::*;
use vstd::arithmetic::mul::*;
use vstd::arithmetic::power2::*;
use vstd::prelude::*;

verus! {

/// A bundle of symbols and the sum of their counts.
#[verifier::ext_equal]
pub struct Package {
    pub weight: nat,
    pub syms: Seq<u8>,
}

/// How many of the symbols in `list`, which is sorted by count, have a count
/// of at most `c`.
pub open spec fn insert_at(counts: Seq<u64>, list: Seq<u8>, c: u64) -> nat
    decreases list.len(),
{
    if list.len() == 0 {
        0
    } else if counts[list.last() as int] <= c {
        list.len()
    } else {
        insert_at(counts, list.drop_last(), c)
    }
}

/// The symbols below `n` that occur, by rising count, and by rising symbol
/// where the counts are equal.
pub open spec fn ordered(counts: Seq<u64>, n: nat) -> Seq<u8>
    decreases n,
{
    if n == 0 {
        Seq::empty()
    } else {
        let list = ordered(counts, (n - 1) as nat);
        if counts[n - 1] == 0 {
            list
        } else {
            list.insert(insert_at(counts, list, counts[n - 1]) as int, (n - 1) as u8)
        }
    }
}

/// Each symbol of a list as a package of its own.
pub open spec fn singles(counts: Seq<u64>, list: Seq<u8>) -> Seq<Package> {
    Seq::new(
        list.len(),
        |i: int| Package { weight: counts[list[i] as int] as nat, syms: seq![list[i]] },
    )
}

/// The packages of the symbols that occur.
pub open spec fn leaves(counts: Seq<u64>) -> Seq<Package> {
    singles(counts, ordered(counts, 256))
}

/// Two packages as one.
pub open spec fn join(a: Package, b: Package) -> Package {
    Package { weight: a.weight + b.weight, syms: a.syms + b.syms }
}

/// Neighbours joined two by two; an odd last package is dropped.
pub open spec fn pairs(list: Seq<Package>) -> Seq<Package> {
    Seq::new(list.len() / 2, |i: int| join(list[2 * i], list[2 * i + 1]))
}

/// Two lists merged by weight; of equal weights the one from `p` comes first.
pub open spec fn merge(p: Seq<Package>, l: Seq<Package>) -> Seq<Package>
    decreases p.len() + l.len(),
{
    if p.len() == 0 {
        l
    } else if l.len() == 0 {
        p
    } else if p[0].weight <= l[0].weight {
        seq![p[0]] + merge(p.skip(1), l)
    } else {
        seq![l[0]] + merge(p, l.skip(1))
    }
}

/// The level after `j` rounds of pairing and merging.
pub open spec fn level(leaves: Seq<Package>, j: nat) -> Seq<Package>
    decreases j,
{
    if j == 0 {
        leaves
    } else {
        merge(pairs(level(leaves, (j - 1) as nat)), leaves)
    }
}

/// How often symbol `s` occurs in a sequence of symbols.
pub open spec fn occurs(syms: Seq<u8>, s: u8) -> nat
    decreases syms.len(),
{
    if syms.len() == 0 {
        0
    } else {
        occurs(syms.drop_last(), s) + if syms.last() == s {
            1nat
        } else {
            0nat
        }
    }
}

/// How often symbol `s` occurs in a list of packages.
pub open spec fn occurrences(list: Seq<Package>, s: u8) -> nat
    decreases list.len(),
{
    if list.len() == 0 {
        0
    } else {
        occurrences(list.drop_last(), s) + occurs(list.last().syms, s)
    }
}

/// The number of symbols that occur.
pub open spec fn used(counts: Seq<u64>) -> nat {
    ordered(counts, 256).len()
}

/// The packages that are bought when no code is longer than `limit`.
pub open spec fn bought(counts: Seq<u64>, limit: nat) -> Seq<Package> {
    level(leaves(counts), (limit - 1) as nat).take(2 * used(counts) - 2)
}

/// The code lengths for a histogram when no code may be longer than `limit`.
/// Symbols that do not occur have length zero.
pub open spec fn lengths_outcome(counts: Seq<u64>, limit: nat) -> Result<Seq<u8>, Error> {
    if used(counts) <= 1 {
        Ok(
            Seq::new(
                256,
                |s: int|
                    if counts[s] > 0 {
                        1u8
                    } else {
                        0u8
                    },
            ),
        )
    } else if pow2(limit) < used(counts) {
        Err(
            Error::InvalidInput(
                "encoder histogram exceeds length-limited Huffman alphabet capacity",
            ),
        )
    } else {
        Ok(Seq::new(256, |s: int| occurrences(bought(counts, limit), s as u8) as u8))
    }
}

/// A package in memory.
struct Node {
    weight: u128,
    syms: Vec<u8>,
}

impl Node {
    spec fn package(&self) -> Package {
        Package { weight: self.weight as nat, syms: self.syms@ }
    }

    fn copy(&self) -> (n: Node)
        ensures
            n.package() == self.package(),
    {
        Node { weight: self.weight, syms: bytes::copy_bytes(self.syms.as_slice()) }
    }
}

/// A list of packages in memory.
spec fn packages(nodes: Seq<Node>) -> Seq<Package> {
    Seq::new(nodes.len(), |i: int| nodes[i].package())
}

/// Lists the symbols that occur, by rising count.
fn order_symbols(counts: &[u64; 256]) -> (list: Vec<u8>)
    ensures
        list@ == ordered(counts@, 256),
        list@.len() <= 256,
{
    let mut list: Vec<u8> = Vec::new();
    let mut s: usize = 0;
    while s < 256
        invariant
            s <= 256,
            list@ == ordered(counts@, s as nat),
            list@.len() <= s,
        decreases 256 - s,
    {
        let c: u64 = counts[s];
        if c > 0 {
            let mut at: usize = list.len();
            proof {
                assert(list@.take(at as int) =~= list@);
            }
            while at > 0 && counts[list[at - 1] as usize] > c
                invariant
                    at <= list@.len(),
                    insert_at(counts@, list@.take(at as int), c) == insert_at(counts@, list@, c),
                decreases at,
            {
                proof {
                    assert(list@.take(at as int).drop_last() =~= list@.take(at - 1));
                }
                at = at - 1;
            }
            proof {
                assert(insert_at(counts@, list@.take(at as int), c) == at);
            }
            list.insert(at, s as u8);
        }
        s = s + 1;
    }
    list
}

/// Symbols by rising count.
pub open spec fn by_count(counts: Seq<u64>, list: Seq<u8>) -> bool {
    forall|i: int, j: int|
        0 <= i <= j < list.len() ==> counts[#[trigger] list[i] as int]
            <= counts[#[trigger] list[j] as int]
}

/// The place of insertion parts a sorted list at the inserted count.
pub proof fn lemma_insert_at(counts: Seq<u64>, list: Seq<u8>, c: u64)
    requires
        by_count(counts, list),
    ensures
        insert_at(counts, list, c) <= list.len(),
        forall|i: int|
            0 <= i < insert_at(counts, list, c) ==> counts[#[trigger] list[i] as int] <= c,
        forall|i: int|
            insert_at(counts, list, c) <= i < list.len() ==> counts[#[trigger] list[i] as int] > c,
    decreases list.len(),
{
    if list.len() > 0 && counts[list.last() as int] > c {
        let init = list.drop_last();
        assert(by_count(counts, init));
        lemma_insert_at(counts, init, c);
        let k = insert_at(counts, list, c) as int;
        assert forall|i: int| 0 <= i < k implies counts[#[trigger] list[i] as int] <= c by {
            assert(init[i] == list[i]);
        }
        assert forall|i: int| k <= i < list.len() implies counts[#[trigger] list[i] as int] > c by {
            if i < list.len() - 1 {
                assert(init[i] == list[i]);
            }
        }
    } else if list.len() > 0 {
        assert forall|i: int| 0 <= i < list.len() implies counts[#[trigger] list[i] as int]
            <= c by {
            assert(counts[list[i] as int] <= counts[list[list.len() - 1] as int]);
        }
    }
}

/// The ordered list holds each occurring symbol once, by rising count.
pub proof fn lemma_ordered(counts: Seq<u64>, n: nat)
    requires
        n <= 256,
    ensures
        ordered(counts, n).len() <= n,
        forall|i: int, j: int|
            0 <= i <= j < ordered(counts, n).len() ==> counts[#[trigger] ordered(
                counts,
                n,
            )[i] as int] <= counts[#[trigger] ordered(counts, n)[j] as int],
        forall|i: int, j: int|
            0 <= i < j < ordered(counts, n).len() ==> #[trigger] ordered(counts, n)[i]
                != #[trigger] ordered(counts, n)[j],
        forall|i: int|
            0 <= i < ordered(counts, n).len() ==> (#[trigger] ordered(counts, n)[i]) < n
                && counts[ordered(counts, n)[i] as int] > 0,
        forall|s: int|
            0 <= s < n && #[trigger] counts[s] > 0 ==> exists|i: int|
                0 <= i < ordered(counts, n).len() && #[trigger] ordered(counts, n)[i] == s,
    decreases n,
{
    if n > 0 {
        lemma_ordered(counts, (n - 1) as nat);
        let list = ordered(counts, (n - 1) as nat);
        let c = counts[n - 1];
        if c > 0 {
            assert(by_count(counts, list));
            lemma_insert_at(counts, list, c);
            let k = insert_at(counts, list, c) as int;
            let more = ordered(counts, n);
            assert(more == list.insert(k, (n - 1) as u8));
            assert forall|i: int| 0 <= i < more.len() implies #[trigger] more[i] == (if i < k {
                list[i]
            } else if i == k {
                (n - 1) as u8
            } else {
                list[i - 1]
            }) by {}
            assert forall|s: int| 0 <= s < n && #[trigger] counts[s] > 0 implies exists|i: int|
                0 <= i < more.len() && #[trigger] more[i] == s by {
                if s == n - 1 {
                    assert(more[k] == s);
                } else {
                    let i = choose|i: int| 0 <= i < list.len() && #[trigger] list[i] == s;
                    if i < k {
                        assert(more[i] == s);
                    } else {
                        assert(more[i + 1] == s);
                    }
                }
            }
        } else {
            assert forall|s: int| 0 <= s < n && #[trigger] counts[s] > 0 implies exists|i: int|
                0 <= i < ordered(counts, n).len() && #[trigger] ordered(counts, n)[i] == s by {
                let i = choose|i: int| 0 <= i < list.len() && #[trigger] list[i] == s;
                assert(ordered(counts, n)[i] == s);
            }
        }
    }
}

/// Each symbol that occurs makes the ordered list one longer.
pub proof fn lemma_ordered_step(counts: Seq<u64>, n: nat)
    requires
        n < 256,
    ensures
        ordered(counts, n + 1).len() == ordered(counts, n).len() + if counts[n as int] > 0 {
            1nat
        } else {
            0nat
        },
{
    lemma_ordered(counts, n);
    assert(by_count(counts, ordered(counts, n)));
    lemma_insert_at(counts, ordered(counts, n), counts[n as int]);
}

/// Occurrences in two lists together.
proof fn lemma_occurrences_append(a: Seq<Package>, b: Seq<Package>, s: u8)
    ensures
        occurrences(a + b, s) == occurrences(a, s) + occurrences(b, s),
    decreases b.len(),
{
    if b.len() == 0 {
        assert(a + b =~= a);
    } else {
        assert((a + b).drop_last() =~= a + b.drop_last());
        lemma_occurrences_append(a, b.drop_last(), s);
    }
}

/// Occurrences in two sequences of symbols together.
pub proof fn lemma_occurs_append(a: Seq<u8>, b: Seq<u8>, s: u8)
    ensures
        occurs(a + b, s) == occurs(a, s) + occurs(b, s),
    decreases b.len(),
{
    if b.len() == 0 {
        assert(a + b =~= a);
    } else {
        assert((a + b).drop_last() =~= a + b.drop_last());
        lemma_occurs_append(a, b.drop_last(), s);
    }
}

/// A longer part of a list has no fewer occurrences.
proof fn lemma_occurrences_monotone(list: Seq<Package>, a: int, b: int, s: u8)
    requires
        0 <= a <= b <= list.len(),
    ensures
        occurrences(list.take(a), s) <= occurrences(list.take(b), s),
{
    assert(list.take(b) =~= list.take(a) + list.subrange(a, b));
    lemma_occurrences_append(list.take(a), list.subrange(a, b), s);
}

/// The first pairs hold what the first packages hold.
proof fn lemma_pairs_occurrences(list: Seq<Package>, x: int, s: u8)
    requires
        0 <= x,
        2 * x <= list.len(),
    ensures
        occurrences(pairs(list).take(x), s) == occurrences(list.take(2 * x), s),
    decreases x,
{
    if x == 0 {
        assert(pairs(list).take(0).len() == 0);
        assert(list.take(0).len() == 0);
    } else {
        let y = x - 1;
        lemma_pairs_occurrences(list, y, s);
        let ps = pairs(list).take(x);
        assert(ps.drop_last() =~= pairs(list).take(y));
        assert(ps.last() == join(list[2 * y], list[2 * y + 1]));
        lemma_occurs_append(list[2 * y].syms, list[2 * y + 1].syms, s);
        let two = list.take(2 * x);
        assert(two.drop_last().drop_last() =~= list.take(2 * y));
        assert(two.last() == list[2 * y + 1]);
        assert(two.drop_last().last() == list[2 * y]);
        assert(occurrences(two.drop_last(), s) == occurrences(two.drop_last().drop_last(), s)
            + occurs(list[2 * y].syms, s));
    }
}

/// Packages by rising weight.
pub open spec fn by_weight(list: Seq<Package>) -> bool {
    forall|i: int, j: int|
        0 <= i <= j < list.len() ==> (#[trigger] list[i]).weight <= (#[trigger] list[j]).weight
}

/// All weights lie between two bounds.
pub open spec fn between(list: Seq<Package>, lo: nat, hi: nat) -> bool {
    forall|i: int| 0 <= i < list.len() ==> lo <= (#[trigger] list[i]).weight <= hi
}

/// How many of the first `k` packages of a merged list come from `p`.
pub open spec fn taken(p: Seq<Package>, l: Seq<Package>, k: nat) -> nat
    decreases p.len() + l.len(),
{
    if k == 0 || p.len() == 0 {
        0
    } else if l.len() == 0 {
        k
    } else if p[0].weight <= l[0].weight {
        1 + taken(p.skip(1), l, (k - 1) as nat)
    } else {
        taken(p, l.skip(1), (k - 1) as nat)
    }
}

/// Merging keeps all packages, and the weight bounds.
proof fn lemma_merge_between(p: Seq<Package>, l: Seq<Package>, lo: nat, hi: nat)
    requires
        between(p, lo, hi),
        between(l, lo, hi),
    ensures
        merge(p, l).len() == p.len() + l.len(),
        between(merge(p, l), lo, hi),
    decreases p.len() + l.len(),
{
    if p.len() > 0 && l.len() > 0 {
        if p[0].weight <= l[0].weight {
            assert(between(p.skip(1), lo, hi));
            lemma_merge_between(p.skip(1), l, lo, hi);
        } else {
            assert(between(l.skip(1), lo, hi));
            lemma_merge_between(p, l.skip(1), lo, hi);
        }
    }
}

/// The greatest weight of a sorted list is the last one's.
proof fn lemma_top(list: Seq<Package>, extra: nat) -> (hi: nat)
    requires
        by_weight(list),
    ensures
        hi >= extra,
        forall|i: int| 0 <= i < list.len() ==> (#[trigger] list[i]).weight <= hi,
{
    if list.len() == 0 || list.last().weight <= extra {
        extra
    } else {
        list.last().weight
    }
}

/// Merging sorted lists gives a sorted list.
proof fn lemma_merge_sorted(p: Seq<Package>, l: Seq<Package>)
    requires
        by_weight(p),
        by_weight(l),
    ensures
        by_weight(merge(p, l)),
        merge(p, l).len() == p.len() + l.len(),
    decreases p.len() + l.len(),
{
    if p.len() > 0 && l.len() > 0 {
        let top = lemma_top(l, 0);
        let hi = lemma_top(p, top);
        if p[0].weight <= l[0].weight {
            lemma_merge_sorted(p.skip(1), l);
            lemma_merge_between(p.skip(1), l, p[0].weight, hi);
        } else {
            lemma_merge_sorted(p, l.skip(1));
            lemma_merge_between(p, l.skip(1), l[0].weight, hi);
        }
    }
}

/// The first packages of a merged list are the first ones of both lists, and
/// the last one from `p` is not heavier than the next one from `l`.
proof fn lemma_merge_take(p: Seq<Package>, l: Seq<Package>, k: nat, s: u8)
    requires
        by_weight(l),
        k <= p.len() + l.len(),
    ensures
        merge(p, l).len() == p.len() + l.len(),
        taken(p, l, k) <= k,
        taken(p, l, k) <= p.len(),
        k - taken(p, l, k) <= l.len(),
        0 < taken(p, l, k) && k - taken(p, l, k) < l.len() ==> p[taken(p, l, k) - 1].weight <= l[k
            - taken(p, l, k)].weight,
        occurrences(merge(p, l).take(k as int), s) == occurrences(
            p.take(taken(p, l, k) as int),
            s,
        ) + occurrences(l.take(k - taken(p, l, k)), s),
    decreases p.len() + l.len(),
{
    let m = merge(p, l);
    let none = Seq::<Package>::empty();
    if p.len() == 0 {
        assert(p.take(0) =~= none);
    } else if l.len() == 0 {
        assert(l.take(0) =~= none);
        if k == 0 {
            assert(p.take(0) =~= none);
        }
    } else if k == 0 {
        assert(p.take(0) =~= none);
        assert(l.take(0) =~= none);
        assert(m.take(0) =~= none);
        if p[0].weight <= l[0].weight {
            lemma_merge_take(p.skip(1), l, 0, s);
        } else {
            assert(by_weight(l.skip(1)));
            lemma_merge_take(p, l.skip(1), 0, s);
        }
    } else if p[0].weight <= l[0].weight {
        let rest = merge(p.skip(1), l);
        let x = taken(p.skip(1), l, (k - 1) as nat) as int;
        lemma_merge_take(p.skip(1), l, (k - 1) as nat, s);
        assert(m.take(k as int) =~= seq![p[0]] + rest.take(k - 1));
        assert(p.take(x + 1) =~= seq![p[0]] + p.skip(1).take(x));
        lemma_occurrences_append(seq![p[0]], rest.take(k - 1), s);
        lemma_occurrences_append(seq![p[0]], p.skip(1).take(x), s);
    } else {
        let rest = merge(p, l.skip(1));
        let x = taken(p, l.skip(1), (k - 1) as nat) as int;
        assert(by_weight(l.skip(1)));
        lemma_merge_take(p, l.skip(1), (k - 1) as nat, s);
        assert(m.take(k as int) =~= seq![l[0]] + rest.take(k - 1));
        assert(l.take(k - x) =~= seq![l[0]] + l.skip(1).take(k - 1 - x));
        lemma_occurrences_append(seq![l[0]], rest.take(k - 1), s);
        lemma_occurrences_append(seq![l[0]], l.skip(1).take(k - 1 - x), s);
    }
}

/// The last package taken from `l` stands among the first `k` of the merged
/// list.
proof fn lemma_merge_find(p: Seq<Package>, l: Seq<Package>, k: nat) -> (q: int)
    requires
        by_weight(l),
        k <= p.len() + l.len(),
        k - taken(p, l, k) >= 1,
    ensures
        0 <= q < k,
        merge(p, l)[q] == l[k - taken(p, l, k) - 1],
    decreases p.len() + l.len(),
{
    if p.len() == 0 {
        k - 1
    } else if l.len() == 0 {
        0
    } else if p[0].weight <= l[0].weight {
        lemma_merge_take(p.skip(1), l, (k - 1) as nat, 0);
        let q = lemma_merge_find(p.skip(1), l, (k - 1) as nat);
        q + 1
    } else {
        assert(by_weight(l.skip(1)));
        lemma_merge_take(p, l.skip(1), (k - 1) as nat, 0);
        if k - 1 - taken(p, l.skip(1), (k - 1) as nat) >= 1 {
            let q = lemma_merge_find(p, l.skip(1), (k - 1) as nat);
            q + 1
        } else {
            0
        }
    }
}

/// Leaves by rising weight, none of them without weight.
pub open spec fn leaf_list(lv: Seq<Package>) -> bool {
    by_weight(lv) && forall|i: int| 0 <= i < lv.len() ==> (#[trigger] lv[i]).weight >= 1
}

/// Pairs of a sorted list are sorted.
pub proof fn lemma_pairs_sorted(list: Seq<Package>)
    requires
        by_weight(list),
    ensures
        by_weight(pairs(list)),
{
    let ps = pairs(list);
    assert forall|i: int, j: int| 0 <= i <= j < ps.len() implies (#[trigger] ps[i]).weight <= (
    #[trigger] ps[j]).weight by {
        assert(list[2 * i].weight <= list[2 * j].weight);
        assert(list[2 * i + 1].weight <= list[2 * j + 1].weight);
    }
}

/// Every level is sorted and has no weightless package.
pub proof fn lemma_level_sorted(lv: Seq<Package>, j: nat)
    requires
        leaf_list(lv),
    ensures
        leaf_list(level(lv, j)),
        j >= 1 ==> level(lv, j).len() == lv.len() + level(lv, (j - 1) as nat).len() / 2,
    decreases j,
{
    if j >= 1 {
        let prev = level(lv, (j - 1) as nat);
        lemma_level_sorted(lv, (j - 1) as nat);
        lemma_pairs_sorted(prev);
        lemma_merge_sorted(pairs(prev), lv);
        let top = lemma_top(lv, 0);
        let hi = lemma_top(pairs(prev), top);
        assert(between(pairs(prev), 1, hi));
        assert(between(lv, 1, hi));
        lemma_merge_between(pairs(prev), lv, 1, hi);
        assert(between(level(lv, j), 1, hi));
    }
}

/// Weights at most double from one level to the next.
proof fn lemma_level_weight(lv: Seq<Package>, j: nat, hi: nat)
    requires
        between(lv, 0, hi),
    ensures
        between(level(lv, j), 0, hi * pow2(j)),
    decreases j,
{
    if j == 0 {
        lemma2_to64();
    } else {
        let m = (j - 1) as nat;
        let prev = level(lv, m);
        lemma_level_weight(lv, m, hi);
        lemma_pow2_unfold(j);
        lemma_pow2_pos(m);
        let a = hi as int;
        let q = pow2(m) as int;
        assert(2 * (a * q) == a * (2 * q)) by (nonlinear_arith);
        assert(a <= a * (2 * q)) by (nonlinear_arith)
            requires
                0 <= a,
                1 <= q,
        ;
        assert(between(pairs(prev), 0, hi * pow2(j)));
        assert(between(lv, 0, hi * pow2(j)));
        lemma_merge_between(pairs(prev), lv, 0, hi * pow2(j));
    }
}

/// The last level is long enough: its length falls short of twice the number
/// of leaves by at most `c` if there are at most `c` times 2^j leaves.
proof fn lemma_level_len(lv: Seq<Package>, j: nat, c: nat)
    requires
        leaf_list(lv),
        c >= 1,
        lv.len() <= c * pow2(j),
    ensures
        level(lv, j).len() + c >= 2 * lv.len(),
    decreases j,
{
    if j == 0 {
        lemma2_to64();
    } else {
        let m = (j - 1) as nat;
        lemma_pow2_unfold(j);
        let a = c as int;
        let q = pow2(m) as int;
        assert(a * (2 * q) == (2 * a) * q) by (nonlinear_arith);
        lemma_level_len(lv, m, 2 * c);
        lemma_level_sorted(lv, j);
    }
}

/// How many of the first `t` packages of level `j` are pairs.
spec fn pairs_in(lv: Seq<Package>, j: nat, t: nat) -> nat {
    if j == 0 {
        0
    } else {
        taken(pairs(level(lv, (j - 1) as nat)), lv, t)
    }
}

/// How many of the first `t` packages of level `j` are leaves.
spec fn leaves_in(lv: Seq<Package>, j: nat, t: nat) -> int {
    t - pairs_in(lv, j, t)
}

/// How often leaf `i` occurs in the first `t` packages of level `j`.
spec fn hits(lv: Seq<Package>, j: nat, t: nat, i: int) -> nat
    decreases j,
{
    (if i < leaves_in(lv, j, t) {
        1nat
    } else {
        0nat
    }) + if j == 0 {
        0
    } else {
        hits(lv, (j - 1) as nat, 2 * pairs_in(lv, j, t), i)
    }
}

/// The first packages of a level are its first leaves and the first pairs of
/// the level before.
proof fn lemma_parts(lv: Seq<Package>, j: nat, t: nat)
    requires
        leaf_list(lv),
        t <= level(lv, j).len(),
    ensures
        0 <= leaves_in(lv, j, t) <= lv.len(),
        j >= 1 ==> 2 * pairs_in(lv, j, t) <= level(lv, (j - 1) as nat).len(),
{
    if j >= 1 {
        lemma_level_sorted(lv, j);
        lemma_merge_take(pairs(level(lv, (j - 1) as nat)), lv, t, 0);
    }
}

/// What the first packages of a level hold of a leaf's symbol.
proof fn lemma_hits_occurrences(lv: Seq<Package>, j: nat, t: nat, i: int)
    requires
        leaf_list(lv),
        t <= level(lv, j).len(),
        0 <= i < lv.len(),
        forall|k: int| 0 <= k < lv.len() ==> (#[trigger] lv[k]).syms.len() == 1,
        forall|k: int, m: int|
            0 <= k < m < lv.len() ==> (#[trigger] lv[k]).syms[0] != (#[trigger] lv[m]).syms[0],
    ensures
        occurrences(level(lv, j).take(t as int), lv[i].syms[0]) == hits(lv, j, t, i),
    decreases j,
{
    let s = lv[i].syms[0];
    lemma_parts(lv, j, t);
    if j == 0 {
        lemma_leaf_occurrences(lv, t as int, i);
    } else {
        let prev = level(lv, (j - 1) as nat);
        let x = pairs_in(lv, j, t);
        lemma_level_sorted(lv, j);
        lemma_merge_take(pairs(prev), lv, t, s);
        lemma_pairs_occurrences(prev, x as int, s);
        lemma_leaf_occurrences(lv, t - x, i);
        lemma_hits_occurrences(lv, (j - 1) as nat, 2 * x, i);
    }
}

/// A symbol's leaf is among the first `y` leaves or it is not.
proof fn lemma_leaf_occurrences(lv: Seq<Package>, y: int, i: int)
    requires
        0 <= y <= lv.len(),
        0 <= i < lv.len(),
        forall|k: int| 0 <= k < lv.len() ==> (#[trigger] lv[k]).syms.len() == 1,
        forall|k: int, m: int|
            0 <= k < m < lv.len() ==> (#[trigger] lv[k]).syms[0] != (#[trigger] lv[m]).syms[0],
    ensures
        occurrences(lv.take(y), lv[i].syms[0]) == (if i < y {
            1nat
        } else {
            0nat
        }),
    decreases y,
{
    let s = lv[i].syms[0];
    if y == 0 {
        assert(lv.take(0).len() == 0);
    } else {
        lemma_leaf_occurrences(lv, y - 1, i);
        let l = lv.take(y);
        assert(l.drop_last() =~= lv.take(y - 1));
        assert(l.last() == lv[y - 1]);
        let one = lv[y - 1].syms;
        assert(one.len() == 1);
        assert(one.drop_last().len() == 0);
        assert(occurs(one.drop_last(), s) == 0);
        assert(occurs(one, s) == if one[0] == s {
            1nat
        } else {
            0nat
        });
        if i < y - 1 {
            assert(lv[i].syms[0] != lv[y - 1].syms[0]);
        } else if i > y - 1 {
            assert(lv[y - 1].syms[0] != lv[i].syms[0]);
        }
    }
}

/// A leaf that is bought at one level is bought at the next one.
proof fn lemma_leaves_rise(lv: Seq<Package>, j: nat, t: nat)
    requires
        leaf_list(lv),
        j >= 1,
        t <= level(lv, j).len(),
    ensures
        leaves_in(lv, (j - 1) as nat, 2 * pairs_in(lv, j, t)) <= leaves_in(lv, j, t),
{
    let m = (j - 1) as nat;
    let prev = level(lv, m);
    let ps = pairs(prev);
    let x = pairs_in(lv, j, t);
    let y = leaves_in(lv, j, t);
    let z = leaves_in(lv, m, 2 * x);
    lemma_parts(lv, j, t);
    lemma_parts(lv, m, 2 * x);
    if z >= 1 && y < lv.len() {
        lemma_level_sorted(lv, m);
        lemma_level_sorted(lv, j);
        lemma_pairs_sorted(prev);
        lemma_merge_take(ps, lv, t, 0);
        let q = if m == 0 {
            z - 1
        } else {
            lemma_merge_find(pairs(level(lv, (m - 1) as nat)), lv, 2 * x)
        };
        assert(prev[q] == lv[z - 1]);
        assert(0 <= q < 2 * x);
        let h = q / 2;
        assert(ps[h] == join(prev[2 * h], prev[2 * h + 1]));
        assert(prev[2 * h].weight >= 1 && prev[2 * h + 1].weight >= 1);
        assert(q == 2 * h || q == 2 * h + 1);
        assert(ps[h].weight > lv[z - 1].weight);
        assert(ps[h].weight <= ps[x - 1].weight);
        assert(lv[z - 1].weight < lv[y].weight);
        if z - 1 >= y {
            assert(lv[y].weight <= lv[z - 1].weight);
        }
    }
}

/// A leaf occurs at most once per level, and occurs at all only if it is
/// among the leaves of the level itself.
proof fn lemma_hits_bound(lv: Seq<Package>, j: nat, t: nat, i: int)
    requires
        leaf_list(lv),
        t <= level(lv, j).len(),
    ensures
        hits(lv, j, t, i) <= j + 1,
        hits(lv, j, t, i) > 0 <==> i < leaves_in(lv, j, t),
    decreases j,
{
    if j >= 1 {
        lemma_parts(lv, j, t);
        lemma_leaves_rise(lv, j, t);
        lemma_hits_bound(lv, (j - 1) as nat, 2 * pairs_in(lv, j, t), i);
    }
}

/// The sum of 2^(j+1) - 2^(j+1-h) over the first `n` leaves, `h` being how
/// often a leaf occurs.
spec fn saved(lv: Seq<Package>, j: nat, t: nat, n: nat) -> int
    decreases n,
{
    if n == 0 {
        0
    } else {
        saved(lv, j, t, (n - 1) as nat) + pow2(j + 1) - pow2(
            (j + 1 - hits(lv, j, t, n - 1)) as nat,
        )
    }
}

/// One level's part of the sum.
proof fn lemma_saved_step(lv: Seq<Package>, j: nat, t: nat, n: nat)
    requires
        leaf_list(lv),
        t <= level(lv, j).len(),
    ensures
        j == 0 ==> saved(lv, j, t, n) == (if n < leaves_in(lv, j, t) {
            n as int
        } else {
            leaves_in(lv, j, t)
        }),
        j >= 1 ==> saved(lv, j, t, n) == (if n < leaves_in(lv, j, t) {
            n as int
        } else {
            leaves_in(lv, j, t)
        }) * pow2(j) + saved(lv, (j - 1) as nat, 2 * pairs_in(lv, j, t), n),
    decreases n,
{
    let y = leaves_in(lv, j, t);
    lemma_parts(lv, j, t);
    lemma2_to64();
    let q = pow2(j) as int;
    if n == 0 {
        lemma_mul_basics_1(q);
    } else {
        let m = (n - 1) as nat;
        lemma_saved_step(lv, j, t, m);
        lemma_hits_bound(lv, j, t, m as int);
        lemma_pow2_unfold(j + 1);
        let h = hits(lv, j, t, m as int);
        if j == 0 {
            assert(pow2((j + 1 - h) as nat) == if m < y {
                1nat
            } else {
                2nat
            });
        } else {
            let k = (j - 1) as nat;
            let t1 = 2 * pairs_in(lv, j, t);
            let h1 = hits(lv, k, t1, m as int);
            lemma_leaves_rise(lv, j, t);
            lemma_hits_bound(lv, k, t1, m as int);
            assert((k + 1) as nat == j);
            if m < y {
                assert(h == h1 + 1);
                assert((j + 1 - h) as nat == (k + 1 - h1) as nat);
                assert((m + 1) * q == m * q + q) by (nonlinear_arith);
            } else {
                assert(h == 0 && h1 == 0);
            }
        }
    }
}

/// The sum over all leaves is fixed by the number of packages bought.
proof fn lemma_saved_total(lv: Seq<Package>, j: nat, t: nat)
    requires
        leaf_list(lv),
        t <= level(lv, j).len(),
    ensures
        saved(lv, j, t, lv.len()) == t * pow2(j),
    decreases j,
{
    lemma_parts(lv, j, t);
    lemma_saved_step(lv, j, t, lv.len());
    lemma2_to64();
    if j >= 1 {
        let k = (j - 1) as nat;
        let x = pairs_in(lv, j, t) as int;
        let y = leaves_in(lv, j, t);
        lemma_saved_total(lv, k, 2 * pairs_in(lv, j, t));
        lemma_pow2_unfold(j);
        let p = pow2(k) as int;
        let tt = t as int;
        assert(y * (2 * p) + (2 * x) * p == tt * (2 * p)) by (nonlinear_arith)
            requires
                y + x == tt,
        ;
    }
}

/// The Kraft sum of the first `n` symbols in units of 2^-limit; symbols of
/// length zero do not count.
pub open spec fn kraft_sum(lengths: Seq<u8>, limit: nat, n: nat) -> nat
    decreases n,
{
    if n == 0 {
        0
    } else {
        kraft_sum(lengths, limit, (n - 1) as nat) + if lengths[n - 1] > 0 {
            pow2((limit - lengths[n - 1]) as nat)
        } else {
            0
        }
    }
}

/// The same sum over the symbols of a list.
pub open spec fn list_sum(list: Seq<u8>, lengths: Seq<u8>, limit: nat) -> nat
    decreases list.len(),
{
    if list.len() == 0 {
        0
    } else {
        list_sum(list.drop_last(), lengths, limit) + pow2(
            (limit - lengths[list.last() as int]) as nat,
        )
    }
}

proof fn lemma_list_sum_append(a: Seq<u8>, b: Seq<u8>, lengths: Seq<u8>, limit: nat)
    ensures
        list_sum(a + b, lengths, limit) == list_sum(a, lengths, limit) + list_sum(
            b,
            lengths,
            limit,
        ),
    decreases b.len(),
{
    if b.len() == 0 {
        assert(a + b =~= a);
    } else {
        assert((a + b).drop_last() =~= a + b.drop_last());
        lemma_list_sum_append(a, b.drop_last(), lengths, limit);
    }
}

/// The sum over the ordered symbols is the sum over all symbols.
pub proof fn lemma_list_sum_ordered(counts: Seq<u64>, lengths: Seq<u8>, limit: nat, n: nat)
    requires
        n <= 256,
        forall|s: int| 0 <= s < n ==> (#[trigger] lengths[s] > 0 <==> counts[s] > 0),
    ensures
        list_sum(ordered(counts, n), lengths, limit) == kraft_sum(lengths, limit, n),
    decreases n,
{
    if n > 0 {
        let m = (n - 1) as nat;
        lemma_list_sum_ordered(counts, lengths, limit, m);
        let list = ordered(counts, m);
        let v = (n - 1) as u8;
        assert(lengths[n - 1] > 0 <==> counts[n - 1] > 0);
        if counts[n - 1] > 0 {
            lemma_ordered(counts, m);
            assert(by_count(counts, list));
            lemma_insert_at(counts, list, counts[n - 1]);
            let k = insert_at(counts, list, counts[n - 1]) as int;
            let head = list.take(k);
            let tail = list.skip(k);
            assert(list =~= head + tail);
            assert(list.insert(k, v) =~= (head + seq![v]) + tail);
            lemma_list_sum_append(head, tail, lengths, limit);
            lemma_list_sum_append(head + seq![v], tail, lengths, limit);
            lemma_list_sum_append(head, seq![v], lengths, limit);
            assert(seq![v].drop_last() =~= Seq::<u8>::empty());
            assert(list_sum(Seq::<u8>::empty(), lengths, limit) == 0);
            assert(list_sum(seq![v], lengths, limit) == pow2((limit - lengths[n - 1]) as nat));
        }
    }
}

/// The leaves of a histogram are a sorted list of distinct symbols.
pub proof fn lemma_leaves(counts: Seq<u64>)
    ensures
        leaf_list(leaves(counts)),
        leaves(counts).len() == used(counts) <= 256,
        between(leaves(counts), 0, u64::MAX as nat),
        forall|k: int|
            0 <= k < used(counts) ==> (#[trigger] leaves(counts)[k]).syms.len() == 1
                && leaves(counts)[k].syms[0] == ordered(counts, 256)[k],
        forall|k: int, m: int|
            0 <= k < m < used(counts) ==> (#[trigger] leaves(counts)[k]).syms[0] != (
            #[trigger] leaves(counts)[m]).syms[0],
{
    lemma_ordered(counts, 256);
    let lv = leaves(counts);
    let list = ordered(counts, 256);
    assert forall|i: int, j: int| 0 <= i <= j < lv.len() implies (#[trigger] lv[i]).weight <= (
    #[trigger] lv[j]).weight by {
        assert(counts[list[i] as int] <= counts[list[j] as int]);
    }
    assert forall|k: int, m: int| 0 <= k < m < lv.len() implies (#[trigger] lv[k]).syms[0] != (
    #[trigger] lv[m]).syms[0] by {
        assert(list[k] != list[m]);
    }
}

/// A symbol that does not occur is in no package.
proof fn lemma_absent(lv: Seq<Package>, j: nat, t: int, s: u8)
    requires
        leaf_list(lv),
        0 <= t <= level(lv, j).len(),
        occurrences(lv, s) == 0,
    ensures
        occurrences(level(lv, j).take(t), s) == 0,
    decreases j,
{
    if j == 0 {
        lemma_occurrences_monotone(lv, t, lv.len() as int, s);
        assert(lv.take(lv.len() as int) =~= lv);
    } else {
        let prev = level(lv, (j - 1) as nat);
        let x = pairs_in(lv, j, t as nat);
        lemma_level_sorted(lv, j);
        lemma_parts(lv, j, t as nat);
        lemma_merge_take(pairs(prev), lv, t as nat, s);
        lemma_pairs_occurrences(prev, x as int, s);
        lemma_absent(lv, (j - 1) as nat, 2 * x as int, s);
        lemma_occurrences_monotone(lv, t - x, lv.len() as int, s);
        assert(lv.take(lv.len() as int) =~= lv);
    }
}

/// A symbol that is not listed has no leaf.
proof fn lemma_unlisted(counts: Seq<u64>, list: Seq<u8>, s: u8)
    requires
        forall|i: int| 0 <= i < list.len() ==> #[trigger] list[i] != s,
    ensures
        occurrences(singles(counts, list), s) == 0,
    decreases list.len(),
{
    if list.len() > 0 {
        let lv = singles(counts, list);
        assert(lv.drop_last() =~= singles(counts, list.drop_last()));
        lemma_unlisted(counts, list.drop_last(), s);
        let one = lv.last().syms;
        assert(one =~= seq![list.last()]);
        assert(one.drop_last().len() == 0);
        assert(occurs(one.drop_last(), s) == 0);
        assert(one.last() == list[list.len() - 1]);
    }
}

/// The sum over the first `n` leaves of 2^(j+1-h), `h` being how often a leaf
/// occurs.
proof fn lemma_saved_list(
    counts: Seq<u64>,
    lengths: Seq<u8>,
    j: nat,
    t: nat,
    n: nat,
)
    requires
        n <= used(counts),
        t <= level(leaves(counts), j).len(),
        forall|i: int|
            0 <= i < used(counts) ==> lengths[#[trigger] ordered(counts, 256)[i] as int] == hits(
                leaves(counts),
                j,
                t,
                i,
            ),
    ensures
        list_sum(ordered(counts, 256).take(n as int), lengths, j + 1) + saved(
            leaves(counts),
            j,
            t,
            n,
        ) == n * pow2(j + 1),
    decreases n,
{
    let list = ordered(counts, 256);
    if n == 0 {
        assert(list.take(0).len() == 0);
        lemma_mul_basics_1(pow2(j + 1) as int);
    } else {
        let m = (n - 1) as nat;
        lemma_saved_list(counts, lengths, j, t, m);
        assert(list.take(n as int).drop_last() =~= list.take(m as int));
        assert(list.take(n as int).last() == list[m as int]);
        let q = pow2(j + 1) as int;
        assert((m + 1) * q == m * q + q) by (nonlinear_arith);
    }
}

/// Package-merge gives a complete prefix code: each symbol that occurs gets a
/// length of at least one and at most the limit, no other symbol gets one,
/// and the lengths fill the code space exactly.
pub proof fn law_lengths_complete(counts: Seq<u64>, limit: nat)
    requires
        counts.len() == 256,
        used(counts) >= 2,
        used(counts) <= pow2(limit),
        limit <= 255,
    ensures
        limit >= 1,
        2 * used(counts) - 2 <= level(leaves(counts), (limit - 1) as nat).len(),
        forall|s: u8| #[trigger] occurrences(bought(counts, limit), s) <= limit,
        ({
            let lengths = lengths_outcome(counts, limit)->Ok_0;
            &&& lengths_outcome(counts, limit) is Ok
            &&& forall|s: int| 0 <= s < 256 ==> (#[trigger] lengths[s] > 0 <==> counts[s] > 0)
            &&& forall|s: int| 0 <= s < 256 ==> #[trigger] lengths[s] <= limit
            &&& kraft_sum(lengths, limit, 256) == pow2(limit)
        }),
{
    lemma2_to64();
    let lv = leaves(counts);
    let n = used(counts);
    let list = ordered(counts, 256);
    lemma_leaves(counts);
    lemma_ordered(counts, 256);
    let j = (limit - 1) as nat;
    let t = (2 * n - 2) as nat;
    lemma_pow2_unfold(limit);
    lemma_level_len(lv, j, 2);
    assert forall|s: u8| #[trigger] occurrences(bought(counts, limit), s) <= limit && (counts[s as int]
        == 0 ==> occurrences(bought(counts, limit), s) == 0) by {
        if counts[s as int] > 0 {
            let i = choose|i: int| 0 <= i < list.len() && #[trigger] list[i] == s as int;
            assert(lv[i].syms[0] == s);
            lemma_hits_occurrences(lv, j, t, i);
            lemma_hits_bound(lv, j, t, i);
        } else {
            assert forall|i: int| 0 <= i < list.len() implies #[trigger] list[i] != s by {}
            lemma_unlisted(counts, list, s);
            lemma_absent(lv, j, t as int, s);
        }
    }
    let lengths = lengths_outcome(counts, limit)->Ok_0;
    assert forall|s: int| 0 <= s < 256 implies #[trigger] lengths[s] == occurrences(
        bought(counts, limit),
        s as u8,
    ) by {}
    assert forall|i: int| 0 <= i < n implies lengths[#[trigger] list[i] as int] == hits(
        lv,
        j,
        t,
        i,
    ) by {
        assert(lv[i].syms[0] == list[i]);
        lemma_hits_occurrences(lv, j, t, i);
    }
    lemma_saved_total(lv, j, t);
    lemma_saved_list(counts, lengths, j, t, n);
    assert(list.take(n as int) =~= list);
    let p = pow2(j) as int;
    let nn = n as int;
    assert(nn * (2 * p) - (2 * nn - 2) * p == 2 * p) by (nonlinear_arith);
    assert(list_sum(list, lengths, limit) == pow2(limit));
    assert forall|s: int| 0 <= s < 256 implies (#[trigger] lengths[s] > 0 <==> counts[s] > 0) by {
        if counts[s] > 0 && lengths[s] == 0 {
            let i = choose|i: int| 0 <= i < list.len() && #[trigger] list[i] == s;
            lemma_two_units(list, lengths, limit, i);
        }
    }
    lemma_list_sum_ordered(counts, lengths, limit, 256);
}

/// A leaf further down the list occurs no more often.
proof fn lemma_hits_fall(lv: Seq<Package>, j: nat, t: nat, i: int, k: int)
    requires
        i <= k,
    ensures
        hits(lv, j, t, k) <= hits(lv, j, t, i),
    decreases j,
{
    if j > 0 {
        lemma_hits_fall(lv, (j - 1) as nat, 2 * pairs_in(lv, j, t), i, k);
    }
}

/// Along the ordered list the code lengths do not rise.
pub proof fn lemma_lengths_fall(counts: Seq<u64>, limit: nat, i: int, k: int)
    requires
        counts.len() == 256,
        used(counts) >= 2,
        used(counts) <= pow2(limit),
        limit <= 255,
        0 <= i <= k < used(counts),
    ensures
        lengths_outcome(counts, limit) is Ok,
        ({
            let lengths = lengths_outcome(counts, limit)->Ok_0;
            let list = ordered(counts, 256);
            lengths[list[k] as int] <= lengths[list[i] as int]
        }),
{
    law_lengths_complete(counts, limit);
    let lv = leaves(counts);
    let list = ordered(counts, 256);
    let j = (limit - 1) as nat;
    let t = (2 * used(counts) - 2) as nat;
    lemma_leaves(counts);
    lemma_hits_occurrences(lv, j, t, i);
    lemma_hits_occurrences(lv, j, t, k);
    lemma_hits_fall(lv, j, t, i, k);
    assert(occurrences(bought(counts, limit), list[i]) <= limit);
    assert(occurrences(bought(counts, limit), list[k]) <= limit);
}

/// A list of two or more symbols, one of which has length zero, overfills the
/// code space.
proof fn lemma_two_units(list: Seq<u8>, lengths: Seq<u8>, limit: nat, i: int)
    requires
        list.len() >= 2,
        0 <= i < list.len(),
        lengths[list[i] as int] == 0,
    ensures
        list_sum(list, lengths, limit) > pow2(limit),
{
    let a = list.take(i);
    let b = list.skip(i + 1);
    let one = seq![list[i]];
    assert(list =~= (a + one) + b);
    lemma_list_sum_append(a + one, b, lengths, limit);
    lemma_list_sum_append(a, one, lengths, limit);
    assert(one.drop_last() =~= Seq::<u8>::empty());
    assert(list_sum(Seq::<u8>::empty(), lengths, limit) == 0);
    assert(list_sum(one, lengths, limit) == pow2(limit));
    if a.len() > 0 {
        lemma_pow2_pos((limit - lengths[a.last() as int]) as nat);
    } else {
        lemma_pow2_pos((limit - lengths[b.last() as int]) as nat);
    }
}

/// The descriptor of a plane with the given code lengths: unused symbols are
/// marked as such.
pub open spec fn descriptor_of(lengths: Seq<u8>) -> Seq<u8> {
    Seq::new(
        256,
        |s: int|
            if lengths[s] > 0 {
                lengths[s]
            } else {
                255u8
            },
    )
}

proof fn lemma_descriptor_space(lengths: Seq<u8>, limit: nat, n: nat)
    requires
        n <= 256,
        limit <= 32,
        forall|s: int| 0 <= s < 256 ==> #[trigger] lengths[s] <= limit,
    ensures
        canonical::space(descriptor_of(lengths), 0, n) == kraft_sum(lengths, limit, n) * pow2(
            (32 - limit) as nat,
        ),
    decreases n,
{
    let u = pow2((32 - limit) as nat) as int;
    if n == 0 {
        lemma_mul_basics_1(u);
    } else {
        lemma_descriptor_space(lengths, limit, (n - 1) as nat);
        let l = lengths[n - 1];
        assert(l <= limit);
        if l > 0 {
            let a = kraft_sum(lengths, limit, (n - 1) as nat) as int;
            let b = pow2((limit - l) as nat) as int;
            lemma_pow2_adds((limit - l) as nat, (32 - limit) as nat);
            assert((a + b) * u == a * u + b * u) by (nonlinear_arith);
        }
    }
}

/// The lengths that package-merge gives make a descriptor of a complete
/// prefix code.
pub proof fn law_descriptor_complete(counts: Seq<u64>, limit: nat)
    requires
        counts.len() == 256,
        used(counts) >= 2,
        used(counts) <= pow2(limit),
        limit <= 32,
    ensures
        lengths_outcome(counts, limit) is Ok,
        canonical::shape(descriptor_of(lengths_outcome(counts, limit)->Ok_0)) == Ok::<
            canonical::Shape,
            Error,
        >(canonical::Shape::Coded),
        forall|s: int|
            0 <= s < 256 ==> (canonical::is_active(
                #[trigger] descriptor_of(lengths_outcome(counts, limit)->Ok_0)[s],
            ) <==> counts[s] > 0),
{
    law_lengths_complete(counts, limit);
    let lengths = lengths_outcome(counts, limit)->Ok_0;
    let d = descriptor_of(lengths);
    lemma_descriptor_space(lengths, limit, 256);
    lemma_pow2_adds(limit, (32 - limit) as nat);
    canonical::lemma_deeper_is_space(d, 0);
    assert forall|s: int| 0 <= s < 256 implies (canonical::is_active(#[trigger] d[s])
        <==> counts[s] > 0) && d[s] != 0 && (canonical::is_active(d[s]) ==> d[s] <= 32) by {
        assert(lengths[s] > 0 <==> counts[s] > 0);
        assert(lengths[s] <= limit);
    }
    assert(canonical::within_limit(d));
    assert(canonical::count(d, 0) == 0) by {
        if canonical::count(d, 0) > 0 {
            let s = canonical::lemma_rank_find(d, 0, 0);
            assert(d[s] != 0);
        }
    }
    lemma_ordered(counts, 256);
    let s = ordered(counts, 256)[0] as int;
    assert(canonical::is_active(d[s]));
}

/// Joins neighbours two by two.
fn pair_up(prev: &Vec<Node>) -> (out: Vec<Node>)
    requires
        between(packages(prev@), 0, 0x4000_0000_0000_0000_0000_0000_0000_0000),
    ensures
        packages(out@) == pairs(packages(prev@)),
{
    let ghost all = packages(prev@);
    let mut out: Vec<Node> = Vec::new();
    let total: usize = prev.len();
    let half: usize = total / 2;
    let mut i: usize = 0;
    while i < half
        invariant
            i <= half,
            half == total / 2,
            total == prev@.len(),
            all == packages(prev@),
            between(all, 0, 0x4000_0000_0000_0000_0000_0000_0000_0000),
            packages(out@) == pairs(all).take(i as int),
        decreases half - i,
    {
        let a: &Node = &prev[2 * i];
        let b: &Node = &prev[2 * i + 1];
        proof {
            assert(all[2 * i] == a.package());
            assert(all[2 * i + 1] == b.package());
        }
        let mut syms: Vec<u8> = bytes::copy_bytes(a.syms.as_slice());
        bytes::push_bytes(&mut syms, b.syms.as_slice());
        let n = Node { weight: a.weight + b.weight, syms };
        let ghost was = out@;
        out.push(n);
        proof {
            assert(packages(out@) =~= packages(was).push(n.package()));
            assert(pairs(all).take(i + 1) =~= pairs(all).take(i as int).push(pairs(all)[i as int]));
        }
        i = i + 1;
    }
    proof {
        assert(pairs(all).take(half as int) =~= pairs(all));
    }
    out
}

/// Merges two lists by weight.
fn merge_nodes(p: &Vec<Node>, l: &Vec<Node>) -> (out: Vec<Node>)
    ensures
        packages(out@) == merge(packages(p@), packages(l@)),
{
    let ghost ps = packages(p@);
    let ghost ls = packages(l@);
    let mut out: Vec<Node> = Vec::new();
    let mut i: usize = 0;
    let mut k: usize = 0;
    proof {
        assert(ps.skip(0) =~= ps);
        assert(ls.skip(0) =~= ls);
        assert(packages(out@) + merge(ps, ls) =~= merge(ps, ls));
    }
    while i < p.len() || k < l.len()
        invariant
            i <= p@.len(),
            k <= l@.len(),
            ps == packages(p@),
            ls == packages(l@),
            packages(out@) + merge(ps.skip(i as int), ls.skip(k as int)) == merge(ps, ls),
        decreases p@.len() - i + l@.len() - k,
    {
        let ghost was = out@;
        let ghost pr = ps.skip(i as int);
        let ghost lr = ls.skip(k as int);
        let from_p: bool = k >= l.len() || (i < p.len() && p[i].weight <= l[k].weight);
        if from_p {
            out.push(p[i].copy());
            proof {
                assert(pr[0] == ps[i as int]);
                assert(pr.skip(1) =~= ps.skip(i + 1));
                assert(packages(out@) =~= packages(was) + seq![pr[0]]);
                if lr.len() == 0 {
                    assert(pr =~= seq![pr[0]] + pr.skip(1));
                    if pr.skip(1).len() == 0 {
                        assert(lr =~= pr.skip(1));
                    }
                }
                assert(merge(pr, lr) =~= seq![pr[0]] + merge(pr.skip(1), lr));
            }
            i = i + 1;
        } else {
            out.push(l[k].copy());
            proof {
                assert(lr[0] == ls[k as int]);
                assert(lr.skip(1) =~= ls.skip(k + 1));
                assert(packages(out@) =~= packages(was) + seq![lr[0]]);
                if pr.len() == 0 {
                    assert(lr =~= seq![lr[0]] + lr.skip(1));
                }
                assert(merge(pr, lr) =~= seq![lr[0]] + merge(pr, lr.skip(1)));
            }
            k = k + 1;
        }
        proof {
            assert(packages(out@) + merge(ps.skip(i as int), ls.skip(k as int)) =~= packages(was)
                + merge(pr, lr));
        }
    }
    proof {
        assert(merge(ps.skip(i as int), ls.skip(k as int)) =~= Seq::<Package>::empty());
    }
    out
}

/// Each listed symbol as a package of its own.
fn single_nodes(counts: &[u64; 256], list: &Vec<u8>) -> (out: Vec<Node>)
    ensures
        packages(out@) == singles(counts@, list@),
{
    let mut out: Vec<Node> = Vec::new();
    let mut i: usize = 0;
    while i < list.len()
        invariant
            i <= list@.len(),
            packages(out@) == singles(counts@, list@.take(i as int)),
        decreases list@.len() - i,
    {
        let s: u8 = list[i];
        let mut syms: Vec<u8> = Vec::new();
        syms.push(s);
        let n = Node { weight: counts[s as usize] as u128, syms };
        let ghost was = out@;
        out.push(n);
        proof {
            assert(syms@ =~= seq![s]);
            assert(packages(out@) =~= packages(was).push(n.package()));
            assert(packages(out@) =~= singles(counts@, list@.take(i + 1)));
        }
        i = i + 1;
    }
    proof {
        assert(list@.take(list@.len() as int) =~= list@);
    }
    out
}

/// The level after `rounds` rounds of pairing and merging.
fn run_levels(leaf_nodes: &Vec<Node>, rounds: u8) -> (out: Vec<Node>)
    requires
        rounds < 63,
        leaf_list(packages(leaf_nodes@)),
        between(packages(leaf_nodes@), 0, u64::MAX as nat),
        leaf_nodes@.len() <= 256,
    ensures
        packages(out@) == level(packages(leaf_nodes@), rounds as nat),
{
    let ghost lv = packages(leaf_nodes@);
    let nothing: Vec<Node> = Vec::new();
    let mut cur: Vec<Node> = merge_nodes(&nothing, leaf_nodes);
    let mut j: u8 = 0;
    while j < rounds
        invariant
            j <= rounds < 63,
            lv == packages(leaf_nodes@),
            leaf_list(lv),
            between(lv, 0, u64::MAX as nat),
            leaf_nodes@.len() <= 256,
            packages(cur@) == level(lv, j as nat),
        decreases rounds - j,
    {
        proof {
            lemma_level_weight(lv, j as nat, u64::MAX as nat);
            lemma2_to64_rest();
            lemma2_to64();
            if j < 62 {
                lemma_pow2_strictly_increases(j as nat, 62);
            }
            let a = u64::MAX as int;
            let q = pow2(j as nat) as int;
            assert(a * q <= 0x1_0000_0000_0000_0000 * 0x4000_0000_0000_0000) by (nonlinear_arith)
                requires
                    0 <= a <= 0x1_0000_0000_0000_0000,
                    0 <= q <= 0x4000_0000_0000_0000,
            ;
        }
        let paired: Vec<Node> = pair_up(&cur);
        cur = merge_nodes(&paired, leaf_nodes);
        j = j + 1;
    }
    cur
}

/// Counts how often each symbol occurs in the first `take` packages.
fn count_symbols(nodes: &Vec<Node>, take: usize) -> (counts: Vec<u8>)
    requires
        take <= nodes@.len(),
        forall|s: u8| #[trigger] occurrences(packages(nodes@).take(take as int), s) <= 255,
    ensures
        counts@ == Seq::new(
            256,
            |s: int| occurrences(packages(nodes@).take(take as int), s as u8) as u8,
        ),
{
    let ghost all = packages(nodes@);
    let mut counts: Vec<u8> = bytes::fill_bytes(0, 256);
    let mut i: usize = 0;
    proof {
        assert(all.take(0).len() == 0);
    }
    while i < take
        invariant
            i <= take <= nodes@.len(),
            all == packages(nodes@),
            forall|s: u8| #[trigger] occurrences(all.take(take as int), s) <= 255,
            counts@.len() == 256,
            forall|s: int|
                0 <= s < 256 ==> #[trigger] counts@[s] == occurrences(all.take(i as int), s as u8),
        decreases take - i,
    {
        let syms: &Vec<u8> = &nodes[i].syms;
        let ghost was = counts@;
        let mut k: usize = 0;
        proof {
            assert(syms@.take(0).len() == 0);
            assert(all.take(i + 1).drop_last() =~= all.take(i as int));
            assert(all.take(i + 1).last() == nodes@[i as int].package());
            assert(syms@.take(syms@.len() as int) =~= syms@);
        }
        while k < syms.len()
            invariant
                k <= syms@.len(),
                i < take <= nodes@.len(),
                all == packages(nodes@),
                syms@ == all[i as int].syms,
                forall|s: u8| #[trigger] occurrences(all.take(take as int), s) <= 255,
                all.take(i + 1).drop_last() == all.take(i as int),
                all.take(i + 1).last().syms == syms@,
                counts@.len() == 256,
                forall|s: int|
                    0 <= s < 256 ==> #[trigger] counts@[s] == occurrences(
                        all.take(i as int),
                        s as u8,
                    ) + occurs(syms@.take(k as int), s as u8),
            decreases syms@.len() - k,
        {
            let s: u8 = syms[k];
            proof {
                assert(syms@.take(k + 1).drop_last() =~= syms@.take(k as int));
                assert(syms@ =~= syms@.take(k + 1) + syms@.skip(k + 1));
                lemma_occurs_append(syms@.take(k + 1), syms@.skip(k + 1), s);
                lemma_occurrences_monotone(all, i + 1, take as int, s);
                assert(occurrences(all.take(take as int), s) <= 255);
                assert(counts@[s as int] == occurrences(all.take(i as int), s) + occurs(
                    syms@.take(k as int),
                    s,
                ));
            }
            let c: u8 = counts[s as usize];
            counts.set(s as usize, c + 1);
            k = k + 1;
        }
        i = i + 1;
    }
    proof {
        assert(counts@ =~= Seq::new(
            256,
            |s: int| occurrences(all.take(take as int), s as u8) as u8,
        ));
    }
    counts
}

/// Length-limited code lengths for a histogram, by package-merge. Symbols
/// that do not occur have length zero.
pub fn build_lengths(counts: &[u64; 256], max_length: u8) -> (r: Result<Vec<u8>, Error>)
    requires
        used(counts@) >= 2 ==> max_length < 64,
    ensures
        match r {
            Ok(v) => lengths_outcome(counts@, max_length as nat) == Ok::<Seq<u8>, Error>(v@),
            Err(e) => lengths_outcome(counts@, max_length as nat) == Err::<Seq<u8>, Error>(e),
        },
        r is Err <==> used(counts@) >= 2 && pow2(max_length as nat) < used(counts@),
        r matches Ok(v) ==> v@.len() == 256 && (forall|s: int|
            0 <= s < 256 ==> (#[trigger] v@[s] > 0 <==> counts@[s] > 0)),
        r matches Ok(v) ==> used(counts@) >= 2 ==> kraft_sum(v@, max_length as nat, 256) == pow2(
            max_length as nat,
        ) && (forall|s: int| 0 <= s < 256 ==> #[trigger] v@[s] <= max_length),
{
    let list: Vec<u8> = order_symbols(counts);
    if list.len() <= 1 {
        let mut out: Vec<u8> = bytes::fill_bytes(0, 256);
        if list.len() == 1 {
            out.set(list[0] as usize, 1);
        }
        proof {
            lemma_ordered(counts@, 256);
            assert forall|s: int| 0 <= s < 256 implies out@[s] == (if counts@[s] > 0 {
                1u8
            } else {
                0u8
            }) by {
                if counts@[s] > 0 {
                    let i = choose|i: int| 0 <= i < list@.len() && #[trigger] list@[i] == s;
                    assert(i == 0);
                } else if list@.len() == 1 {
                    assert(counts@[list@[0] as int] > 0);
                }
            }
            assert(out@ =~= Seq::new(
                256,
                |s: int|
                    if counts@[s] > 0 {
                        1u8
                    } else {
                        0u8
                    },
            ));
        }
        return Ok(out);
    }
    if bitstream::power_of_two(max_length as u32) < list.len() as u64 {
        return Err(
            Error::InvalidInput(
                "encoder histogram exceeds length-limited Huffman alphabet capacity",
            ),
        );
    }
    proof {
        law_lengths_complete(counts@, max_length as nat);
        lemma_leaves(counts@);
    }
    let leaf_nodes: Vec<Node> = single_nodes(counts, &list);
    let top: Vec<Node> = run_levels(&leaf_nodes, max_length - 1);
    Ok(count_symbols(&top, 2 * list.len() - 2))
}

} // verus!
