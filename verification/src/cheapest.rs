//! Package-merge is optimal: no other prefix code within the length limit
//! takes fewer bits for the same symbol counts.
//!
//! A code length of `k` is bought in `k` steps, one at each of the lengths
//! 1 to `k`, and the step at length `i` is worth 2^-`i` of the code space. A
//! code of `n` symbols has to buy steps worth `n - 1` in all. Each level of
//! package-merge lists what can be bought at one length, cheapest first, so
//! that its first packages are the cheapest way to buy their worth.

use crate::lengths;
use crate::lengths::Package;
use vstd::arithmetic::mul::*;
use vstd::arithmetic::power2::*;
use vstd::prelude::*;

verus! {

/// The number of bits that the first `n` symbols take together.
pub open spec fn cost(counts: Seq<u64>, lengths: Seq<u8>, n: nat) -> nat
    decreases n,
{
    if n == 0 {
        0
    } else {
        cost(counts, lengths, (n - 1) as nat) + (counts[n - 1] * lengths[n - 1]) as nat
    }
}

/// The weight of all packages of a list.
pub open spec fn weight_of(list: Seq<Package>) -> nat
    decreases list.len(),
{
    if list.len() == 0 {
        0
    } else {
        weight_of(list.drop_last()) + list.last().weight
    }
}

/// The sum of `f` over the symbols of a list.
pub open spec fn total(list: Seq<u8>, f: spec_fn(u8) -> nat) -> nat
    decreases list.len(),
{
    if list.len() == 0 {
        0
    } else {
        total(list.drop_last(), f) + f(list.last())
    }
}

/// The sum of `f` over the symbols below `n` that occur.
spec fn total_used(counts: Seq<u64>, n: nat, f: spec_fn(u8) -> nat) -> nat
    decreases n,
{
    if n == 0 {
        0
    } else {
        total_used(counts, (n - 1) as nat, f) + if counts[n - 1] > 0 {
            f((n - 1) as u8)
        } else {
            0
        }
    }
}

proof fn lemma_total_append(a: Seq<u8>, b: Seq<u8>, f: spec_fn(u8) -> nat)
    ensures
        total(a + b, f) == total(a, f) + total(b, f),
    decreases b.len(),
{
    if b.len() == 0 {
        assert(a + b =~= a);
    } else {
        assert((a + b).drop_last() =~= a + b.drop_last());
        lemma_total_append(a, b.drop_last(), f);
    }
}

/// The sum over the ordered symbols is the sum over the symbols that occur.
proof fn lemma_total_ordered(counts: Seq<u64>, n: nat, f: spec_fn(u8) -> nat)
    requires
        n <= 256,
    ensures
        total(lengths::ordered(counts, n), f) == total_used(counts, n, f),
    decreases n,
{
    if n > 0 {
        let m = (n - 1) as nat;
        lemma_total_ordered(counts, m, f);
        if counts[n - 1] > 0 {
            let list = lengths::ordered(counts, m);
            let v = (n - 1) as u8;
            lengths::lemma_ordered(counts, m);
            lengths::lemma_insert_at(counts, list, counts[n - 1]);
            let k = lengths::insert_at(counts, list, counts[n - 1]) as int;
            let head = list.take(k);
            let tail = list.skip(k);
            assert(list =~= head + tail);
            assert(list.insert(k, v) =~= (head + seq![v]) + tail);
            lemma_total_append(head, tail, f);
            lemma_total_append(head + seq![v], tail, f);
            lemma_total_append(head, seq![v], f);
            assert(seq![v].drop_last() =~= Seq::<u8>::empty());
            assert(total(Seq::<u8>::empty(), f) == 0);
            assert(seq![v].last() == v);
            assert(total(seq![v], f) == f(v));
        }
    }
}

proof fn lemma_weight_append(a: Seq<Package>, b: Seq<Package>)
    ensures
        weight_of(a + b) == weight_of(a) + weight_of(b),
    decreases b.len(),
{
    if b.len() == 0 {
        assert(a + b =~= a);
    } else {
        assert((a + b).drop_last() =~= a + b.drop_last());
        lemma_weight_append(a, b.drop_last());
    }
}

/// One package in front of a list.
proof fn lemma_weight_first(a: Package, b: Seq<Package>)
    ensures
        weight_of(seq![a] + b) == a.weight + weight_of(b),
{
    lemma_weight_append(seq![a], b);
    assert(seq![a].drop_last() =~= Seq::<Package>::empty());
    assert(weight_of(Seq::<Package>::empty()) == 0);
    assert(seq![a].last() == a);
}

/// One package more of a list.
proof fn lemma_weight_take(list: Seq<Package>, k: int)
    requires
        0 <= k < list.len(),
    ensures
        weight_of(list.take(k + 1)) == weight_of(list.take(k)) + list[k].weight,
{
    assert(list.take(k + 1).drop_last() =~= list.take(k));
    assert(list.take(k + 1).last() == list[k]);
}

/// The first packages of two merged lists weigh no more than as many packages
/// from the fronts of the two lists, however these are divided up.
proof fn lemma_merge_cheapest(p: Seq<Package>, l: Seq<Package>, a: int, b: int)
    requires
        lengths::by_weight(p),
        lengths::by_weight(l),
        0 <= a <= p.len(),
        0 <= b <= l.len(),
    ensures
        lengths::merge(p, l).len() == p.len() + l.len(),
        weight_of(lengths::merge(p, l).take(a + b)) <= weight_of(p.take(a)) + weight_of(l.take(b)),
    decreases p.len() + l.len(),
{
    let m = lengths::merge(p, l);
    let none = Seq::<Package>::empty();
    assert(p.take(0) =~= none);
    assert(l.take(0) =~= none);
    assert(m.take(0) =~= none);
    if p.len() == 0 {
    } else if l.len() == 0 {
    } else if p[0].weight <= l[0].weight {
        let q = p.skip(1);
        let rest = lengths::merge(q, l);
        assert(lengths::by_weight(q)) by {
            assert forall|i: int, j: int| 0 <= i <= j < q.len() implies (#[trigger] q[i]).weight
                <= (#[trigger] q[j]).weight by {
                assert(p[i + 1].weight <= p[j + 1].weight);
            }
        }
        if a >= 1 {
            lemma_merge_cheapest(q, l, a - 1, b);
            assert(m.take(a + b) =~= seq![p[0]] + rest.take(a + b - 1));
            assert(p.take(a) =~= seq![p[0]] + q.take(a - 1));
            lemma_weight_first(p[0], rest.take(a + b - 1));
            lemma_weight_first(p[0], q.take(a - 1));
        } else if b >= 1 {
            lemma_merge_cheapest(q, l, 0, b - 1);
            assert(q.take(0) =~= none);
            assert(m.take(b) =~= seq![p[0]] + rest.take(b - 1));
            lemma_weight_first(p[0], rest.take(b - 1));
            lemma_weight_take(l, b - 1);
            assert(l[0].weight <= l[b - 1].weight);
        } else {
            lemma_merge_cheapest(q, l, 0, 0);
        }
    } else {
        let q = l.skip(1);
        let rest = lengths::merge(p, q);
        assert(lengths::by_weight(q)) by {
            assert forall|i: int, j: int| 0 <= i <= j < q.len() implies (#[trigger] q[i]).weight
                <= (#[trigger] q[j]).weight by {
                assert(l[i + 1].weight <= l[j + 1].weight);
            }
        }
        if b >= 1 {
            lemma_merge_cheapest(p, q, a, b - 1);
            assert(m.take(a + b) =~= seq![l[0]] + rest.take(a + b - 1));
            assert(l.take(b) =~= seq![l[0]] + q.take(b - 1));
            lemma_weight_first(l[0], rest.take(a + b - 1));
            lemma_weight_first(l[0], q.take(b - 1));
        } else if a >= 1 {
            lemma_merge_cheapest(p, q, a - 1, 0);
            assert(q.take(0) =~= none);
            assert(m.take(a) =~= seq![l[0]] + rest.take(a - 1));
            lemma_weight_first(l[0], rest.take(a - 1));
            lemma_weight_take(p, a - 1);
            assert(p[0].weight <= p[a - 1].weight);
        } else {
            lemma_merge_cheapest(p, q, 0, 0);
        }
    }
}

/// The first pairs weigh what the first packages weigh.
proof fn lemma_pairs_weight(list: Seq<Package>, x: int)
    requires
        0 <= x,
        2 * x <= list.len(),
    ensures
        weight_of(lengths::pairs(list).take(x)) == weight_of(list.take(2 * x)),
    decreases x,
{
    if x == 0 {
        assert(lengths::pairs(list).take(0).len() == 0);
        assert(list.take(0).len() == 0);
    } else {
        let y = x - 1;
        lemma_pairs_weight(list, y);
        lemma_weight_take(lengths::pairs(list), y);
        lemma_weight_take(list, 2 * y);
        lemma_weight_take(list, 2 * y + 1);
    }
}

/// 1 if a symbol's code has at least `t` bits.
spec fn reaches(code_lengths: Seq<u8>, t: int) -> spec_fn(u8) -> nat {
    |s: u8|
        if code_lengths[s as int] >= t {
            1nat
        } else {
            0nat
        }
}

/// A symbol's count if its code has at least `t` bits.
spec fn pays(counts: Seq<u64>, code_lengths: Seq<u8>, t: int) -> spec_fn(u8) -> nat {
    |s: u8|
        if code_lengths[s as int] >= t {
            counts[s as int] as nat
        } else {
            0nat
        }
}

/// The rarest symbols are the cheapest choice of as many symbols.
proof fn lemma_rarest(counts: Seq<u64>, list: Seq<u8>, code_lengths: Seq<u8>, t: int, m: int)
    requires
        forall|i: int, j: int|
            0 <= i <= j < list.len() ==> counts[#[trigger] list[i] as int]
                <= counts[#[trigger] list[j] as int],
        0 <= m <= total(list, reaches(code_lengths, t)),
    ensures
        total(list, reaches(code_lengths, t)) <= list.len(),
        weight_of(lengths::singles(counts, list).take(m)) <= total(
            list,
            pays(counts, code_lengths, t),
        ),
    decreases list.len(),
{
    let lv = lengths::singles(counts, list);
    if list.len() == 0 {
        assert(lv.take(m).len() == 0);
    } else {
        let init = list.drop_last();
        let x = list.last();
        let last = list.len() - 1;
        let c = total(init, reaches(code_lengths, t)) as int;
        assert forall|i: int, j: int| 0 <= i <= j < init.len() implies counts[#[trigger] init[i] as int]
            <= counts[#[trigger] init[j] as int] by {
            assert(init[i] == list[i] && init[j] == list[j]);
        }
        let k = if m <= c {
            m
        } else {
            c
        };
        lemma_rarest(counts, init, code_lengths, t, k);
        assert(lv.take(k) =~= lengths::singles(counts, init).take(k));
        if m > c {
            assert(m == c + 1);
            lemma_weight_take(lv, c);
            assert(counts[list[c] as int] <= counts[list[last] as int]);
        }
    }
}

/// What the codes buy at their `j + 1` greatest possible lengths, in units of
/// 2^-`limit`.
spec fn worth(list: Seq<u8>, code_lengths: Seq<u8>, limit: int, j: nat) -> nat
    decreases j,
{
    total(list, reaches(code_lengths, limit - j)) * pow2(j) + if j == 0 {
        0
    } else {
        worth(list, code_lengths, limit, (j - 1) as nat)
    }
}

/// What the codes pay for that.
spec fn price(counts: Seq<u64>, list: Seq<u8>, code_lengths: Seq<u8>, limit: int, j: nat) -> nat
    decreases j,
{
    total(list, pays(counts, code_lengths, limit - j)) + if j == 0 {
        0
    } else {
        price(counts, list, code_lengths, limit, (j - 1) as nat)
    }
}

/// The first packages of a level are the cheapest way to buy their worth.
proof fn lemma_level_cheapest(
    counts: Seq<u64>,
    code_lengths: Seq<u8>,
    limit: int,
    j: nat,
    m: int,
)
    requires
        counts.len() == 256,
        0 <= m,
        m * pow2(j) <= worth(lengths::ordered(counts, 256), code_lengths, limit, j),
    ensures
        m <= lengths::level(lengths::leaves(counts), j).len(),
        weight_of(lengths::level(lengths::leaves(counts), j).take(m)) <= price(
            counts,
            lengths::ordered(counts, 256),
            code_lengths,
            limit,
            j,
        ),
    decreases j,
{
    let list = lengths::ordered(counts, 256);
    let lv = lengths::leaves(counts);
    let c = total(list, reaches(code_lengths, limit - j)) as int;
    lengths::lemma_ordered(counts, 256);
    lengths::lemma_leaves(counts);
    lemma2_to64();
    lemma_pow2_pos(j);
    let u = pow2(j) as int;
    if j == 0 {
        lemma_mul_basics_3(m);
        lemma_mul_basics_3(c);
        lemma_rarest(counts, list, code_lengths, limit, m);
    } else {
        let i = (j - 1) as nat;
        let prev = lengths::level(lv, i);
        let ps = lengths::pairs(prev);
        let b = if m <= c {
            m
        } else {
            c
        };
        let a = m - b;
        lemma_rarest(counts, list, code_lengths, limit - j, b);
        lemma_pow2_unfold(j);
        let v = pow2(i) as int;
        let w = worth(list, code_lengths, limit, i) as int;
        if m > c {
            assert((2 * (m - c)) * v <= w) by (nonlinear_arith)
                requires
                    m * u <= c * u + w,
                    u == 2 * v,
            ;
        } else {
            lemma_mul_basics_1(v);
        }
        lemma_level_cheapest(counts, code_lengths, limit, i, 2 * a);
        lengths::lemma_level_sorted(lv, i);
        lengths::lemma_pairs_sorted(prev);
        lemma_pairs_weight(prev, a);
        lemma_merge_cheapest(ps, lv, a, b);
    }
}

/// What one more symbol buys and pays.
proof fn lemma_one_more(
    counts: Seq<u64>,
    list: Seq<u8>,
    code_lengths: Seq<u8>,
    limit: int,
    j: nat,
)
    requires
        list.len() > 0,
        j < limit,
        code_lengths[list.last() as int] <= limit,
    ensures
        ({
            let n = code_lengths[list.last() as int] as int;
            let more = n >= limit - j;
            &&& worth(list, code_lengths, limit, j) == worth(
                list.drop_last(),
                code_lengths,
                limit,
                j,
            ) + if more {
                pow2(j + 1) - pow2((limit - n) as nat)
            } else {
                0
            }
            &&& price(counts, list, code_lengths, limit, j) == price(
                counts,
                list.drop_last(),
                code_lengths,
                limit,
                j,
            ) + if more {
                counts[list.last() as int] * (n - (limit - j) + 1)
            } else {
                0
            }
        }),
    decreases j,
{
    let init = list.drop_last();
    let x = list.last();
    let n = code_lengths[x as int] as int;
    let f = reaches(code_lengths, limit - j);
    let g = pays(counts, code_lengths, limit - j);
    let w = counts[x as int] as int;
    assert(total(list, f) == total(init, f) + f(x));
    assert(total(list, g) == total(init, g) + g(x));
    let a = total(init, f) as int;
    let u = pow2(j) as int;
    lemma_pow2_unfold(j + 1);
    assert((a + 1) * u == a * u + u) by (nonlinear_arith);
    if j > 0 {
        lemma_one_more(counts, list, code_lengths, limit, (j - 1) as nat);
    }
    if n >= limit - j {
        if n == limit - j {
            lemma_mul_basics_3(w);
            assert((limit - n) as nat == j);
        } else {
            let d = n - (limit - j);
            assert(w * (d + 1) == w * d + w) by (nonlinear_arith);
        }
    }
}

/// What whole codes buy and pay.
proof fn lemma_whole_codes(counts: Seq<u64>, list: Seq<u8>, code_lengths: Seq<u8>, limit: nat)
    requires
        limit >= 1,
        forall|i: int|
            0 <= i < list.len() ==> 1 <= code_lengths[#[trigger] list[i] as int] <= limit,
    ensures
        worth(list, code_lengths, limit as int, (limit - 1) as nat) + lengths::list_sum(
            list,
            code_lengths,
            limit,
        ) == list.len() * pow2(limit),
        price(counts, list, code_lengths, limit as int, (limit - 1) as nat) == total(
            list,
            bits(counts, code_lengths),
        ),
    decreases list.len(),
{
    let j = (limit - 1) as nat;
    if list.len() == 0 {
        lemma_nothing(counts, list, code_lengths, limit as int, j);
        lemma_mul_basics_1(pow2(limit) as int);
    } else {
        let init = list.drop_last();
        assert forall|i: int| 0 <= i < init.len() implies 1 <= code_lengths[#[trigger] init[i] as int]
            <= limit by {
            assert(init[i] == list[i]);
        }
        lemma_whole_codes(counts, init, code_lengths, limit);
        assert(list.last() == list[list.len() - 1]);
        lemma_one_more(counts, list, code_lengths, limit as int, j);
        let k = init.len() as int;
        let q = pow2(limit) as int;
        assert((k + 1) * q == k * q + q) by (nonlinear_arith);
    }
}

/// A symbol's count times the length of its code.
spec fn bits(counts: Seq<u64>, code_lengths: Seq<u8>) -> spec_fn(u8) -> nat {
    |s: u8| (counts[s as int] * code_lengths[s as int]) as nat
}

/// No symbols buy nothing.
proof fn lemma_nothing(
    counts: Seq<u64>,
    list: Seq<u8>,
    code_lengths: Seq<u8>,
    limit: int,
    j: nat,
)
    requires
        list.len() == 0,
    ensures
        worth(list, code_lengths, limit, j) == 0,
        price(counts, list, code_lengths, limit, j) == 0,
    decreases j,
{
    lemma_mul_basics_1(pow2(j) as int);
    if j > 0 {
        lemma_nothing(counts, list, code_lengths, limit, (j - 1) as nat);
    }
}

/// The weight of a package's symbols.
pub open spec fn syms_weight(counts: Seq<u64>, syms: Seq<u8>) -> nat
    decreases syms.len(),
{
    if syms.len() == 0 {
        0
    } else {
        syms_weight(counts, syms.drop_last()) + counts[syms.last() as int] as nat
    }
}

/// Every package weighs what its symbols weigh.
spec fn fair(counts: Seq<u64>, list: Seq<Package>) -> bool {
    forall|i: int|
        0 <= i < list.len() ==> (#[trigger] list[i]).weight == syms_weight(counts, list[i].syms)
}

proof fn lemma_syms_append(counts: Seq<u64>, a: Seq<u8>, b: Seq<u8>)
    ensures
        syms_weight(counts, a + b) == syms_weight(counts, a) + syms_weight(counts, b),
    decreases b.len(),
{
    if b.len() == 0 {
        assert(a + b =~= a);
    } else {
        assert((a + b).drop_last() =~= a + b.drop_last());
        lemma_syms_append(counts, a, b.drop_last());
    }
}

proof fn lemma_merge_fair(counts: Seq<u64>, p: Seq<Package>, l: Seq<Package>)
    requires
        fair(counts, p),
        fair(counts, l),
    ensures
        fair(counts, lengths::merge(p, l)),
    decreases p.len() + l.len(),
{
    if p.len() > 0 && l.len() > 0 {
        if p[0].weight <= l[0].weight {
            assert(fair(counts, p.skip(1)));
            lemma_merge_fair(counts, p.skip(1), l);
        } else {
            assert(fair(counts, l.skip(1)));
            lemma_merge_fair(counts, p, l.skip(1));
        }
    }
}

/// Every package of a level weighs what its symbols weigh.
proof fn lemma_level_fair(counts: Seq<u64>, j: nat)
    ensures
        fair(counts, lengths::level(lengths::leaves(counts), j)),
    decreases j,
{
    let lv = lengths::leaves(counts);
    assert(fair(counts, lv)) by {
        assert forall|i: int| 0 <= i < lv.len() implies (#[trigger] lv[i]).weight == syms_weight(
            counts,
            lv[i].syms,
        ) by {
            let one = lv[i].syms;
            assert(one.drop_last() =~= Seq::<u8>::empty());
            assert(syms_weight(counts, Seq::<u8>::empty()) == 0);
        }
    }
    if j > 0 {
        let prev = lengths::level(lv, (j - 1) as nat);
        lemma_level_fair(counts, (j - 1) as nat);
        let ps = lengths::pairs(prev);
        assert forall|i: int| 0 <= i < ps.len() implies (#[trigger] ps[i]).weight == syms_weight(
            counts,
            ps[i].syms,
        ) by {
            lemma_syms_append(counts, prev[2 * i].syms, prev[2 * i + 1].syms);
        }
        lemma_merge_fair(counts, ps, lv);
    }
}

/// The sum over the first `n` symbols of count times occurrences.
spec fn spread(counts: Seq<u64>, list: Seq<Package>, n: nat) -> nat
    decreases n,
{
    if n == 0 {
        0
    } else {
        spread(counts, list, (n - 1) as nat) + counts[n - 1] as nat * lengths::occurrences(
            list,
            (n - 1) as u8,
        )
    }
}

/// The sum over the first `n` symbols of count times occurrences in a package.
pub open spec fn spread_syms(counts: Seq<u64>, syms: Seq<u8>, n: nat) -> nat
    decreases n,
{
    if n == 0 {
        0
    } else {
        spread_syms(counts, syms, (n - 1) as nat) + counts[n - 1] as nat * lengths::occurs(
            syms,
            (n - 1) as u8,
        )
    }
}

proof fn lemma_spread_syms_push(counts: Seq<u64>, syms: Seq<u8>, n: nat)
    requires
        n <= 256,
        syms.len() > 0,
    ensures
        spread_syms(counts, syms, n) == spread_syms(counts, syms.drop_last(), n) + if syms.last()
            < n {
            counts[syms.last() as int] as nat
        } else {
            0
        },
    decreases n,
{
    if n > 0 {
        let m = (n - 1) as nat;
        lemma_spread_syms_push(counts, syms, m);
        let c = counts[n - 1] as int;
        let o = lengths::occurs(syms.drop_last(), m as u8) as int;
        assert(c * (o + 1) == c * o + c) by (nonlinear_arith);
    }
}

pub proof fn lemma_spread_syms(counts: Seq<u64>, syms: Seq<u8>)
    ensures
        spread_syms(counts, syms, 256) == syms_weight(counts, syms),
    decreases syms.len(),
{
    if syms.len() == 0 {
        lemma_spread_none(counts, Seq::empty(), syms, 256);
    } else {
        lemma_spread_syms(counts, syms.drop_last());
        lemma_spread_syms_push(counts, syms, 256);
    }
}

proof fn lemma_spread_none(counts: Seq<u64>, list: Seq<Package>, syms: Seq<u8>, n: nat)
    requires
        list.len() == 0,
        syms.len() == 0,
    ensures
        spread(counts, list, n) == 0,
        spread_syms(counts, syms, n) == 0,
    decreases n,
{
    if n > 0 {
        lemma_spread_none(counts, list, syms, (n - 1) as nat);
        lemma_mul_basics_2(counts[n - 1] as int);
    }
}

proof fn lemma_spread_push(counts: Seq<u64>, list: Seq<Package>, n: nat)
    requires
        n <= 256,
        list.len() > 0,
    ensures
        spread(counts, list, n) == spread(counts, list.drop_last(), n) + spread_syms(
            counts,
            list.last().syms,
            n,
        ),
    decreases n,
{
    if n > 0 {
        let m = (n - 1) as nat;
        lemma_spread_push(counts, list, m);
        let c = counts[n - 1] as int;
        let a = lengths::occurrences(list.drop_last(), m as u8) as int;
        let b = lengths::occurs(list.last().syms, m as u8) as int;
        assert(c * (a + b) == c * a + c * b) by (nonlinear_arith);
    }
}

/// Packages weigh what their symbols weigh together.
proof fn lemma_spread(counts: Seq<u64>, list: Seq<Package>)
    requires
        fair(counts, list),
    ensures
        weight_of(list) == spread(counts, list, 256),
    decreases list.len(),
{
    if list.len() == 0 {
        lemma_spread_none(counts, list, Seq::empty(), 256);
    } else {
        let init = list.drop_last();
        assert forall|i: int| 0 <= i < init.len() implies (#[trigger] init[i]).weight
            == syms_weight(counts, init[i].syms) by {
            assert(init[i] == list[i]);
        }
        lemma_spread(counts, init);
        lemma_spread_push(counts, list, 256);
        lemma_spread_syms(counts, list.last().syms);
        assert(list.last() == list[list.len() - 1]);
    }
}

/// Codes whose lengths are the occurrences in a list cost what the list
/// weighs.
proof fn lemma_cost_spread(counts: Seq<u64>, code_lengths: Seq<u8>, list: Seq<Package>, n: nat)
    requires
        n <= 256,
        forall|s: int|
            0 <= s < n ==> #[trigger] code_lengths[s] == lengths::occurrences(list, s as u8),
    ensures
        cost(counts, code_lengths, n) == spread(counts, list, n),
    decreases n,
{
    if n > 0 {
        lemma_cost_spread(counts, code_lengths, list, (n - 1) as nat);
        assert(code_lengths[n - 1] == lengths::occurrences(list, (n - 1) as u8));
    }
}

/// The cost of all symbols is that of the symbols that occur.
proof fn lemma_cost_used(counts: Seq<u64>, code_lengths: Seq<u8>, n: nat)
    requires
        n <= 256,
    ensures
        cost(counts, code_lengths, n) == total_used(counts, n, bits(counts, code_lengths)),
    decreases n,
{
    if n > 0 {
        lemma_cost_used(counts, code_lengths, (n - 1) as nat);
        lemma_mul_basics_1(code_lengths[n - 1] as int);
    }
}

/// No lengths within the limit that fit into the code space cost less than
/// those of package-merge.
pub proof fn law_lengths_cheapest(counts: Seq<u64>, limit: nat, other: Seq<u8>)
    requires
        counts.len() == 256,
        lengths::used(counts) >= 2,
        lengths::used(counts) <= pow2(limit),
        limit <= 255,
        forall|s: int| 0 <= s < 256 ==> (#[trigger] other[s] > 0 <==> counts[s] > 0),
        forall|s: int| 0 <= s < 256 ==> #[trigger] other[s] <= limit,
        lengths::kraft_sum(other, limit, 256) <= pow2(limit),
    ensures
        lengths::lengths_outcome(counts, limit) is Ok,
        cost(counts, lengths::lengths_outcome(counts, limit)->Ok_0, 256) <= cost(
            counts,
            other,
            256,
        ),
{
    let list = lengths::ordered(counts, 256);
    let n = lengths::used(counts) as int;
    let best = lengths::lengths_outcome(counts, limit)->Ok_0;
    let bundle = lengths::bought(counts, limit);
    lengths::law_lengths_complete(counts, limit);
    lengths::lemma_ordered(counts, 256);
    let j = (limit - 1) as nat;
    lemma_level_fair(counts, j);
    let lv = lengths::level(lengths::leaves(counts), j);
    assert forall|i: int| 0 <= i < bundle.len() implies (#[trigger] bundle[i]).weight
        == syms_weight(counts, bundle[i].syms) by {
        assert(bundle[i] == lv[i]);
    }
    lemma_spread(counts, bundle);
    assert forall|s: int| 0 <= s < 256 implies #[trigger] best[s] == lengths::occurrences(
        bundle,
        s as u8,
    ) by {
        assert(lengths::occurrences(bundle, s as u8) <= limit);
    }
    lemma_cost_spread(counts, best, bundle, 256);
    assert forall|i: int| 0 <= i < list.len() implies 1 <= other[#[trigger] list[i] as int]
        <= limit by {
        assert(counts[list[i] as int] > 0);
    }
    lemma_whole_codes(counts, list, other, limit);
    lengths::lemma_list_sum_ordered(counts, other, limit, 256);
    lemma_cost_used(counts, other, 256);
    lemma_total_ordered(counts, 256, bits(counts, other));
    lemma_pow2_unfold(limit);
    let u = pow2(j) as int;
    assert((2 * n - 2) * u == n * (2 * u) - 2 * u) by (nonlinear_arith);
    lemma_level_cheapest(counts, other, limit as int, j, 2 * n - 2);
}

} // verus!
