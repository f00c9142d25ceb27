//! Which code the encoder chooses, said by what the code does: who gets a
//! length, who gets the longer one, and which of the cheapest codes it is.

use crate::bytes;
use crate::canonical;
use crate::canonical::Shape;
use crate::cheapest;
use crate::encoder;
use crate::error::Error;
use crate::laws;
use crate::lengths;
use crate::lengths::Package;
use vstd::arithmetic::mul::*;
use vstd::arithmetic::power2::*;
use vstd::prelude::*;

verus! {

proof fn lemma_used_filter(counts: Seq<u64>, n: nat)
    requires
        n <= 256,
        n <= counts.len(),
    ensures
        lengths::ordered(counts, n).len() == counts.take(n as int).filter(|c: u64| c > 0).len(),
    decreases n,
{
    reveal(Seq::filter);
    let part = counts.take(n as int);
    if n > 0 {
        lemma_used_filter(counts, (n - 1) as nat);
        lengths::lemma_ordered_step(counts, (n - 1) as nat);
        assert(part.drop_last() =~= counts.take(n - 1));
    }
}

/// The number of symbols in use is the number of counts that are not zero.
pub proof fn law_used(counts: Seq<u64>)
    requires
        counts.len() == 256,
    ensures
        lengths::used(counts) == counts.filter(|c: u64| c > 0).len(),
{
    lemma_used_filter(counts, 256);
    assert(counts.take(256) =~= counts);
}

/// Two symbols that occur make the number of symbols in use at least two.
pub proof fn lemma_two_used(counts: Seq<u64>, a: int, b: int)
    requires
        counts.len() == 256,
        0 <= a < 256,
        0 <= b < 256,
        a != b,
        counts[a] > 0,
        counts[b] > 0,
    ensures
        lengths::used(counts) >= 2,
{
    lengths::lemma_ordered(counts, 256);
    let list = lengths::ordered(counts, 256);
    let i = choose|i: int| 0 <= i < list.len() && #[trigger] list[i] == a;
    let k = choose|k: int| 0 <= k < list.len() && #[trigger] list[k] == b;
    assert(i != k);
}

/// No two symbols that occur make the number of symbols in use at most one.
proof fn lemma_one_used(counts: Seq<u64>, a: int)
    requires
        counts.len() == 256,
        forall|b: int| 0 <= b < 256 && b != a ==> #[trigger] counts[b] == 0,
    ensures
        lengths::used(counts) <= 1,
{
    lengths::lemma_ordered(counts, 256);
    let list = lengths::ordered(counts, 256);
    if list.len() >= 2 {
        assert(list[0] != list[1]);
        assert(counts[list[0] as int] > 0);
        assert(counts[list[1] as int] > 0);
    }
}

/// Of a histogram with at most one symbol, that symbol gets a code of one bit.
pub proof fn law_one_length(counts: Seq<u64>, a: int, limit: nat, s: int)
    requires
        counts.len() == 256,
        forall|b: int| 0 <= b < 256 && b != a ==> #[trigger] counts[b] == 0,
        0 <= s < 256,
    ensures
        lengths::lengths_outcome(counts, limit) is Ok,
        lengths::lengths_outcome(counts, limit)->Ok_0.len() == 256,
        lengths::lengths_outcome(counts, limit)->Ok_0[s] == (if s == a && counts[s] > 0 {
            1u8
        } else {
            0u8
        }),
{
    lemma_one_used(counts, a);
}

/// Lengths are refused exactly where there are more symbols in use than codes
/// of the greatest length.
pub proof fn law_lengths_refused(counts: Seq<u64>, limit: nat)
    requires
        counts.len() == 256,
    ensures
        lengths::lengths_outcome(counts, limit) is Err <==> counts.filter(|c: u64| c > 0).len()
            >= 2 && counts.filter(|c: u64| c > 0).len() > pow2(limit),
        lengths::lengths_outcome(counts, limit) matches Err(e) ==> e == Error::InvalidInput(
            "encoder histogram exceeds length-limited Huffman alphabet capacity",
        ),
{
    law_used(counts);
}

proof fn lemma_ties(counts: Seq<u64>, n: nat)
    requires
        n <= 256,
    ensures
        forall|i: int, j: int|
            0 <= i < j < lengths::ordered(counts, n).len() && counts[#[trigger] lengths::ordered(
                counts,
                n,
            )[i] as int] == counts[#[trigger] lengths::ordered(counts, n)[j] as int]
                ==> lengths::ordered(counts, n)[i] < lengths::ordered(counts, n)[j],
    decreases n,
{
    if n > 0 {
        let m = (n - 1) as nat;
        lemma_ties(counts, m);
        lengths::lemma_ordered(counts, m);
        let list = lengths::ordered(counts, m);
        let c = counts[m as int];
        if c > 0 {
            assert(lengths::by_count(counts, list));
            lengths::lemma_insert_at(counts, list, c);
            let k = lengths::insert_at(counts, list, c) as int;
            let more = lengths::ordered(counts, n);
            assert(more == list.insert(k, m as u8));
            assert forall|i: int, j: int|
                0 <= i < j < more.len() && counts[#[trigger] more[i] as int]
                    == counts[#[trigger] more[j] as int] implies more[i] < more[j] by {
                let a = if i < k {
                    i
                } else {
                    i - 1
                };
                let b = if j < k {
                    j
                } else {
                    j - 1
                };
                if i != k {
                    assert(more[i] == list[a]);
                }
                if j != k {
                    assert(more[j] == list[b]);
                }
                assert(more[k] == m as u8);
            }
        }
    }
}

/// Of two symbols that occur, the one that occurs less often has no shorter a
/// code than the other; of two that occur equally often, the one with the lower
/// number has no shorter a code.
pub proof fn law_rarer_is_longer(counts: Seq<u64>, limit: nat, a: int, b: int)
    requires
        counts.len() == 256,
        limit <= 255,
        lengths::lengths_outcome(counts, limit) is Ok,
        0 <= a < 256,
        0 <= b < 256,
        0 < counts[a],
        counts[a] < counts[b] || (counts[a] == counts[b] && a < b),
    ensures
        lengths::lengths_outcome(counts, limit)->Ok_0[a] >= lengths::lengths_outcome(
            counts,
            limit,
        )->Ok_0[b],
{
    lemma_two_used(counts, a, b);
    lengths::lemma_ordered(counts, 256);
    lemma_ties(counts, 256);
    let list = lengths::ordered(counts, 256);
    let i = choose|i: int| 0 <= i < list.len() && #[trigger] list[i] == a;
    let k = choose|k: int| 0 <= k < list.len() && #[trigger] list[k] == b;
    if k < i {
        assert(counts[list[k] as int] <= counts[list[i] as int]);
        assert(list[k] < list[i]);
    }
    lengths::lemma_lengths_fall(counts, limit, i, k);
}

/// Counts scaled up, each that is not zero less one.
spec fn scaled(counts: Seq<u64>) -> Seq<u64> {
    Seq::new(
        counts.len(),
        |s: int|
            if counts[s] == 0 {
                0u64
            } else {
                (0x10000 * counts[s] - 1) as u64
            },
    )
}

/// The counts can be scaled up.
spec fn scalable(counts: Seq<u64>) -> bool {
    forall|s: int| 0 <= s < counts.len() ==> #[trigger] counts[s] < 0x8000_0000_0000
}

proof fn lemma_scaled_insert(counts: Seq<u64>, list: Seq<u8>, n: int)
    requires
        counts.len() == 256,
        scalable(counts),
        0 <= n < 256,
        counts[n] > 0,
        forall|i: int| 0 <= i < list.len() ==> counts[#[trigger] list[i] as int] > 0,
    ensures
        lengths::insert_at(scaled(counts), list, scaled(counts)[n]) == lengths::insert_at(
            counts,
            list,
            counts[n],
        ),
    decreases list.len(),
{
    if list.len() > 0 {
        let last = list[list.len() - 1] as int;
        assert(counts[last] > 0);
        assert(counts[last] < 0x8000_0000_0000);
        assert(counts[n] < 0x8000_0000_0000);
        lemma_scaled_insert(counts, list.drop_last(), n);
    }
}

proof fn lemma_scaled_ordered(counts: Seq<u64>, n: nat)
    requires
        counts.len() == 256,
        scalable(counts),
        n <= 256,
    ensures
        lengths::ordered(scaled(counts), n) == lengths::ordered(counts, n),
    decreases n,
{
    if n > 0 {
        let m = (n - 1) as nat;
        lemma_scaled_ordered(counts, m);
        assert(counts[m as int] < 0x8000_0000_0000);
        if counts[m as int] > 0 {
            lengths::lemma_ordered(counts, m);
            lemma_scaled_insert(counts, lengths::ordered(counts, m), m as int);
        }
    }
}

/// The same packages, but with the weights of scaled counts; each holds between
/// `least` and `most` symbols.
spec fn alike(a: Seq<Package>, b: Seq<Package>, least: nat, most: nat) -> bool {
    &&& a.len() == b.len()
    &&& forall|i: int|
        0 <= i < b.len() ==> {
            &&& (#[trigger] a[i]).syms == b[i].syms
            &&& a[i].weight == 0x10000 * b[i].weight - b[i].syms.len()
            &&& least <= b[i].syms.len() <= most
        }
}

proof fn lemma_merge_alike(
    p: Seq<Package>,
    q: Seq<Package>,
    k: Seq<Package>,
    l: Seq<Package>,
    most: nat,
)
    requires
        alike(p, q, 2, most),
        alike(k, l, 1, 1),
        1 <= most <= 0x10000,
    ensures
        alike(lengths::merge(p, k), lengths::merge(q, l), 1, most),
    decreases q.len() + l.len(),
{
    if q.len() == 0 || l.len() == 0 {
    } else {
        assert(p[0].syms == q[0].syms);
        assert(k[0].syms == l[0].syms);
        let first = p[0].weight <= k[0].weight;
        assert(first == (q[0].weight <= l[0].weight));
        if first {
            assert(alike(p.skip(1), q.skip(1), 2, most)) by {
                assert forall|i: int| 0 <= i < q.skip(1).len() implies {
                    &&& (#[trigger] p.skip(1)[i]).syms == q.skip(1)[i].syms
                    &&& p.skip(1)[i].weight == 0x10000 * q.skip(1)[i].weight
                        - q.skip(1)[i].syms.len()
                    &&& 2 <= q.skip(1)[i].syms.len() <= most
                } by {
                    assert(p.skip(1)[i] == p[i + 1]);
                }
            }
            lemma_merge_alike(p.skip(1), q.skip(1), k, l, most);
            lemma_led_alike(
                p[0],
                q[0],
                lengths::merge(p.skip(1), k),
                lengths::merge(q.skip(1), l),
                most,
            );
        } else {
            assert(alike(k.skip(1), l.skip(1), 1, 1)) by {
                assert forall|i: int| 0 <= i < l.skip(1).len() implies {
                    &&& (#[trigger] k.skip(1)[i]).syms == l.skip(1)[i].syms
                    &&& k.skip(1)[i].weight == 0x10000 * l.skip(1)[i].weight
                        - l.skip(1)[i].syms.len()
                    &&& 1 <= l.skip(1)[i].syms.len() <= 1
                } by {
                    assert(k.skip(1)[i] == k[i + 1]);
                }
            }
            lemma_merge_alike(p, q, k.skip(1), l.skip(1), most);
            lemma_led_alike(
                k[0],
                l[0],
                lengths::merge(p, k.skip(1)),
                lengths::merge(q, l.skip(1)),
                most,
            );
        }
    }
}

proof fn lemma_led_alike(x: Package, y: Package, a: Seq<Package>, b: Seq<Package>, most: nat)
    requires
        alike(a, b, 1, most),
        x.syms == y.syms,
        x.weight == 0x10000 * y.weight - y.syms.len(),
        1 <= y.syms.len() <= most,
    ensures
        alike(seq![x] + a, seq![y] + b, 1, most),
{
    let u = seq![x] + a;
    let v = seq![y] + b;
    assert forall|i: int| 0 <= i < v.len() implies {
        &&& (#[trigger] u[i]).syms == v[i].syms
        &&& u[i].weight == 0x10000 * v[i].weight - v[i].syms.len()
        &&& 1 <= v[i].syms.len() <= most
    } by {
        if i > 0 {
            assert(u[i] == a[i - 1]);
            assert(v[i] == b[i - 1]);
        }
    }
}

proof fn lemma_pairs_alike(a: Seq<Package>, b: Seq<Package>, most: nat)
    requires
        alike(a, b, 1, most),
    ensures
        alike(lengths::pairs(a), lengths::pairs(b), 2, 2 * most),
{
    let p = lengths::pairs(a);
    let q = lengths::pairs(b);
    assert forall|i: int| 0 <= i < q.len() implies {
        &&& (#[trigger] p[i]).syms == q[i].syms
        &&& p[i].weight == 0x10000 * q[i].weight - q[i].syms.len()
        &&& 2 <= q[i].syms.len() <= 2 * most
    } by {
        assert(a[2 * i].syms == b[2 * i].syms);
        assert(a[2 * i + 1].syms == b[2 * i + 1].syms);
    }
}

proof fn lemma_scaled_level(counts: Seq<u64>, j: nat)
    requires
        counts.len() == 256,
        scalable(counts),
        j <= 16,
    ensures
        alike(
            lengths::level(lengths::leaves(scaled(counts)), j),
            lengths::level(lengths::leaves(counts), j),
            1,
            pow2(j),
        ),
    decreases j,
{
    lemma2_to64();
    let k = lengths::leaves(scaled(counts));
    let l = lengths::leaves(counts);
    let list = lengths::ordered(counts, 256);
    lemma_scaled_ordered(counts, 256);
    lengths::lemma_ordered(counts, 256);
    assert(alike(k, l, 1, 1)) by {
        assert forall|i: int| 0 <= i < l.len() implies {
            &&& (#[trigger] k[i]).syms == l[i].syms
            &&& k[i].weight == 0x10000 * l[i].weight - l[i].syms.len()
            &&& 1 <= l[i].syms.len() <= 1
        } by {
            assert(counts[list[i] as int] > 0);
            assert(counts[list[i] as int] < 0x8000_0000_0000);
        }
    }
    if j > 0 {
        let m = (j - 1) as nat;
        lemma_scaled_level(counts, m);
        lemma_pow2_unfold(j);
        lemma_pow2_pos(j);
        if j < 16 {
            lemma_pow2_strictly_increases(j, 16);
        }
        lemma_pairs_alike(lengths::level(k, m), lengths::level(l, m), pow2(m));
        lemma_merge_alike(
            lengths::pairs(lengths::level(k, m)),
            lengths::pairs(lengths::level(l, m)),
            k,
            l,
            pow2(j),
        );
    }
}

proof fn lemma_same_occurrences(a: Seq<Package>, b: Seq<Package>, s: u8)
    requires
        a.len() == b.len(),
        forall|i: int| 0 <= i < b.len() ==> (#[trigger] a[i]).syms == b[i].syms,
    ensures
        lengths::occurrences(a, s) == lengths::occurrences(b, s),
    decreases a.len(),
{
    if a.len() > 0 {
        assert(a[a.len() - 1].syms == b[b.len() - 1].syms);
        assert forall|i: int| 0 <= i < b.drop_last().len() implies (
        #[trigger] a.drop_last()[i]).syms == b.drop_last()[i].syms by {
            assert(a[i].syms == b[i].syms);
        }
        lemma_same_occurrences(a.drop_last(), b.drop_last(), s);
    }
}

/// The sum of the lengths of a code.
pub open spec fn length_sum(code_lengths: Seq<u8>) -> int {
    code_lengths.fold_left(0int, |sum: int, l: u8| sum + l)
}

proof fn lemma_scaled_cost(counts: Seq<u64>, code_lengths: Seq<u8>, n: nat)
    requires
        counts.len() == 256,
        code_lengths.len() == 256,
        scalable(counts),
        n <= 256,
        forall|s: int| 0 <= s < 256 ==> (#[trigger] code_lengths[s] > 0 <==> counts[s] > 0),
    ensures
        cheapest::cost(scaled(counts), code_lengths, n) == 0x10000 * cheapest::cost(
            counts,
            code_lengths,
            n,
        ) - length_sum(code_lengths.take(n as int)),
    decreases n,
{
    let part = code_lengths.take(n as int);
    if n > 0 {
        lemma_scaled_cost(counts, code_lengths, (n - 1) as nat);
        assert(part.drop_last() =~= code_lengths.take(n - 1));
        let c = counts[n - 1] as int;
        let l = code_lengths[n - 1] as int;
        assert(c < 0x8000_0000_0000);
        assert(l > 0 <==> c > 0);
        if c > 0 {
            assert((0x10000 * c - 1) * l == 0x10000 * (c * l) - l) by (nonlinear_arith);
        } else {
            lemma_mul_basics_1(l);
        }
    }
}

/// Of the codes that cost the least, the chosen one has the greatest sum of
/// lengths.
pub proof fn law_longest_of_cheapest(counts: Seq<u64>, limit: nat, other: Seq<u8>)
    requires
        counts.len() == 256,
        forall|s: int| 0 <= s < 256 ==> #[trigger] counts[s] < 0x8000_0000_0000,
        limit <= 16,
        lengths::lengths_outcome(counts, limit) is Ok,
        lengths::used(counts) >= 2,
        other.len() == 256,
        forall|s: int| 0 <= s < 256 ==> (#[trigger] other[s] > 0 <==> counts[s] > 0),
        forall|s: int| 0 <= s < 256 ==> #[trigger] other[s] <= limit,
        lengths::kraft_sum(other, limit, 256) <= pow2(limit),
        cheapest::cost(counts, other, 256) <= cheapest::cost(
            counts,
            lengths::lengths_outcome(counts, limit)->Ok_0,
            256,
        ),
    ensures
        length_sum(other) <= length_sum(lengths::lengths_outcome(counts, limit)->Ok_0),
{
    let more = scaled(counts);
    let best = lengths::lengths_outcome(counts, limit)->Ok_0;
    lengths::law_lengths_complete(counts, limit);
    lemma_scaled_ordered(counts, 256);
    let j = (limit - 1) as nat;
    lemma_scaled_level(counts, j);
    let a = lengths::level(lengths::leaves(more), j);
    let b = lengths::level(lengths::leaves(counts), j);
    let t = 2 * lengths::used(counts) - 2;
    assert forall|s: u8|
        #[trigger] lengths::occurrences(lengths::bought(more, limit), s) == lengths::occurrences(
            lengths::bought(counts, limit),
            s,
        ) by {
        assert forall|i: int| 0 <= i < b.take(t).len() implies (#[trigger] a.take(t)[i]).syms
            == b.take(t)[i].syms by {
            assert(a[i].syms == b[i].syms);
        }
        lemma_same_occurrences(a.take(t), b.take(t), s);
    }
    assert(lengths::lengths_outcome(more, limit)->Ok_0 =~= best);
    assert forall|s: int| 0 <= s < 256 implies (#[trigger] other[s] > 0 <==> more[s] > 0) by {
        assert(counts[s] < 0x8000_0000_0000);
    }
    cheapest::law_lengths_cheapest(more, limit, other);
    lemma_scaled_cost(counts, best, 256);
    lemma_scaled_cost(counts, other, 256);
    assert(best.take(256) =~= best);
    assert(other.take(256) =~= other);
}

proof fn lemma_occurs_multiset(syms: Seq<u8>, s: u8)
    ensures
        lengths::occurs(syms, s) == syms.to_multiset().count(s),
    decreases syms.len(),
{
    broadcast use vstd::seq_lib::group_to_multiset_ensures;

    if syms.len() > 0 {
        lemma_occurs_multiset(syms.drop_last(), s);
        assert(syms =~= syms.drop_last().push(syms.last()));
    }
}

/// The histogram of a plane says of each symbol how often it stands in the
/// slices.
pub proof fn law_histogram(slices: Seq<Seq<u8>>, s: int)
    requires
        bytes::concat(slices).len() <= u64::MAX,
        0 <= s < 256,
    ensures
        encoder::histogram(slices).len() == 256,
        encoder::histogram(slices)[s] == bytes::concat(slices).to_multiset().count(s as u8),
{
    let all = bytes::concat(slices);
    lemma_occurs_multiset(all, s as u8);
    encoder::lemma_occurs_bound(all, s as u8);
}

proof fn lemma_histogram_zero(slices: Seq<Seq<u8>>, s: int)
    requires
        bytes::concat(slices).len() <= u64::MAX,
        0 <= s < 256,
    ensures
        encoder::histogram(slices)[s] > 0 <==> bytes::concat(slices).contains(s as u8),
{
    broadcast use vstd::seq_lib::group_to_multiset_ensures;

    law_histogram(slices, s);
}

/// The descriptor of a plane: 255 for a symbol that does not stand in its
/// slices; 0 for the only one that does; and from 1 to 16 for one of several.
pub proof fn law_plane_descriptor(slices: Seq<Seq<u8>>, s: u8, t: u8)
    requires
        bytes::concat(slices).len() <= u64::MAX,
    ensures
        ({
            let all = bytes::concat(slices);
            let d = encoder::plane_descriptor(slices);
            &&& d.len() == 256
            &&& !all.contains(s) <==> d[s as int] == 255
            &&& all.contains(s) && (forall|i: int| 0 <= i < all.len() ==> #[trigger] all[i] == s)
                ==> d[s as int] == 0
            &&& all.contains(s) && all.contains(t) && s != t ==> {
                &&& 1 <= d[s as int] <= 16
                &&& canonical::shape(d) == Ok::<Shape, Error>(Shape::Coded)
            }
        }),
{
    let all = bytes::concat(slices);
    let counts = encoder::histogram(slices);
    let d = encoder::plane_descriptor(slices);
    lemma2_to64();
    lemma_histogram_zero(slices, s as int);
    lemma_histogram_zero(slices, t as int);
    lengths::lemma_ordered(counts, 256);
    if lengths::used(counts) >= 2 {
        lengths::law_lengths_complete(counts, 16);
        lengths::law_descriptor_complete(counts, 16);
        let best = lengths::lengths_outcome(counts, 16)->Ok_0;
        assert(best[s as int] > 0 <==> counts[s as int] > 0);
        assert(best[s as int] <= 16);
    }
    if all.contains(s) && all.contains(t) && s != t {
        lemma_two_used(counts, s as int, t as int);
    }
    if all.contains(s) && (forall|i: int| 0 <= i < all.len() ==> #[trigger] all[i] == s) {
        assert forall|b: int| 0 <= b < 256 && b != s as int implies #[trigger] counts[b] == 0 by {
            lemma_histogram_zero(slices, b);
        }
        lemma_one_used(counts, s as int);
    }
}

/// The lengths in the descriptor of a plane with two different residuals are
/// those of the histogram of the plane for at most sixteen bits. Of two residuals
/// that occur the rarer one, or the lower one where both occur equally often, has
/// no shorter a code.
pub proof fn law_plane_code_order(slices: Seq<Seq<u8>>, a: u8, b: u8)
    requires
        bytes::concat(slices).len() <= u64::MAX,
        bytes::concat(slices).contains(a),
        bytes::concat(slices).contains(b),
        a != b,
    ensures
        ({
            let all = bytes::concat(slices).to_multiset();
            let d = encoder::plane_descriptor(slices);
            let r = lengths::lengths_outcome(encoder::histogram(slices), 16);
            &&& r matches Ok(best)
            &&& d[a as int] == best[a as int]
            &&& d[b as int] == best[b as int]
            &&& all.count(a) < all.count(b) || (all.count(a) == all.count(b) && a < b)
                ==> d[a as int] >= d[b as int]
        }),
{
    let counts = encoder::histogram(slices);
    lemma2_to64();
    law_histogram(slices, a as int);
    law_histogram(slices, b as int);
    lemma_histogram_zero(slices, a as int);
    lemma_histogram_zero(slices, b as int);
    lemma_two_used(counts, a as int, b as int);
    lengths::lemma_ordered(counts, 256);
    lengths::law_lengths_complete(counts, 16);
    let best = lengths::lengths_outcome(counts, 16)->Ok_0;
    assert(best[a as int] > 0 <==> counts[a as int] > 0);
    assert(best[b as int] > 0 <==> counts[b as int] > 0);
    if counts[a as int] < counts[b as int] || (counts[a as int] == counts[b as int] && a < b) {
        law_rarer_is_longer(counts, 16, a as int, b as int);
    }
}

/// No complete code of at most sixteen bits that has a code for every residual
/// of a plane with two different residuals takes fewer bits than the one that
/// the encoder chooses.
pub proof fn law_plane_code_shortest(slices: Seq<Seq<u8>>, other: Seq<u8>, s: u8, t: u8)
    requires
        bytes::concat(slices).len() <= u64::MAX,
        bytes::concat(slices).contains(s),
        bytes::concat(slices).contains(t),
        s != t,
        canonical::shape(other) == Ok::<Shape, Error>(Shape::Coded),
        forall|i: int|
            0 <= i < bytes::concat(slices).len() ==> 1
                <= other[#[trigger] bytes::concat(slices)[i] as int] <= 16,
        forall|x: int| 0 <= x < 256 ==> #[trigger] other[x] <= 16 || other[x] == 255,
    ensures
        canonical::encoded_bits(
            encoder::plane_descriptor(slices),
            bytes::concat(slices),
        ).len() <= canonical::encoded_bits(other, bytes::concat(slices)).len(),
{
    let counts = encoder::histogram(slices);
    lemma_histogram_zero(slices, s as int);
    lemma_histogram_zero(slices, t as int);
    lemma_two_used(counts, s as int, t as int);
    assert forall|x: int| 0 <= x < 256 && canonical::is_active(#[trigger] other[x]) implies other[x]
        <= encoder::MAX_CODE_LENGTH by {}
    laws::law_plane_code_cheapest(slices, other);
}

} // verus!
