use vstd::prelude::*;

use crate::gate::{ArrayLock, Cancelled};
use crate::sort::{run_outcome, running, Sort};

verus! {

/// The bucket a value is counted under: the base-`buckets` digit selected
/// by `divisor` of the value shifted down by one (values start at 1).
pub open spec fn digit_of(v: usize, divisor: usize, buckets: usize) -> int {
    ((v - 1) / (divisor as int)) % (buckets as int)
}

/// How many values of `s` fall in bucket `k`.
pub open spec fn count_key(s: Seq<usize>, divisor: usize, buckets: usize, k: int) -> nat
    decreases s.len(),
{
    if s.len() == 0 {
        0
    } else {
        count_key(s.drop_last(), divisor, buckets, k) + (if digit_of(s.last(), divisor, buckets)
            == k {
            1nat
        } else {
            0nat
        })
    }
}

/// How many values of `s` fall in buckets `0..=k`.
pub open spec fn ksum(s: Seq<usize>, divisor: usize, buckets: usize, k: int) -> nat
    decreases k + 1,
{
    if k < 0 {
        0
    } else {
        ksum(s, divisor, buckets, k - 1) + count_key(s, divisor, buckets, k)
    }
}

proof fn lemma_count_le_len(s: Seq<usize>, divisor: usize, buckets: usize, k: int)
    ensures
        count_key(s, divisor, buckets, k) <= s.len(),
    decreases s.len(),
{
    if s.len() > 0 {
        lemma_count_le_len(s.drop_last(), divisor, buckets, k);
    }
}

proof fn lemma_count_push(s: Seq<usize>, divisor: usize, buckets: usize, k: int, v: usize)
    ensures
        count_key(s.push(v), divisor, buckets, k) == count_key(s, divisor, buckets, k) + (if
        digit_of(v, divisor, buckets) == k {
            1nat
        } else {
            0nat
        }),
{
    assert(s.push(v).drop_last() =~= s);
    assert(s.push(v).last() == v);
}

proof fn lemma_count_drop_first(s: Seq<usize>, divisor: usize, buckets: usize, k: int)
    requires
        s.len() > 0,
    ensures
        count_key(s, divisor, buckets, k) == count_key(s.drop_first(), divisor, buckets, k) + (if
        digit_of(s.first(), divisor, buckets) == k {
            1nat
        } else {
            0nat
        }),
    decreases s.len(),
{
    if s.len() == 1 {
        assert(s.drop_last() =~= s.drop_first());
        assert(s.last() == s.first());
    } else {
        lemma_count_drop_first(s.drop_last(), divisor, buckets, k);
        assert(s.drop_last().drop_first() =~= s.drop_first().drop_last());
        assert(s.drop_last().first() == s.first());
        assert(s.drop_first().last() == s.last());
    }
}

proof fn lemma_count_reverse(s: Seq<usize>, divisor: usize, buckets: usize, k: int)
    ensures
        count_key(s.reverse(), divisor, buckets, k) == count_key(s, divisor, buckets, k),
    decreases s.len(),
{
    if s.len() > 0 {
        lemma_count_reverse(s.drop_first(), divisor, buckets, k);
        assert(s.reverse().drop_last() =~= s.drop_first().reverse());
        assert(s.reverse().last() == s.first());
        lemma_count_drop_first(s, divisor, buckets, k);
    }
}

proof fn lemma_ksum_reverse(s: Seq<usize>, divisor: usize, buckets: usize, k: int)
    ensures
        ksum(s.reverse(), divisor, buckets, k) == ksum(s, divisor, buckets, k),
    decreases k + 1,
{
    if k >= 0 {
        lemma_ksum_reverse(s, divisor, buckets, k - 1);
        lemma_count_reverse(s, divisor, buckets, k);
    }
}

proof fn lemma_ksum_push(s: Seq<usize>, divisor: usize, buckets: usize, k: int, v: usize)
    requires
        buckets >= 1,
    ensures
        ksum(s.push(v), divisor, buckets, k) == ksum(s, divisor, buckets, k) + (if digit_of(
            v,
            divisor,
            buckets,
        ) <= k {
            1nat
        } else {
            0nat
        }),
    decreases k + 1,
{
    vstd::arithmetic::div_mod::lemma_mod_bound((v - 1) / (divisor as int), buckets as int);
    if k >= 0 {
        lemma_ksum_push(s, divisor, buckets, k - 1, v);
        lemma_count_push(s, divisor, buckets, k, v);
        assert(ksum(s.push(v), divisor, buckets, k) == ksum(s.push(v), divisor, buckets, k - 1)
            + count_key(s.push(v), divisor, buckets, k));
        assert(ksum(s, divisor, buckets, k) == ksum(s, divisor, buckets, k - 1) + count_key(
            s,
            divisor,
            buckets,
            k,
        ));
    }
}

proof fn lemma_ksum_total(s: Seq<usize>, divisor: usize, buckets: usize)
    requires
        buckets >= 1,
        divisor >= 1,
    ensures
        ksum(s, divisor, buckets, buckets - 1) == s.len(),
    decreases s.len(),
{
    if s.len() == 0 {
        lemma_ksum_empty(s, divisor, buckets, buckets - 1);
    } else {
        lemma_ksum_total(s.drop_last(), divisor, buckets);
        assert(s.drop_last().push(s.last()) =~= s);
        lemma_ksum_push(s.drop_last(), divisor, buckets, buckets - 1, s.last());
    }
}

proof fn lemma_ksum_empty(s: Seq<usize>, divisor: usize, buckets: usize, k: int)
    requires
        s.len() == 0,
    ensures
        ksum(s, divisor, buckets, k) == 0,
    decreases k + 1,
{
    if k >= 0 {
        lemma_ksum_empty(s, divisor, buckets, k - 1);
    }
}

proof fn lemma_ksum_mono(s: Seq<usize>, divisor: usize, buckets: usize, k1: int, k2: int)
    requires
        k1 <= k2,
    ensures
        ksum(s, divisor, buckets, k1) <= ksum(s, divisor, buckets, k2),
    decreases k2 - k1,
{
    if k1 < k2 {
        lemma_ksum_mono(s, divisor, buckets, k1, k2 - 1);
    }
}

proof fn lemma_count_prefix(s: Seq<usize>, divisor: usize, buckets: usize, k: int, p: int)
    requires
        0 <= p <= s.len(),
    ensures
        count_key(s.take(p), divisor, buckets, k) <= count_key(s, divisor, buckets, k),
    decreases s.len() - p,
{
    if p == s.len() {
        assert(s.take(p) =~= s);
    } else {
        lemma_count_prefix(s, divisor, buckets, k, p + 1);
        assert(s.take(p + 1) =~= s.take(p).push(s[p]));
        lemma_count_push(s.take(p), divisor, buckets, k, s[p]);
    }
}

/// The values of `s` that fall in bucket `k`, in their original order.
pub open spec fn bucket_seq(s: Seq<usize>, divisor: usize, buckets: usize, k: int) -> Seq<usize> {
    s.filter(|x: usize| digit_of(x, divisor, buckets) == k)
}

proof fn lemma_bucket_empty(divisor: usize, buckets: usize, k: int)
    ensures
        bucket_seq(Seq::<usize>::empty(), divisor, buckets, k) == Seq::<usize>::empty(),
{
    reveal(Seq::filter);
}

proof fn lemma_bucket_push(s: Seq<usize>, divisor: usize, buckets: usize, k: int, v: usize)
    ensures
        bucket_seq(s.push(v), divisor, buckets, k) == (if digit_of(v, divisor, buckets) == k {
            bucket_seq(s, divisor, buckets, k).push(v)
        } else {
            bucket_seq(s, divisor, buckets, k)
        }),
{
    reveal(Seq::filter);
    assert(s.push(v).drop_last() =~= s);
    assert(s.push(v).last() == v);
}

proof fn lemma_bucket_drop_first(s: Seq<usize>, divisor: usize, buckets: usize, k: int)
    requires
        s.len() > 0,
    ensures
        bucket_seq(s, divisor, buckets, k) == (if digit_of(s.first(), divisor, buckets) == k {
            seq![s.first()] + bucket_seq(s.drop_first(), divisor, buckets, k)
        } else {
            bucket_seq(s.drop_first(), divisor, buckets, k)
        }),
    decreases s.len(),
{
    reveal(Seq::filter);
    if s.len() == 1 {
        assert(s.drop_last() =~= Seq::<usize>::empty());
        assert(s.drop_first() =~= Seq::<usize>::empty());
        assert(s.last() == s.first());
        if digit_of(s.first(), divisor, buckets) == k {
            assert(bucket_seq(s, divisor, buckets, k) =~= seq![s.first()] + bucket_seq(
                s.drop_first(),
                divisor,
                buckets,
                k,
            ));
        }
    } else {
        lemma_bucket_drop_first(s.drop_last(), divisor, buckets, k);
        assert(s.drop_last().drop_first() =~= s.drop_first().drop_last());
        assert(s.drop_last().first() == s.first());
        assert(s.drop_first().last() == s.last());
        if digit_of(s.first(), divisor, buckets) == k {
            assert((seq![s.first()] + bucket_seq(s.drop_first().drop_last(), divisor, buckets, k)).push(
                s.last(),
            ) =~= seq![s.first()] + bucket_seq(s.drop_first().drop_last(), divisor, buckets, k).push(
                s.last(),
            ));
        }
    }
}

proof fn lemma_bucket_reverse(s: Seq<usize>, divisor: usize, buckets: usize, k: int)
    ensures
        bucket_seq(s.reverse(), divisor, buckets, k) == bucket_seq(s, divisor, buckets, k).reverse(),
    decreases s.len(),
{
    reveal(Seq::filter);
    if s.len() == 0 {
        assert(s.reverse() =~= s);
        assert(bucket_seq(s, divisor, buckets, k).reverse() =~= bucket_seq(s, divisor, buckets, k));
    } else {
        lemma_bucket_reverse(s.drop_first(), divisor, buckets, k);
        lemma_bucket_drop_first(s, divisor, buckets, k);
        assert(s.reverse().drop_last() =~= s.drop_first().reverse());
        assert(s.reverse().last() == s.first());
        if digit_of(s.first(), divisor, buckets) == k {
            assert((seq![s.first()] + bucket_seq(s.drop_first(), divisor, buckets, k)).reverse()
                =~= bucket_seq(s.drop_first(), divisor, buckets, k).reverse().push(s.first()));
        }
    }
}

proof fn lemma_bucket_len(s: Seq<usize>, divisor: usize, buckets: usize, k: int)
    ensures
        bucket_seq(s, divisor, buckets, k).len() == count_key(s, divisor, buckets, k),
    decreases s.len(),
{
    reveal(Seq::filter);
    if s.len() > 0 {
        lemma_bucket_len(s.drop_last(), divisor, buckets, k);
    }
}

/// The values of `s` whose bucket is at most `k`, in their original order.
spec fn low_seq(s: Seq<usize>, divisor: usize, buckets: usize, k: int) -> Seq<usize> {
    s.filter(|x: usize| digit_of(x, divisor, buckets) <= k)
}

proof fn lemma_low_all(s: Seq<usize>, divisor: usize, buckets: usize)
    requires
        buckets >= 1,
    ensures
        low_seq(s, divisor, buckets, buckets - 1) == s,
    decreases s.len(),
{
    reveal(Seq::filter);
    if s.len() > 0 {
        lemma_low_all(s.drop_last(), divisor, buckets);
        vstd::arithmetic::div_mod::lemma_mod_bound(
            (s.last() - 1) / (divisor as int),
            buckets as int,
        );
        assert(low_seq(s, divisor, buckets, buckets - 1) =~= s);
    }
}

proof fn lemma_low_none(s: Seq<usize>, divisor: usize, buckets: usize, k: int)
    requires
        buckets >= 1,
        k < 0,
    ensures
        low_seq(s, divisor, buckets, k) == Seq::<usize>::empty(),
    decreases s.len(),
{
    reveal(Seq::filter);
    if s.len() > 0 {
        lemma_low_none(s.drop_last(), divisor, buckets, k);
        vstd::arithmetic::div_mod::lemma_mod_bound(
            (s.last() - 1) / (divisor as int),
            buckets as int,
        );
        assert(low_seq(s, divisor, buckets, k) =~= Seq::<usize>::empty());
    }
}

proof fn lemma_low_split(s: Seq<usize>, divisor: usize, buckets: usize, k: int)
    ensures
        low_seq(s, divisor, buckets, k).to_multiset() == low_seq(
            s,
            divisor,
            buckets,
            k - 1,
        ).to_multiset().add(bucket_seq(s, divisor, buckets, k).to_multiset()),
    decreases s.len(),
{
    broadcast use vstd::seq_lib::group_to_multiset_ensures;
    broadcast use vstd::multiset::group_multiset_axioms;

    reveal(Seq::filter);
    if s.len() == 0 {
        vstd::seq_lib::to_multiset_len(low_seq(s, divisor, buckets, k));
        vstd::seq_lib::to_multiset_len(low_seq(s, divisor, buckets, k - 1));
        vstd::seq_lib::to_multiset_len(bucket_seq(s, divisor, buckets, k));
        assert(low_seq(s, divisor, buckets, k).to_multiset() =~= low_seq(
            s,
            divisor,
            buckets,
            k - 1,
        ).to_multiset().add(bucket_seq(s, divisor, buckets, k).to_multiset()));
    } else {
        lemma_low_split(s.drop_last(), divisor, buckets, k);
        assert(low_seq(s, divisor, buckets, k).to_multiset() =~= low_seq(
            s,
            divisor,
            buckets,
            k - 1,
        ).to_multiset().add(bucket_seq(s, divisor, buckets, k).to_multiset()));
    }
}

/// The part of a value's key below modulus `m`: what the passes with
/// divisors under `m` have already sorted by.
pub open spec fn low_key(v: usize, m: int) -> int {
    (v - 1) % m
}

/// The sequence is ordered by its keys below modulus `m`.
pub open spec fn sorted_by_low(s: Seq<usize>, m: int) -> bool {
    forall|p: int, q: int| 0 <= p <= q < s.len() ==> low_key(s[p], m) <= low_key(s[q], m)
}

proof fn lemma_bucket_member(s: Seq<usize>, divisor: usize, buckets: usize, k: int, idx: int)
    requires
        0 <= idx < bucket_seq(s, divisor, buckets, k).len(),
    ensures
        exists|j: int|
            0 <= j < s.len() && #[trigger] s[j] == bucket_seq(s, divisor, buckets, k)[idx],
    decreases s.len(),
{
    reveal(Seq::filter);
    if s.len() > 0 {
        let sub = bucket_seq(s.drop_last(), divisor, buckets, k);
        if digit_of(s.last(), divisor, buckets) == k && idx == sub.len() {
            assert(s[s.len() - 1] == bucket_seq(s, divisor, buckets, k)[idx]);
        } else {
            lemma_bucket_member(s.drop_last(), divisor, buckets, k, idx);
            let j = choose|j: int|
                0 <= j < s.drop_last().len() && #[trigger] s.drop_last()[j] == bucket_seq(
                    s.drop_last(),
                    divisor,
                    buckets,
                    k,
                )[idx];
            assert(s[j] == bucket_seq(s, divisor, buckets, k)[idx]);
        }
    }
}

proof fn lemma_bucket_sorted_low(s: Seq<usize>, divisor: usize, buckets: usize, k: int)
    requires
        sorted_by_low(s, divisor as int),
    ensures
        sorted_by_low(bucket_seq(s, divisor, buckets, k), divisor as int),
    decreases s.len(),
{
    reveal(Seq::filter);
    if s.len() > 0 {
        assert(sorted_by_low(s.drop_last(), divisor as int)) by {
            assert(forall|p: int|
                0 <= p < s.len() - 1 ==> #[trigger] s.drop_last()[p] == s[p]);
        }
        lemma_bucket_sorted_low(s.drop_last(), divisor, buckets, k);
        let sub = bucket_seq(s.drop_last(), divisor, buckets, k);
        if digit_of(s.last(), divisor, buckets) == k {
            assert forall|a: int, b2: int|
                0 <= a <= b2 < sub.push(s.last()).len() implies low_key(
                #[trigger] sub.push(s.last())[a],
                divisor as int,
            ) <= low_key(#[trigger] sub.push(s.last())[b2], divisor as int) by {
                if b2 == sub.len() && a < b2 {
                    lemma_bucket_member(s.drop_last(), divisor, buckets, k, a);
                    let j = choose|j: int|
                        0 <= j < s.drop_last().len() && #[trigger] s.drop_last()[j] == sub[a];
                    assert(low_key(s[j], divisor as int) <= low_key(s.last(), divisor as int));
                }
            }
        }
    }
}

/// One counting pass over digit `divisor` refines the ordering: a sequence
/// sorted by keys below `divisor`, rearranged into digit buckets each of
/// which keeps the original order, is sorted by keys below
/// `divisor * buckets`.
proof fn lemma_pass_sorts_low(pre: Seq<usize>, post: Seq<usize>, divisor: usize, buckets: usize)
    requires
        1 <= divisor,
        1 <= buckets,
        post.len() == pre.len(),
        forall|t: int| 0 <= t < pre.len() ==> #[trigger] pre[t] >= 1,
        forall|k: int|
            0 <= k < buckets ==> #[trigger] post.subrange(
                ksum(pre, divisor, buckets, k - 1) as int,
                ksum(pre, divisor, buckets, k) as int,
            ) == bucket_seq(pre, divisor, buckets, k),
        sorted_by_low(pre, divisor as int),
    ensures
        sorted_by_low(post, divisor as int * buckets as int),
{
    lemma_ksum_total(pre, divisor, buckets);
    let d = divisor as int;
    let b = buckets as int;
    assert forall|p: int, q: int|
        0 <= p <= q < post.len() implies low_key(#[trigger] post[p], d * b) <= low_key(
        #[trigger] post[q],
        d * b,
    ) by {
        lemma_bucket_cover(pre, divisor, buckets, p, buckets - 1);
        lemma_bucket_cover(pre, divisor, buckets, q, buckets - 1);
        let kp = choose|k2: int|
            0 <= k2 <= buckets - 1 && #[trigger] ksum(pre, divisor, buckets, k2) > p && ksum(
                pre,
                divisor,
                buckets,
                k2 - 1,
            ) <= p;
        let kq = choose|k2: int|
            0 <= k2 <= buckets - 1 && #[trigger] ksum(pre, divisor, buckets, k2) > q && ksum(
                pre,
                divisor,
                buckets,
                k2 - 1,
            ) <= q;
        lemma_ksum_mono(pre, divisor, buckets, kp, buckets - 1);
        lemma_ksum_mono(pre, divisor, buckets, kq, buckets - 1);
        let lop = ksum(pre, divisor, buckets, kp - 1) as int;
        let loq = ksum(pre, divisor, buckets, kq - 1) as int;
        let vp = post[p];
        let vq = post[q];
        assert(post.subrange(lop, ksum(pre, divisor, buckets, kp) as int)[p - lop] == vp);
        assert(post.subrange(loq, ksum(pre, divisor, buckets, kq) as int)[q - loq] == vq);
        lemma_bucket_digit(pre, divisor, buckets, kp, p - lop);
        lemma_bucket_digit(pre, divisor, buckets, kq, q - loq);
        lemma_bucket_member(pre, divisor, buckets, kp, p - lop);
        lemma_bucket_member(pre, divisor, buckets, kq, q - loq);
        let jp = choose|j: int|
            0 <= j < pre.len() && #[trigger] pre[j] == bucket_seq(pre, divisor, buckets, kp)[p
                - lop];
        let jq = choose|j: int|
            0 <= j < pre.len() && #[trigger] pre[j] == bucket_seq(pre, divisor, buckets, kq)[q
                - loq];
        assert(vp >= 1 && vq >= 1);
        vstd::arithmetic::div_mod::lemma_breakdown(vp - 1, d, b);
        vstd::arithmetic::div_mod::lemma_breakdown(vq - 1, d, b);
        vstd::arithmetic::div_mod::lemma_mod_bound(vp - 1, d);
        vstd::arithmetic::div_mod::lemma_mod_bound(vq - 1, d);
        if kp > kq {
            lemma_ksum_mono(pre, divisor, buckets, kq, kp - 1);
            assert(false);
        }
        if kp < kq {
            assert(d * kp + d <= d * kq && d * ((vp - 1) / d % b) == d * kp && d * ((vq - 1) / d
                % b) == d * kq) by (nonlinear_arith)
                requires
                    kp < kq,
                    d >= 1,
                    (vp - 1) / d % b == kp,
                    (vq - 1) / d % b == kq,
            ;
        } else {
            assert(kp == kq);
            assert(low_key(vp, d) <= low_key(vq, d)) by {
                lemma_bucket_sorted_low(pre, divisor, buckets, kp);
                assert(bucket_seq(pre, divisor, buckets, kp)[p - lop] == vp);
                assert(bucket_seq(pre, divisor, buckets, kp)[q - lop] == vq);
            }
            assert(d * ((vp - 1) / d % b) == d * ((vq - 1) / d % b)) by (nonlinear_arith)
                requires
                    (vp - 1) / d % b == (vq - 1) / d % b,
            ;
        }
    }
}

proof fn lemma_bucket_digit(s: Seq<usize>, divisor: usize, buckets: usize, k: int, idx: int)
    requires
        0 <= idx < bucket_seq(s, divisor, buckets, k).len(),
    ensures
        digit_of(bucket_seq(s, divisor, buckets, k)[idx], divisor, buckets) == k,
    decreases s.len(),
{
    reveal(Seq::filter);
    if s.len() > 0 {
        let sub = bucket_seq(s.drop_last(), divisor, buckets, k);
        if digit_of(s.last(), divisor, buckets) == k && idx == sub.len() {
        } else {
            lemma_bucket_digit(s.drop_last(), divisor, buckets, k, idx);
        }
    }
}

/// In an identity pass (divisor 1, values within `1..=buckets`), the value
/// standing in bucket `k`'s range of the output is exactly `k + 1`.
proof fn lemma_ident_bucket_value(
    f: Seq<usize>,
    s: Seq<usize>,
    divisor: usize,
    buckets: usize,
    k: int,
    p: int,
)
    requires
        divisor == 1,
        1 <= buckets,
        forall|t: int| 0 <= t < s.len() ==> 1 <= #[trigger] s[t] <= buckets,
        f.len() == s.len(),
        f.to_multiset() == s.to_multiset(),
        ksum(s, divisor, buckets, buckets - 1) == s.len(),
        0 <= k < buckets,
        ksum(s, divisor, buckets, k - 1) <= p < ksum(s, divisor, buckets, k),
        f.subrange(ksum(s, divisor, buckets, k - 1) as int, ksum(s, divisor, buckets, k) as int)
            == bucket_seq(s, divisor, buckets, k),
    ensures
        f[p] == k + 1,
{
    broadcast use vstd::seq_lib::group_to_multiset_ensures;

    let lo = ksum(s, divisor, buckets, k - 1) as int;
    let hi = ksum(s, divisor, buckets, k) as int;
    lemma_ksum_mono(s, divisor, buckets, k, buckets - 1);
    assert(f.subrange(lo, hi)[p - lo] == f[p]);
    lemma_bucket_digit(s, divisor, buckets, k, p - lo);
    assert(f.contains(f[p]));
    assert(f.to_multiset().count(f[p]) > 0);
    assert(s.contains(f[p]));
    let wi = choose|i: int| 0 <= i < s.len() && s[i] == f[p];
    assert(1 <= s[wi] <= buckets);
    vstd::arithmetic::div_mod::lemma_small_mod((f[p] - 1) as nat, buckets as nat);
}

proof fn lemma_content_tm(f: Seq<usize>, s: Seq<usize>, divisor: usize, buckets: usize, k: int)
    requires
        1 <= buckets,
        1 <= divisor,
        k < buckets,
        f.len() == s.len(),
        ksum(s, divisor, buckets, buckets - 1) == s.len(),
        forall|k2: int|
            0 <= k2 < buckets ==> #[trigger] f.subrange(
                ksum(s, divisor, buckets, k2 - 1) as int,
                ksum(s, divisor, buckets, k2) as int,
            ) == bucket_seq(s, divisor, buckets, k2),
    ensures
        f.subrange(0, ksum(s, divisor, buckets, k) as int).to_multiset() == low_seq(
            s,
            divisor,
            buckets,
            k,
        ).to_multiset(),
    decreases k + 1,
{
    if k < 0 {
        lemma_low_none(s, divisor, buckets, k);
        assert(f.subrange(0, 0) =~= Seq::<usize>::empty());
    } else {
        lemma_content_tm(f, s, divisor, buckets, k - 1);
        lemma_low_split(s, divisor, buckets, k);
        lemma_ksum_mono(s, divisor, buckets, k, buckets - 1);
        assert(ksum(s, divisor, buckets, k) == ksum(s, divisor, buckets, k - 1) + count_key(
            s,
            divisor,
            buckets,
            k,
        ));
        let lo = ksum(s, divisor, buckets, k - 1) as int;
        let hi = ksum(s, divisor, buckets, k) as int;
        assert(f.subrange(0, hi) =~= f.subrange(0, lo) + f.subrange(lo, hi));
        vstd::seq_lib::lemma_multiset_commutative(f.subrange(0, lo), f.subrange(lo, hi));
        assert(f.subrange(lo, hi) == bucket_seq(s, divisor, buckets, k));
    }
}

proof fn lemma_bucket_cover(s: Seq<usize>, divisor: usize, buckets: usize, p: int, k: int)
    requires
        0 <= k < buckets,
        0 <= p < ksum(s, divisor, buckets, k),
    ensures
        exists|k2: int|
            0 <= k2 <= k && #[trigger] ksum(s, divisor, buckets, k2) > p && ksum(
                s,
                divisor,
                buckets,
                k2 - 1,
            ) <= p,
    decreases k,
{
    if p >= ksum(s, divisor, buckets, k - 1) {
        assert(ksum(s, divisor, buckets, k) > p && ksum(s, divisor, buckets, k - 1) <= p);
    } else {
        lemma_bucket_cover(s, divisor, buckets, p, k - 1);
    }
}

proof fn lemma_segments_after_place(
    oldnums: Seq<usize>,
    newnums: Seq<usize>,
    oldkeys: Seq<usize>,
    newkeys: Seq<usize>,
    rall: Seq<usize>,
    divisor: usize,
    buckets: usize,
    p: int,
    v: usize,
    key: usize,
    pos: usize,
)
    requires
        1 <= buckets,
        1 <= divisor,
        0 <= p < rall.len(),
        v == rall[p],
        key as int == digit_of(v, divisor, buckets),
        key < buckets,
        oldkeys.len() == buckets,
        newnums == oldnums.update(pos as int, v),
        newkeys == oldkeys.update(key as int, pos),
        pos as int == oldkeys[key as int] - 1,
        oldnums.len() == rall.len(),
        ksum(rall, divisor, buckets, buckets - 1) == rall.len(),
        forall|k: int|
            0 <= k < buckets ==> #[trigger] oldkeys[k] + count_key(
                rall.take(p),
                divisor,
                buckets,
                k,
            ) == ksum(rall, divisor, buckets, k),
        forall|k: int|
            0 <= k < buckets ==> #[trigger] oldnums.subrange(
                oldkeys[k] as int,
                ksum(rall, divisor, buckets, k) as int,
            ) == bucket_seq(rall.take(p), divisor, buckets, k).reverse(),
    ensures
        forall|k: int|
            0 <= k < buckets ==> #[trigger] newnums.subrange(
                newkeys[k] as int,
                ksum(rall, divisor, buckets, k) as int,
            ) == bucket_seq(rall.take(p + 1), divisor, buckets, k).reverse(),
{
    assert(rall.take(p + 1) =~= rall.take(p).push(v));
    lemma_count_push(rall.take(p), divisor, buckets, key as int, v);
    lemma_count_prefix(rall, divisor, buckets, key as int, p + 1);
    assert(ksum(rall, divisor, buckets, key as int) == ksum(rall, divisor, buckets, key - 1)
        + count_key(rall, divisor, buckets, key as int));
    assert(pos >= ksum(rall, divisor, buckets, key - 1));
    assert(oldkeys[key as int] <= ksum(rall, divisor, buckets, key as int));
    lemma_ksum_mono(rall, divisor, buckets, key as int, buckets - 1);
    assert(pos < rall.len());
    assert forall|k: int|
        0 <= k < buckets implies #[trigger] newnums.subrange(
        newkeys[k] as int,
        ksum(rall, divisor, buckets, k) as int,
    ) == bucket_seq(rall.take(p + 1), divisor, buckets, k).reverse() by {
        lemma_bucket_push(rall.take(p), divisor, buckets, k, v);
        lemma_count_prefix(rall, divisor, buckets, k, p);
        assert(ksum(rall, divisor, buckets, k) == ksum(rall, divisor, buckets, k - 1) + count_key(
            rall,
            divisor,
            buckets,
            k,
        ));
        lemma_ksum_mono(rall, divisor, buckets, k, buckets - 1);
        assert(oldnums.subrange(oldkeys[k] as int, ksum(rall, divisor, buckets, k) as int)
            == bucket_seq(rall.take(p), divisor, buckets, k).reverse());
        if k == key {
            assert(newnums.subrange(pos as int, ksum(rall, divisor, buckets, k) as int)
                =~= seq![v] + oldnums.subrange(pos + 1, ksum(rall, divisor, buckets, k) as int));
            assert(bucket_seq(rall.take(p + 1), divisor, buckets, k).reverse() =~= seq![v]
                + bucket_seq(rall.take(p), divisor, buckets, k).reverse());
        } else {
            assert(oldkeys[k] + count_key(rall.take(p), divisor, buckets, k) == ksum(
                rall,
                divisor,
                buckets,
                k,
            ));
            assert(oldkeys[k] >= ksum(rall, divisor, buckets, k - 1));
            assert(oldkeys[key as int] <= ksum(rall, divisor, buckets, key as int));
            if k < key {
                lemma_ksum_mono(rall, divisor, buckets, k, key - 1);
                assert(ksum(rall, divisor, buckets, k) <= ksum(rall, divisor, buckets, key - 1));
            } else {
                lemma_ksum_mono(rall, divisor, buckets, key as int, k - 1);
                assert(ksum(rall, divisor, buckets, key as int) <= ksum(
                    rall,
                    divisor,
                    buckets,
                    k - 1,
                ));
            }
            assert(newkeys[k] == oldkeys[k]);
            assert(ksum(rall, divisor, buckets, k) <= rall.len());
            assert(oldkeys[k] <= ksum(rall, divisor, buckets, k));
            assert forall|t: int|
                0 <= t < ksum(rall, divisor, buckets, k) - oldkeys[k] implies #[trigger] newnums[
                oldkeys[k] + t] == oldnums[oldkeys[k] + t] by {
                let q = oldkeys[k] + t;
                assert(oldkeys[k] >= ksum(rall, divisor, buckets, k - 1));
                assert(oldkeys[key as int] <= ksum(rall, divisor, buckets, key as int));
                if k < key {
                    lemma_ksum_mono(rall, divisor, buckets, k, key - 1);
                    assert(q < ksum(rall, divisor, buckets, key - 1));
                    assert(pos >= ksum(rall, divisor, buckets, key - 1));
                } else {
                    lemma_ksum_mono(rall, divisor, buckets, key as int, k - 1);
                    assert(q >= ksum(rall, divisor, buckets, key as int));
                    assert(pos < ksum(rall, divisor, buckets, key as int));
                }
                assert(q != pos);
            }
            assert(newnums.subrange(newkeys[k] as int, ksum(rall, divisor, buckets, k) as int)
                =~= oldnums.subrange(oldkeys[k] as int, ksum(rall, divisor, buckets, k) as int));
        }
    }
}

impl Sort {
    /// Distribution sort: count how many values fall in each bucket, turn
    /// the counts into end positions by a running sum, then place each value
    /// (taken in reverse read order) at its bucket's next free position.
    /// The pass is stable: on completion, bucket `k`'s range of the array
    /// holds exactly the bucket-`k` values in their original order, which is
    /// what the digit-by-digit radix composition rests on.
    #[verifier::loop_isolation(false)]
    #[verifier::spinoff_prover]
    #[verifier::rlimit(100)]
    pub fn counting_sort(
        lock: &mut ArrayLock,
        size: usize,
        buckets: usize,
        divisor: usize,
    ) -> (r: Result<(), Cancelled>)
        requires
            !old(lock).cancelled(),
            size == old(lock).nums().len(),
            1 <= buckets,
            1 <= divisor,
            forall|k: int| 0 <= k < size ==> #[trigger] old(lock).nums()[k] >= 1,
        ensures
            run_outcome(*old(lock), *final(lock), r),
            forall|k: int| 0 <= k < size ==> #[trigger] final(lock).nums()[k] >= 1,
            r is Ok ==> final(lock).nums().to_multiset() == old(lock).nums().to_multiset(),
            r is Ok ==> forall|k: int|
                0 <= k < buckets ==> #[trigger] final(lock).nums().subrange(
                    ksum(old(lock).nums(), divisor, buckets, k - 1) as int,
                    ksum(old(lock).nums(), divisor, buckets, k) as int,
                ) == bucket_seq(old(lock).nums(), divisor, buckets, k),
            r is Ok && divisor == 1 && (forall|k: int|
                0 <= k < size ==> #[trigger] old(lock).nums()[k] <= buckets) ==> crate::order::sorted(
                final(lock).nums(),
            ),
    {
        let mut keys: Vec<usize> = Vec::new();
        let mut bi: usize = 0;
        while bi < buckets
            invariant
                bi <= buckets,
                keys@.len() == bi,
                forall|k: int| 0 <= k < bi ==> keys@[k] == 0,
            decreases buckets - bi,
        {
            keys.push(0);
            bi = bi + 1;
        }
        let mut vals: Vec<usize> = Vec::new();
        let mut i: usize = 0;
        proof {
            assert(forall|k: int|
                0 <= k < buckets ==> keys@[k] == count_key(vals@, divisor, buckets, k));
        }
        while i < size
            invariant
                i <= size,
                vals@.len() == i,
                keys@.len() == buckets,
                running(*old(lock), *lock),
                lock.nums() == old(lock).nums(),
                forall|t: int| 0 <= t < i ==> #[trigger] vals@[t] == old(lock).nums()[t],
                forall|k: int|
                    0 <= k < buckets ==> #[trigger] keys@[k] == count_key(
                        vals@,
                        divisor,
                        buckets,
                        k,
                    ),
            decreases size - i,
        {
            let v = match lock.get(i) {
                Ok(v) => v,
                Err(e) => {
                    return Err(e);
                },
            };
            let key = ((v - 1) / divisor) % buckets;
            proof {
                lemma_count_le_len(vals@, divisor, buckets, key as int);
            }
            let ghost oldvals = vals@;
            vals.push(v);
            let kc = keys[key];
            keys.set(key, kc + 1);
            proof {
                assert forall|k: int|
                    0 <= k < buckets implies #[trigger] keys@[k] == count_key(
                    vals@,
                    divisor,
                    buckets,
                    k,
                ) by {
                    lemma_count_push(oldvals, divisor, buckets, k, v);
                }
            }
            i = i + 1;
        }
        let ghost all = vals@;
        proof {
            assert(ksum(all, divisor, buckets, -1) == 0);
            assert(ksum(all, divisor, buckets, 0) == count_key(all, divisor, buckets, 0));
        }
        let mut b2: usize = 1;
        while b2 < buckets
            invariant
                1 <= b2 <= buckets,
                keys@.len() == buckets,
                vals@ == all,
                all.len() == size,
                forall|k: int| 0 <= k < b2 ==> #[trigger] keys@[k] == ksum(all, divisor, buckets, k),
                forall|k: int|
                    b2 <= k < buckets ==> #[trigger] keys@[k] == count_key(
                        all,
                        divisor,
                        buckets,
                        k,
                    ),
            decreases buckets - b2,
        {
            let prev = keys[b2 - 1];
            let cur = keys[b2];
            proof {
                lemma_ksum_total(all, divisor, buckets);
                lemma_ksum_mono(all, divisor, buckets, b2 as int, buckets - 1);
            }
            keys.set(b2, prev + cur);
            b2 = b2 + 1;
        }
        proof {
            if buckets == 1 {
                assert(keys@[0] == ksum(all, divisor, buckets, 0));
            }
        }
        let r = Sort::place_values(lock, keys, &vals, size, buckets, divisor);
        proof {
            assert(vals@ =~= old(lock).nums());
            if divisor == 1 && (forall|k: int|
                0 <= k < size ==> #[trigger] old(lock).nums()[k] <= buckets) {
                assert(forall|t: int| 0 <= t < size ==> #[trigger] vals@[t] <= buckets);
            }
        }
        r
    }

    /// The placement pass of the distribution sort: walk the read values
    /// in reverse order and drop each at its bucket's next free position,
    /// taken from the running-sum table.
    #[verifier::loop_isolation(false)]
    #[verifier::spinoff_prover]
    #[verifier::rlimit(100)]
    fn place_values(
        lock: &mut ArrayLock,
        keys: Vec<usize>,
        vals: &Vec<usize>,
        size: usize,
        buckets: usize,
        divisor: usize,
    ) -> (r: Result<(), Cancelled>)
        requires
            !old(lock).cancelled(),
            size == old(lock).nums().len(),
            1 <= buckets,
            1 <= divisor,
            vals@.len() == size,
            forall|t: int| 0 <= t < size ==> #[trigger] vals@[t] >= 1,
            forall|t: int| 0 <= t < size ==> #[trigger] old(lock).nums()[t] >= 1,
            keys@.len() == buckets,
            forall|k: int|
                0 <= k < buckets ==> #[trigger] keys@[k] == ksum(vals@, divisor, buckets, k),
        ensures
            run_outcome(*old(lock), *final(lock), r),
            forall|k: int| 0 <= k < size ==> #[trigger] final(lock).nums()[k] >= 1,
            r is Ok ==> forall|k: int|
                0 <= k < buckets ==> #[trigger] final(lock).nums().subrange(
                    ksum(vals@, divisor, buckets, k - 1) as int,
                    ksum(vals@, divisor, buckets, k) as int,
                ) == bucket_seq(vals@, divisor, buckets, k),
            r is Ok ==> final(lock).nums().to_multiset() == vals@.to_multiset(),
            r is Ok && divisor == 1 && (forall|t: int|
                0 <= t < size ==> #[trigger] vals@[t] <= buckets) ==> crate::order::sorted(
                final(lock).nums(),
            ),
    {
        let mut keys = keys;
        let ghost all = vals@;
        let ghost rall = all.reverse();
        let mut p: usize = 0;
        proof {
            assert(rall.take(0) =~= Seq::<usize>::empty());
            assert forall|k: int|
                0 <= k < buckets implies #[trigger] keys@[k] + count_key(
                rall.take(0),
                divisor,
                buckets,
                k,
            ) == ksum(rall, divisor, buckets, k) by {
                lemma_ksum_reverse(all, divisor, buckets, k);
            }
            assert forall|k: int|
                0 <= k < buckets implies #[trigger] lock.nums().subrange(
                keys@[k] as int,
                ksum(rall, divisor, buckets, k) as int,
            ) == bucket_seq(rall.take(0), divisor, buckets, k).reverse() by {
                lemma_bucket_empty(divisor, buckets, k);
                assert(bucket_seq(rall.take(0), divisor, buckets, k).reverse()
                    =~= Seq::<usize>::empty());
                lemma_ksum_mono(rall, divisor, buckets, k, buckets - 1);
                lemma_ksum_reverse(all, divisor, buckets, buckets - 1);
                lemma_ksum_total(all, divisor, buckets);
                assert(lock.nums().subrange(keys@[k] as int, keys@[k] as int)
                    =~= Seq::<usize>::empty());
            }
        }
        while p < size
            invariant
                p <= size,
                keys@.len() == buckets,
                vals@ == all,
                all.len() == size,
                rall == all.reverse(),
                running(*old(lock), *lock),
                lock.nums().len() == size,
                forall|t: int| 0 <= t < size ==> #[trigger] all[t] >= 1,
                forall|t: int| 0 <= t < size ==> #[trigger] lock.nums()[t] >= 1,
                forall|k: int|
                    0 <= k < buckets ==> #[trigger] keys@[k] + count_key(
                        rall.take(p as int),
                        divisor,
                        buckets,
                        k,
                    ) == ksum(rall, divisor, buckets, k),
                forall|k: int|
                    0 <= k < buckets ==> #[trigger] lock.nums().subrange(
                        keys@[k] as int,
                        ksum(rall, divisor, buckets, k) as int,
                    ) == bucket_seq(rall.take(p as int), divisor, buckets, k).reverse(),
            decreases size - p,
        {
            let v = vals[size - 1 - p];
            proof {
                assert(rall[p as int] == all[size - 1 - p]);
            }
            let key = ((v - 1) / divisor) % buckets;
            proof {
                assert(rall.take(p + 1) =~= rall.take(p as int).push(v));
                lemma_count_push(rall.take(p as int), divisor, buckets, key as int, v);
                lemma_count_prefix(rall, divisor, buckets, key as int, p + 1);
                assert(ksum(rall, divisor, buckets, key as int) == ksum(
                    rall,
                    divisor,
                    buckets,
                    key - 1,
                ) + count_key(rall, divisor, buckets, key as int));
                lemma_ksum_reverse(all, divisor, buckets, buckets - 1);
                lemma_ksum_total(all, divisor, buckets);
                lemma_ksum_mono(rall, divisor, buckets, key as int, buckets - 1);
            }
            let ghost oldkeys = keys@;
            let ghost oldnums = lock.nums();
            let pos = keys[key] - 1;
            keys.set(key, pos);
            match lock.set(pos, v) {
                Ok(u) => u,
                Err(e) => {
                    return Err(e);
                },
            }
            proof {
                assert forall|k: int|
                    0 <= k < buckets implies #[trigger] keys@[k] + count_key(
                    rall.take(p + 1),
                    divisor,
                    buckets,
                    k,
                ) == ksum(rall, divisor, buckets, k) by {
                    lemma_count_push(rall.take(p as int), divisor, buckets, k, v);
                }
                lemma_segments_after_place(
                    oldnums,
                    lock.nums(),
                    oldkeys,
                    keys@,
                    rall,
                    divisor,
                    buckets,
                    p as int,
                    v,
                    key,
                    pos,
                );
            }
            p = p + 1;
        }
        proof {
            assert(rall.take(size as int) =~= rall);
            lemma_ksum_reverse(all, divisor, buckets, buckets - 1);
            lemma_ksum_total(all, divisor, buckets);
            assert forall|k: int|
                0 <= k < buckets implies #[trigger] lock.nums().subrange(
                ksum(all, divisor, buckets, k - 1) as int,
                ksum(all, divisor, buckets, k) as int,
            ) == bucket_seq(all, divisor, buckets, k) by {
                lemma_ksum_reverse(all, divisor, buckets, k);
                lemma_ksum_reverse(all, divisor, buckets, k - 1);
                lemma_bucket_reverse(all, divisor, buckets, k);
                lemma_count_reverse(all, divisor, buckets, k);
                assert(ksum(rall, divisor, buckets, k) == ksum(rall, divisor, buckets, k - 1)
                    + count_key(rall, divisor, buckets, k));
                assert(lock.nums().subrange(keys@[k] as int, ksum(rall, divisor, buckets, k) as int)
                    == bucket_seq(rall.take(size as int), divisor, buckets, k).reverse());
                assert(bucket_seq(rall, divisor, buckets, k) == bucket_seq(
                    all,
                    divisor,
                    buckets,
                    k,
                ).reverse());
                assert(bucket_seq(all, divisor, buckets, k).reverse().reverse() =~= bucket_seq(
                    all,
                    divisor,
                    buckets,
                    k,
                ));
            }
            lemma_content_tm(lock.nums(), all, divisor, buckets, buckets - 1);
            lemma_low_all(all, divisor, buckets);
            assert(lock.nums().subrange(0, size as int) =~= lock.nums());
        }
        proof {
            if divisor == 1 && (forall|t: int| 0 <= t < size ==> #[trigger] all[t] <= buckets) {
                broadcast use vstd::seq_lib::group_to_multiset_ensures;

                let f = lock.nums();
                assert forall|p2: int, q2: int|
                    0 <= p2 <= q2 < size implies #[trigger] f[p2] <= #[trigger] f[q2] by {
                    lemma_bucket_cover(all, divisor, buckets, p2, buckets - 1);
                    lemma_bucket_cover(all, divisor, buckets, q2, buckets - 1);
                    let kp = choose|k2: int|
                        0 <= k2 <= buckets - 1 && #[trigger] ksum(all, divisor, buckets, k2) > p2
                            && ksum(all, divisor, buckets, k2 - 1) <= p2;
                    let kq = choose|k2: int|
                        0 <= k2 <= buckets - 1 && #[trigger] ksum(all, divisor, buckets, k2) > q2
                            && ksum(all, divisor, buckets, k2 - 1) <= q2;
                    lemma_ident_bucket_value(f, all, divisor, buckets, kp, p2);
                    lemma_ident_bucket_value(f, all, divisor, buckets, kq, q2);
                    assert(f[p2] == kp + 1 && f[q2] == kq + 1);
                    if kp > kq {
                        lemma_ksum_mono(all, divisor, buckets, kq, kp - 1);
                        assert(false);
                    }
                }
                assert(crate::order::sorted(f));
            }
        }
        Ok(())
    }

    /// Sort by each digit in turn, least significant first, with one stable
    /// counting pass per digit: each pass refines the ordering to one more
    /// digit, and once the divisor passes `size`, values within `1..=size`
    /// are ordered completely.
    #[verifier::loop_isolation(false)]
    #[verifier::spinoff_prover]
    #[verifier::rlimit(100)]
    pub fn radix_sort(lock: &mut ArrayLock, size: usize, base: usize) -> (r: Result<
        (),
        Cancelled,
    >)
        requires
            !old(lock).cancelled(),
            size == old(lock).nums().len(),
            2 <= base,
            size <= usize::MAX / base,
            forall|k: int| 0 <= k < size ==> #[trigger] old(lock).nums()[k] >= 1,
        ensures
            run_outcome(*old(lock), *final(lock), r),
            r is Ok ==> final(lock).nums().to_multiset() == old(lock).nums().to_multiset(),
            r is Ok && (forall|k: int|
                0 <= k < size ==> #[trigger] old(lock).nums()[k] <= size) ==> crate::order::sorted(
                final(lock).nums(),
            ),
    {
        let mut i: usize = 1;
        proof {
            assert forall|p: int, q: int|
                0 <= p <= q < size implies low_key(#[trigger] lock.nums()[p], 1) <= low_key(
                #[trigger] lock.nums()[q],
                1,
            ) by {
                vstd::arithmetic::div_mod::lemma_mod_bound(lock.nums()[p] - 1, 1);
                vstd::arithmetic::div_mod::lemma_mod_bound(lock.nums()[q] - 1, 1);
            }
        }
        while size / i > 0
            invariant
                1 <= i,
                running(*old(lock), *lock),
                lock.nums().len() == size,
                lock.nums().to_multiset() == old(lock).nums().to_multiset(),
                forall|k: int| 0 <= k < size ==> #[trigger] lock.nums()[k] >= 1,
                sorted_by_low(lock.nums(), i as int),
                (forall|k: int| 0 <= k < size ==> #[trigger] old(lock).nums()[k] <= size)
                    ==> (forall|k: int| 0 <= k < size ==> #[trigger] lock.nums()[k] <= size),
            decreases size / i,
        {
            let ghost pre = lock.nums();
            match Sort::counting_sort(lock, size, base, i) {
                Ok(u) => u,
                Err(e) => {
                    return Err(e);
                },
            }
            proof {
                lemma_pass_sorts_low(pre, lock.nums(), i, base);
                if forall|k: int| 0 <= k < size ==> #[trigger] old(lock).nums()[k] <= size {
                    crate::order::lemma_values_bounded(pre, lock.nums(), size);
                }
            }
            let ghost i0 = i as int;
            proof {
                vstd::arithmetic::div_mod::lemma_fundamental_div_mod(size as int, i0);
                assert(i0 * (size as int / i0) >= i0) by (nonlinear_arith)
                    requires
                        size as int / i0 >= 1,
                        i0 >= 1,
                ;
                assert(i <= size);
                vstd::arithmetic::div_mod::lemma_fundamental_div_mod(
                    usize::MAX as int,
                    base as int,
                );
                assert(i * base <= (usize::MAX as int / base as int) * (base as int))
                    by (nonlinear_arith)
                    requires
                        1 <= i <= usize::MAX as int / base as int,
                        base >= 2,
                ;
            }
            i = i * base;
            proof {
                vstd::arithmetic::div_mod::lemma_div_denominator(size as int, i0, base as int);
                vstd::arithmetic::div_mod::lemma_div_decreases(size as int / i0, base as int);
            }
        }
        proof {
            broadcast use vstd::arithmetic::div_mod::lemma_small_div_converse;

            assert(size < i);
            if forall|k: int| 0 <= k < size ==> #[trigger] old(lock).nums()[k] <= size {
                assert forall|p: int, q: int|
                    0 <= p <= q < size implies #[trigger] lock.nums()[p]
                    <= #[trigger] lock.nums()[q] by {
                    vstd::arithmetic::div_mod::lemma_small_mod(
                        (lock.nums()[p] - 1) as nat,
                        i as nat,
                    );
                    vstd::arithmetic::div_mod::lemma_small_mod(
                        (lock.nums()[q] - 1) as nat,
                        i as nat,
                    );
                    assert(low_key(lock.nums()[p], i as int) <= low_key(lock.nums()[q], i as int));
                }
                assert(crate::order::sorted(lock.nums()));
            }
        }
        Ok(())
    }
}

} // verus!
