use vstd::prelude::*;

verus! {

/// The whole sequence is in non-decreasing order.
pub open spec fn sorted(s: Seq<usize>) -> bool {
    forall|i: int, j: int| 0 <= i <= j < s.len() ==> s[i] <= s[j]
}

/// The positions `lo..hi` are in non-decreasing order among themselves.
pub open spec fn sorted_between(s: Seq<usize>, lo: int, hi: int) -> bool {
    forall|i: int, j: int| lo <= i <= j < hi ==> s[i] <= s[j]
}

/// Every position at or above `m` holds a value no smaller than any value
/// before it; in particular the positions `m..` are sorted among themselves
/// and dominate the prefix.
pub open spec fn tail_finished(s: Seq<usize>, m: int) -> bool {
    forall|p: int, q: int| 0 <= p < q < s.len() && q >= m ==> s[p] <= s[q]
}

/// Every position below `m` holds a value no larger than any value after
/// it; in particular the positions `..m` are sorted among themselves and
/// are dominated by the rest.
pub open spec fn head_finished(s: Seq<usize>, m: int) -> bool {
    forall|p: int, q: int| 0 <= p < q < s.len() && p < m ==> s[p] <= s[q]
}

/// `post` holds the same values as `pre` outside `lo..hi`.
pub open spec fn same_outside(pre: Seq<usize>, post: Seq<usize>, lo: int, hi: int) -> bool {
    &&& post.len() == pre.len()
    &&& forall|k: int| 0 <= k < pre.len() && !(lo <= k < hi) ==> post[k] == pre[k]
}

proof fn lemma_le_chain(s: Seq<usize>, i: int, j: int)
    requires
        0 <= i <= j < s.len(),
        forall|k: int| i <= k < j ==> #[trigger] s[k] <= s[k + 1],
    ensures
        s[i] <= s[j],
    decreases j - i,
{
    if i < j {
        lemma_le_chain(s, i, j - 1);
    }
}

/// A sequence whose adjacent pairs within `lo..hi` are ordered is sorted
/// within `lo..hi`.
pub proof fn lemma_sorted_from_adjacent(s: Seq<usize>, lo: int, hi: int)
    requires
        0 <= lo,
        hi <= s.len(),
        forall|k: int| lo <= k < hi - 1 ==> #[trigger] s[k] <= s[k + 1],
    ensures
        sorted_between(s, lo, hi),
{
    assert forall|i: int, j: int| lo <= i <= j < hi implies s[i] <= s[j] by {
        lemma_le_chain(s, i, j);
    }
}

/// Exchanging two positions leaves the multiset of values unchanged.
pub proof fn lemma_swap_multiset(s: Seq<usize>, a: int, b: int)
    requires
        0 <= a < s.len(),
        0 <= b < s.len(),
    ensures
        s.update(a, s[b]).update(b, s[a]).to_multiset() == s.to_multiset(),
{
    broadcast use vstd::seq_lib::group_to_multiset_ensures;

    if a == b {
        assert(s.update(a, s[b]).update(b, s[a]) =~= s);
    } else {
        let s2 = s.update(a, s[b]);
        let s3 = s2.update(b, s[a]);
        vstd::seq_lib::to_multiset_update(s, a, s[b]);
        vstd::seq_lib::to_multiset_update(s2, b, s[a]);
        assert(s.to_multiset().contains(s[a]));
        assert(s2.to_multiset().contains(s[b])) by {
            assert(s2[b] == s[b]);
            assert(s2.contains(s[b]));
        }
        assert(s3.to_multiset() =~= s.to_multiset());
    }
}

/// Number of positions before `upto` whose value exceeds `v`.
pub open spec fn count_gt(s: Seq<usize>, v: usize, upto: int) -> nat
    decreases upto,
{
    if upto <= 0 {
        0
    } else {
        count_gt(s, v, upto - 1) + (if s[upto - 1] > v {
            1nat
        } else {
            0nat
        })
    }
}

/// Number of inverted pairs `(p, q)` with `p < q < upto` and `s[p] > s[q]`.
pub open spec fn inversions_upto(s: Seq<usize>, upto: int) -> nat
    decreases upto,
{
    if upto <= 0 {
        0
    } else {
        inversions_upto(s, upto - 1) + count_gt(s, s[upto - 1], upto - 1)
    }
}

/// Number of inverted pairs of the whole sequence: the measure that one
/// adjacent exchange of an out-of-order pair strictly decreases.
pub open spec fn inversions(s: Seq<usize>) -> nat {
    inversions_upto(s, s.len() as int)
}

proof fn lemma_count_gt_same_prefix(s: Seq<usize>, s2: Seq<usize>, v: usize, upto: int)
    requires
        forall|k: int| 0 <= k < upto ==> s2[k] == s[k],
    ensures
        count_gt(s2, v, upto) == count_gt(s, v, upto),
    decreases upto,
{
    if upto > 0 {
        lemma_count_gt_same_prefix(s, s2, v, upto - 1);
    }
}

proof fn lemma_inv_same_prefix(s: Seq<usize>, s2: Seq<usize>, upto: int)
    requires
        forall|k: int| 0 <= k < upto ==> s2[k] == s[k],
    ensures
        inversions_upto(s2, upto) == inversions_upto(s, upto),
    decreases upto,
{
    if upto > 0 {
        lemma_inv_same_prefix(s, s2, upto - 1);
        lemma_count_gt_same_prefix(s, s2, s[upto - 1], upto - 1);
    }
}

proof fn lemma_count_gt_adjacent_swap(s: Seq<usize>, a: int, v: usize, upto: int)
    requires
        0 <= a,
        a + 2 <= upto <= s.len(),
    ensures
        count_gt(s.update(a, s[a + 1]).update(a + 1, s[a]), v, upto) == count_gt(s, v, upto),
    decreases upto,
{
    let s2 = s.update(a, s[a + 1]).update(a + 1, s[a]);
    if upto == a + 2 {
        lemma_count_gt_same_prefix(s, s2, v, a);
        assert(count_gt(s, v, a + 1) == count_gt(s, v, a) + (if s[a] > v {
            1nat
        } else {
            0nat
        }));
        assert(count_gt(s2, v, a + 1) == count_gt(s2, v, a) + (if s2[a] > v {
            1nat
        } else {
            0nat
        }));
        assert(count_gt(s, v, a + 2) == count_gt(s, v, a + 1) + (if s[a + 1] > v {
            1nat
        } else {
            0nat
        }));
        assert(count_gt(s2, v, a + 2) == count_gt(s2, v, a + 1) + (if s2[a + 1] > v {
            1nat
        } else {
            0nat
        }));
    } else {
        lemma_count_gt_adjacent_swap(s, a, v, upto - 1);
    }
}

proof fn lemma_inv_adjacent_swap_upto(s: Seq<usize>, a: int, upto: int)
    requires
        0 <= a,
        a + 2 <= upto <= s.len(),
        s[a] > s[a + 1],
    ensures
        inversions_upto(s.update(a, s[a + 1]).update(a + 1, s[a]), upto) + 1 == inversions_upto(
            s,
            upto,
        ),
    decreases upto,
{
    let s2 = s.update(a, s[a + 1]).update(a + 1, s[a]);
    if upto == a + 2 {
        lemma_inv_same_prefix(s, s2, a);
        lemma_count_gt_same_prefix(s, s2, s[a], a);
        lemma_count_gt_same_prefix(s, s2, s[a + 1], a);
        assert(inversions_upto(s, a + 1) == inversions_upto(s, a) + count_gt(s, s[a], a));
        assert(count_gt(s, s[a + 1], a + 1) == count_gt(s, s[a + 1], a) + 1nat);
        assert(inversions_upto(s, a + 2) == inversions_upto(s, a + 1) + count_gt(
            s,
            s[a + 1],
            a + 1,
        ));
        assert(inversions_upto(s2, a + 1) == inversions_upto(s2, a) + count_gt(s2, s2[a], a));
        assert(count_gt(s2, s2[a + 1], a + 1) == count_gt(s2, s2[a + 1], a));
        assert(inversions_upto(s2, a + 2) == inversions_upto(s2, a + 1) + count_gt(
            s2,
            s2[a + 1],
            a + 1,
        ));
    } else {
        lemma_inv_adjacent_swap_upto(s, a, upto - 1);
        lemma_count_gt_adjacent_swap(s, a, s[upto - 1], upto - 1);
    }
}

/// Exchanging an adjacent out-of-order pair removes exactly one inversion.
pub proof fn lemma_adjacent_swap_inversions(s: Seq<usize>, a: int)
    requires
        0 <= a,
        a + 1 < s.len(),
        s[a] > s[a + 1],
    ensures
        inversions(s.update(a, s[a + 1]).update(a + 1, s[a])) + 1 == inversions(s),
{
    lemma_inv_adjacent_swap_upto(s, a, s.len() as int);
}

/// Two sequences that agree outside `lo..hi` and hold the same multiset
/// overall also hold the same multiset within `lo..hi`.
pub proof fn lemma_same_outside_multiset(a: Seq<usize>, b: Seq<usize>, lo: int, hi: int)
    requires
        0 <= lo <= hi <= a.len(),
        same_outside(a, b, lo, hi),
        a.to_multiset() == b.to_multiset(),
    ensures
        a.subrange(lo, hi).to_multiset() == b.subrange(lo, hi).to_multiset(),
{
    let apre = a.subrange(0, lo);
    let amid = a.subrange(lo, hi);
    let apost = a.subrange(hi, a.len() as int);
    let bpre = b.subrange(0, lo);
    let bmid = b.subrange(lo, hi);
    let bpost = b.subrange(hi, b.len() as int);
    assert(a =~= apre + amid + apost);
    assert(b =~= bpre + bmid + bpost);
    assert(bpre =~= apre);
    assert(bpost =~= apost);
    vstd::seq_lib::lemma_multiset_commutative(apre + amid, apost);
    vstd::seq_lib::lemma_multiset_commutative(apre, amid);
    vstd::seq_lib::lemma_multiset_commutative(apre + bmid, apost);
    vstd::seq_lib::lemma_multiset_commutative(apre, bmid);
    broadcast use vstd::multiset::group_multiset_axioms;

    assert(amid.to_multiset() =~= bmid.to_multiset()) by {
        assert forall|x: usize|
            #[trigger] amid.to_multiset().count(x) == bmid.to_multiset().count(x) by {
            assert(a.to_multiset().count(x) == apre.to_multiset().count(x) + amid.to_multiset().count(
                x,
            ) + apost.to_multiset().count(x));
            assert(b.to_multiset().count(x) == apre.to_multiset().count(x) + bmid.to_multiset().count(
                x,
            ) + apost.to_multiset().count(x));
        }
    }
}

/// Two sequences that agree outside `lo..hi` and hold the same multiset
/// within `lo..hi` hold the same multiset overall.
pub proof fn lemma_patch_multiset(a: Seq<usize>, b: Seq<usize>, lo: int, hi: int)
    requires
        0 <= lo <= hi <= a.len(),
        same_outside(a, b, lo, hi),
        a.subrange(lo, hi).to_multiset() == b.subrange(lo, hi).to_multiset(),
    ensures
        a.to_multiset() == b.to_multiset(),
{
    let amid = a.subrange(lo, hi);
    let bmid = b.subrange(lo, hi);
    let apre = a.subrange(0, lo);
    let apost = a.subrange(hi, a.len() as int);
    assert(a =~= apre + amid + apost);
    assert(b =~= apre + bmid + apost);
    vstd::seq_lib::lemma_multiset_commutative(apre + amid, apost);
    vstd::seq_lib::lemma_multiset_commutative(apre, amid);
    vstd::seq_lib::lemma_multiset_commutative(apre + bmid, apost);
    vstd::seq_lib::lemma_multiset_commutative(apre, bmid);
    assert(a.to_multiset() =~= b.to_multiset()) by {
        broadcast use vstd::multiset::group_multiset_axioms;

    }
}

/// A lower bound that holds of every value of `a` holds of every value of
/// any sequence with the same multiset.
pub proof fn lemma_values_bounded_below(a: Seq<usize>, b: Seq<usize>, v: usize)
    requires
        a.to_multiset() == b.to_multiset(),
        forall|k: int| 0 <= k < a.len() ==> #[trigger] a[k] >= v,
    ensures
        forall|k: int| 0 <= k < b.len() ==> #[trigger] b[k] >= v,
{
    broadcast use vstd::seq_lib::group_to_multiset_ensures;

    assert forall|k: int| 0 <= k < b.len() implies #[trigger] b[k] >= v by {
        assert(b.contains(b[k]));
        assert(b.to_multiset().count(b[k]) > 0);
        assert(a.contains(b[k]));
    }
}

/// A bound that holds of every value of `a` holds of every value of any
/// sequence with the same multiset.
pub proof fn lemma_values_bounded(a: Seq<usize>, b: Seq<usize>, v: usize)
    requires
        a.to_multiset() == b.to_multiset(),
        forall|k: int| 0 <= k < a.len() ==> #[trigger] a[k] <= v,
    ensures
        forall|k: int| 0 <= k < b.len() ==> #[trigger] b[k] <= v,
{
    broadcast use vstd::seq_lib::group_to_multiset_ensures;

    assert forall|k: int| 0 <= k < b.len() implies #[trigger] b[k] <= v by {
        assert(b.contains(b[k]));
        assert(b.to_multiset().count(b[k]) > 0);
        assert(a.contains(b[k]));
    }
}

/// Number of positions before `upto` whose value is below `v`.
pub open spec fn count_lt(s: Seq<usize>, v: usize, upto: int) -> nat
    decreases upto,
{
    if upto <= 0 {
        0
    } else {
        count_lt(s, v, upto - 1) + (if s[upto - 1] < v {
            1nat
        } else {
            0nat
        })
    }
}

proof fn lemma_count_lt_same_prefix(s: Seq<usize>, s2: Seq<usize>, v: usize, upto: int)
    requires
        forall|k: int| 0 <= k < upto ==> s2[k] == s[k],
    ensures
        count_lt(s2, v, upto) == count_lt(s, v, upto),
    decreases upto,
{
    if upto > 0 {
        lemma_count_lt_same_prefix(s, s2, v, upto - 1);
    }
}

proof fn lemma_count_lt_remove(s: Seq<usize>, v: usize, i: int)
    requires
        0 <= i < s.len(),
    ensures
        count_lt(s, v, s.len() as int) == count_lt(s.remove(i), v, s.len() - 1) + (if s[i] < v {
            1nat
        } else {
            0nat
        }),
    decreases s.len(),
{
    let n = s.len() as int;
    if i == n - 1 {
        assert(s.remove(i) =~= s.drop_last());
        lemma_count_lt_same_prefix(s, s.remove(i), v, n - 1);
    } else {
        let sdl = s.drop_last();
        lemma_count_lt_remove(sdl, v, i);
        assert(s.remove(i).drop_last() =~= sdl.remove(i));
        lemma_count_lt_same_prefix(s, sdl, v, n - 1);
        assert(count_lt(s, v, n) == count_lt(sdl, v, n - 1) + (if s[n - 1] < v {
            1nat
        } else {
            0nat
        }));
        lemma_count_lt_same_prefix(s.remove(i), s.remove(i).drop_last(), v, n - 2);
        assert(s.remove(i)[n - 2] == s[n - 1]);
        assert(count_lt(s.remove(i), v, n - 1) == count_lt(sdl.remove(i), v, n - 2) + (if s[n - 1]
            < v {
            1nat
        } else {
            0nat
        }));
    }
}

/// Sequences with the same multiset of values hold the same number of
/// values below any bound.
pub proof fn lemma_count_lt_perm(a: Seq<usize>, b: Seq<usize>, v: usize)
    requires
        a.to_multiset() == b.to_multiset(),
    ensures
        count_lt(a, v, a.len() as int) == count_lt(b, v, b.len() as int),
    decreases a.len(),
{
    broadcast use vstd::seq_lib::group_to_multiset_ensures;

    lemma_multiset_len(a, b);
    if a.len() > 0 {
        let x = a.last();
        assert(a.contains(x));
        assert(b.to_multiset().count(x) > 0);
        assert(b.contains(x));
        let i = choose|i: int| 0 <= i < b.len() && b[i] == x;
        let b2 = b.remove(i);
        assert(a.drop_last() =~= a.remove(a.len() - 1));
        assert(a.remove(a.len() - 1).to_multiset() == a.to_multiset().remove(x));
        assert(b2.to_multiset() == b.to_multiset().remove(x));
        lemma_count_lt_perm(a.drop_last(), b2, v);
        lemma_count_lt_remove(b, v, i);
        lemma_count_lt_same_prefix(a, a.drop_last(), v, a.len() - 1);
    }
}

proof fn lemma_count_lt_mono(s: Seq<usize>, v: usize, u1: int, u2: int)
    requires
        u1 <= u2,
    ensures
        count_lt(s, v, u1) <= count_lt(s, v, u2),
        count_lt(s, v, u2) <= count_lt(s, v, u1) + (u2 - u1),
    decreases u2 - u1,
{
    if u1 < u2 {
        lemma_count_lt_mono(s, v, u1, u2 - 1);
    }
}

/// A range whose values all reach `v` adds nothing to the count of values
/// below `v`.
proof fn lemma_count_lt_skips_range(s: Seq<usize>, v: usize, a: int, b: int)
    requires
        a <= b,
        forall|k: int| a <= k < b ==> #[trigger] s[k] >= v,
    ensures
        count_lt(s, v, b) == count_lt(s, v, a),
    decreases b - a,
{
    if a < b {
        lemma_count_lt_skips_range(s, v, a, b - 1);
    }
}

proof fn lemma_count_lt_full(s: Seq<usize>, v: usize, u: int)
    requires
        u <= s.len(),
        forall|k: int| 0 <= k < u ==> #[trigger] s[k] < v,
    ensures
        count_lt(s, v, u) == if u >= 0 {
            u
        } else {
            0
        },
    decreases u,
{
    if u > 0 {
        lemma_count_lt_full(s, v, u - 1);
    }
}

/// In a sorted sequence, a value below `v` at position `q` puts at least
/// `q + 1` values below `v`.
pub proof fn lemma_count_lt_sorted_prefix(s: Seq<usize>, v: usize, q: int)
    requires
        0 <= q < s.len(),
        sorted_between(s, 0, s.len() as int),
        s[q] < v,
    ensures
        count_lt(s, v, s.len() as int) >= q + 1,
{
    lemma_count_lt_full(s, v, q + 1);
    lemma_count_lt_mono(s, v, q + 1, s.len() as int);
}

/// The rank of `v` in `s`: how many values of `s` lie strictly below it.
/// In a duplicate-free sequence this is the position `v` belongs at.
pub open spec fn rank(s: Seq<usize>, v: usize) -> nat {
    count_lt(s, v, s.len() as int)
}

proof fn lemma_count_lt_value_mono(s: Seq<usize>, v: usize, w: usize, u: int)
    requires
        v <= w,
    ensures
        count_lt(s, v, u) <= count_lt(s, w, u),
    decreases u,
{
    if u > 0 {
        lemma_count_lt_value_mono(s, v, w, u - 1);
    }
}

/// A strictly smaller value has a strictly smaller rank.
pub proof fn lemma_rank_strict(s: Seq<usize>, j: int, w: usize)
    requires
        0 <= j < s.len(),
        s[j] < w,
    ensures
        rank(s, s[j]) < rank(s, w),
{
    lemma_count_lt_remove(s, w, j);
    lemma_count_lt_remove(s, s[j], j);
    lemma_count_lt_value_mono(s.remove(j), s[j], w, s.len() - 1);
}

/// No value's rank reaches the length: the value itself is not below itself.
pub proof fn lemma_rank_bound(s: Seq<usize>, p: int)
    requires
        0 <= p < s.len(),
    ensures
        rank(s, s[p]) < s.len(),
{
    lemma_count_lt_remove(s, s[p], p);
    lemma_count_lt_mono(s.remove(p), s[p], 0, s.len() - 1);
}

/// A sequence in which every value sits at its own rank is sorted.
pub proof fn lemma_all_ranked_sorted(s: Seq<usize>)
    requires
        forall|p: int| 0 <= p < s.len() ==> rank(s, #[trigger] s[p]) == p,
    ensures
        sorted(s),
{
    assert forall|p: int, q: int| 0 <= p <= q < s.len() implies s[p] <= s[q] by {
        if s[p] > s[q] {
            lemma_rank_strict(s, q, s[p]);
        }
    }
}

/// Number of positions before `upto` whose value does not sit at its rank.
pub open spec fn mis_upto(s: Seq<usize>, upto: int) -> nat
    decreases upto,
{
    if upto <= 0 {
        0
    } else {
        mis_upto(s, upto - 1) + (if rank(s, s[upto - 1]) != upto - 1 {
            1nat
        } else {
            0nat
        })
    }
}

/// Number of positions whose value does not sit at its rank: the measure
/// that each placement of a cycle walk strictly decreases.
pub open spec fn misplaced(s: Seq<usize>) -> nat {
    mis_upto(s, s.len() as int)
}

proof fn lemma_mis_le(s: Seq<usize>, u: int)
    ensures
        mis_upto(s, u) <= u || u < 0,
    decreases u,
{
    if u > 0 {
        lemma_mis_le(s, u - 1);
    }
}

/// A position away from its rank puts the misplacement count above zero.
pub proof fn lemma_mis_pos(s: Seq<usize>, p: int, u: int)
    requires
        0 <= p < u,
        rank(s, s[p]) != p,
    ensures
        mis_upto(s, u) >= 1,
    decreases u,
{
    if p < u - 1 {
        lemma_mis_pos(s, p, u - 1);
    }
}

proof fn lemma_mis_swap_upto(a: Seq<usize>, b: Seq<usize>, i: int, r: int, u: int)
    requires
        0 <= i < a.len(),
        0 <= r < a.len(),
        i != r,
        b =~= a.update(i, a[r]).update(r, a[i]),
        rank(a, a[i]) == r,
        rank(a, a[r]) != r,
        0 <= u <= a.len(),
    ensures
        mis_upto(b, u) + (if r < u {
            1int
        } else {
            0int
        }) <= mis_upto(a, u),
    decreases u,
{
    if u > 0 {
        lemma_mis_swap_upto(a, b, i, r, u - 1);
        lemma_swap_multiset(a, i, r);
        let p = u - 1;
        lemma_count_lt_perm(a, b, b[p]);
        if p == r {
            assert(b[p] == a[i]);
            assert(rank(b, b[p]) == rank(a, a[i]));
        } else if p != i {
            assert(b[p] == a[p]);
        }
    }
}

/// The conceptual exchange of a cycle-walk placement: the value in hand
/// moves to its rank position `r`, fixing it, and never unfixes more than
/// it fixes — the misplacement count strictly falls.
pub proof fn lemma_mis_swap(a: Seq<usize>, i: int, r: int)
    requires
        0 <= i < a.len(),
        0 <= r < a.len(),
        i != r,
        rank(a, a[i]) == r,
        a.no_duplicates(),
    ensures
        misplaced(a.update(i, a[r]).update(r, a[i])) < misplaced(a),
{
    assert(rank(a, a[r]) != r) by {
        if a[r] < a[i] {
            lemma_rank_strict(a, r, a[i]);
        } else {
            lemma_rank_strict(a, i, a[r]);
        }
    }
    let b = a.update(i, a[r]).update(r, a[i]);
    lemma_mis_swap_upto(a, b, i, r, a.len() as int);
    lemma_mis_pos(a, r, a.len() as int);
}

/// Once every position but the last sits at its rank, so does the last.
pub proof fn lemma_last_fixed(s: Seq<usize>)
    requires
        s.len() >= 1,
        s.no_duplicates(),
        forall|p: int| 0 <= p < s.len() - 1 ==> rank(s, #[trigger] s[p]) == p,
    ensures
        rank(s, s[s.len() - 1]) == s.len() - 1,
{
    let last = s.len() - 1;
    lemma_rank_bound(s, last);
    let r = rank(s, s[last]) as int;
    if r < last {
        assert(rank(s, s[r]) == r);
        if s[r] < s[last] {
            lemma_rank_strict(s, r, s[last]);
        } else if s[last] < s[r] {
            lemma_rank_strict(s, last, s[r]);
        }
        assert(false);
    }
}

/// The misplacement count never exceeds the length.
pub proof fn lemma_misplaced_le_len(s: Seq<usize>)
    ensures
        misplaced(s) <= s.len(),
{
    lemma_mis_le(s, s.len() as int);
}

/// If a sorted sequence holds the same values as one whose positions
/// `lo..hi` all reach `v`, then its positions from `len - (hi - lo)` on all
/// reach `v`: the displaced large block can only end up at the back.
pub proof fn lemma_sorted_perm_tail_bound(
    a: Seq<usize>,
    b: Seq<usize>,
    v: usize,
    lo: int,
    hi: int,
    q: int,
)
    requires
        a.to_multiset() == b.to_multiset(),
        0 <= lo <= hi <= a.len(),
        forall|k: int| lo <= k < hi ==> #[trigger] a[k] >= v,
        sorted_between(b, 0, b.len() as int),
        a.len() - (hi - lo) <= q < b.len(),
    ensures
        b[q] >= v,
{
    lemma_multiset_len(a, b);
    if b[q] < v {
        lemma_count_lt_sorted_prefix(b, v, q);
        lemma_count_lt_perm(a, b, v);
        lemma_count_lt_skips_range(a, v, lo, hi);
        lemma_count_lt_mono(a, v, 0, lo);
        lemma_count_lt_mono(a, v, hi, a.len() as int);
        assert(false);
    }
}

/// A sequence holding the same multiset as a duplicate-free sequence is
/// itself duplicate-free.
pub proof fn lemma_multiset_distinct(a: Seq<usize>, b: Seq<usize>)
    requires
        a.to_multiset() == b.to_multiset(),
        a.no_duplicates(),
    ensures
        b.no_duplicates(),
{
    a.lemma_multiset_has_no_duplicates();
    b.lemma_multiset_has_no_duplicates_conv();
}

/// Sequences with the same multiset of values have the same length.
pub proof fn lemma_multiset_len(a: Seq<usize>, b: Seq<usize>)
    requires
        a.to_multiset() == b.to_multiset(),
    ensures
        a.len() == b.len(),
{
    vstd::seq_lib::to_multiset_len(a);
    vstd::seq_lib::to_multiset_len(b);
}

} // verus!
