use vstd::prelude::*;

use crate::gate::{ArrayLock, Cancelled};
use crate::order::{
    lemma_multiset_distinct, lemma_same_outside_multiset, lemma_values_bounded,
    lemma_values_bounded_below, same_outside, sorted_between,
};
use crate::sort::{run_outcome, running, Sort};
use core::cmp::Ordering;

verus! {

/// Max-heap shape over positions `0..=max`, demanded only of parents at or
/// above `lo`: each such parent is at least as large as its children.
pub open spec fn heap_from(s: Seq<usize>, lo: int, max: int) -> bool {
    forall|c: int| 1 <= c <= max && (c - 1) / 2 >= lo ==> #[trigger] s[c] <= s[(c - 1) / 2]
}

/// `k` lies in the subtree rooted at `root` of the implicit binary heap.
pub open spec fn in_subtree(root: int, k: int) -> bool
    decreases k,
{
    if root < 0 || k < root {
        false
    } else if k == root {
        true
    } else {
        in_subtree(root, (k - 1) / 2)
    }
}

proof fn lemma_subtree_step(root: int, mid: int, k: int)
    requires
        in_subtree(mid, k),
        (mid - 1) / 2 == root,
        0 <= root < mid,
    ensures
        in_subtree(root, k),
    decreases k,
{
    if k == mid {
        assert(in_subtree(root, root));
    } else {
        lemma_subtree_step(root, mid, (k - 1) / 2);
    }
}

proof fn lemma_heapify_step(
    pre: Seq<usize>,
    smid: Seq<usize>,
    sfin: Seq<usize>,
    index: int,
    t: int,
    max: int,
)
    requires
        0 <= index <= max < pre.len(),
        t == 2 * index + 1 || t == 2 * index + 2,
        t <= max,
        heap_from(pre, index + 1, max),
        2 * index + 1 <= max ==> pre[2 * index + 1] <= pre[t],
        2 * index + 2 <= max ==> pre[2 * index + 2] <= pre[t],
        pre[index] < pre[t],
        smid == pre.update(index, pre[t]).update(t, pre[index]),
        sfin.len() == pre.len(),
        heap_from(sfin, t, max),
        forall|k: int| 0 <= k < pre.len() && !in_subtree(t, k) ==> #[trigger] sfin[k] == smid[k],
        sfin[t] == smid[t] || (2 * t + 1 <= max && sfin[t] == smid[2 * t + 1]) || (2 * t + 2 <= max
            && sfin[t] == smid[2 * t + 2]),
    ensures
        heap_from(sfin, index, max),
{
    assert(in_subtree(t, t));
    assert(!in_subtree(t, index));
    assert(sfin[index] == smid[index] && smid[index] == pre[t]);
    assert forall|c: int|
        1 <= c <= max && (c - 1) / 2 >= index implies #[trigger] sfin[c] <= sfin[(c - 1) / 2] by {
        let p = (c - 1) / 2;
        if in_subtree(t, c) {
            if c == t {
                assert(p == index);
                assert(smid[t] == pre[index]);
                assert(2 * t + 1 <= max ==> smid[2 * t + 1] == pre[2 * t + 1] && (2 * t + 1 - 1) / 2
                    == t);
                assert(2 * t + 2 <= max ==> smid[2 * t + 2] == pre[2 * t + 2] && (2 * t + 2 - 1) / 2
                    == t);
            } else {
                assert(in_subtree(t, p));
            }
        } else {
            assert(sfin[c] == smid[c]);
            if p == index {
                assert(c != t && c != index);
                assert(smid[c] == pre[c]);
            } else {
                if in_subtree(t, p) {
                    assert(p >= t);
                    assert(c > t);
                    assert(in_subtree(t, c));
                }
                assert(sfin[p] == smid[p]);
                assert(c != t && c != index && p != t && p != index);
                assert(smid[c] == pre[c] && smid[p] == pre[p]);
                assert(pre[c] <= pre[p]);
            }
        }
    }
}

proof fn lemma_root_max(s: Seq<usize>, max: int, c: int)
    requires
        heap_from(s, 0, max),
        0 <= c <= max < s.len(),
    ensures
        s[c] <= s[0],
    decreases c,
{
    if c > 0 {
        assert(s[c] <= s[(c - 1) / 2]);
        lemma_root_max(s, max, (c - 1) / 2);
    }
}

impl Sort {
    /// Sort each half, move the larger of the two half-maxima to the back,
    /// then sort everything but the back again.
    #[verifier::loop_isolation(false)]
    #[verifier::spinoff_prover]
    pub fn slow_sort(lock: &mut ArrayLock, start: usize, end: usize) -> (r: Result<(), Cancelled>)
        requires
            !old(lock).cancelled(),
            end < old(lock).nums().len(),
        ensures
            run_outcome(*old(lock), *final(lock), r),
            final(lock).nums().to_multiset() == old(lock).nums().to_multiset(),
            same_outside(old(lock).nums(), final(lock).nums(), start as int, end + 1),
            r is Ok ==> sorted_between(final(lock).nums(), start as int, end + 1),
            sorted_between(old(lock).nums(), start as int, end + 1) ==> final(lock).nums() == old(
                lock,
            ).nums() && final(lock).state().spec_writes() == old(lock).state().spec_writes(),
        decreases end - start,
    {
        if start < end {
            let m = start + (end - start) / 2;
            match Sort::slow_sort(lock, start, m) {
                Ok(u) => u,
                Err(e) => {
                    return Err(e);
                },
            }
            match Sort::slow_sort(lock, m + 1, end) {
                Ok(u) => u,
                Err(e) => {
                    return Err(e);
                },
            }
            let ghost s2 = lock.nums();
            proof {
                assert(sorted_between(s2, start as int, m + 1));
            }
            let gt = match lock.cmp_two(m, end) {
                Ok(o) => matches!(o, Ordering::Greater),
                Err(e) => {
                    return Err(e);
                },
            };
            if gt {
                let ghost before = lock.nums();
                match lock.swap(m, end) {
                    Ok(u) => u,
                    Err(e) => {
                        return Err(e);
                    },
                }
                proof {
                    crate::order::lemma_swap_multiset(before, m as int, end as int);
                }
            }
            let ghost s3 = lock.nums();
            proof {
                assert forall|k: int| start <= k <= end implies s3[k] <= s3[end as int] by {
                    if k < m {
                        assert(s3[k] == s2[k] && s2[k] <= s2[m as int]);
                    } else if m < k && k < end {
                        assert(s3[k] == s2[k] && s2[k] <= s2[end as int]);
                    }
                }
            }
            match Sort::slow_sort(lock, start, end - 1) {
                Ok(u) => u,
                Err(e) => {
                    return Err(e);
                },
            }
            proof {
                let s4 = lock.nums();
                assert(s4[end as int] == s3[end as int]);
                lemma_same_outside_multiset(s3, s4, start as int, end as int);
                assert(forall|k: int|
                    0 <= k < s3.subrange(start as int, end as int).len() ==> #[trigger] s3.subrange(
                        start as int,
                        end as int,
                    )[k] <= s3[end as int]);
                lemma_values_bounded(
                    s3.subrange(start as int, end as int),
                    s4.subrange(start as int, end as int),
                    s3[end as int],
                );
                assert forall|k: int| start <= k < end implies s4[k] <= s4[end as int] by {
                    assert(s4.subrange(start as int, end as int)[k - start] == s4[k]);
                }
                assert(sorted_between(s4, start as int, end + 1));
            }
        }
        Ok(())
    }

    /// Sort each half recursively, then merge the two sorted halves through
    /// a temporary buffer and write the merged order back.
    #[verifier::loop_isolation(false)]
    #[verifier::spinoff_prover]
    #[verifier::rlimit(100)]
    pub fn merge_sort(lock: &mut ArrayLock, start: usize, end: usize) -> (r: Result<(), Cancelled>)
        requires
            !old(lock).cancelled(),
            start <= end < old(lock).nums().len(),
        ensures
            run_outcome(*old(lock), *final(lock), r),
            r is Ok ==> final(lock).nums().to_multiset() == old(lock).nums().to_multiset(),
            same_outside(old(lock).nums(), final(lock).nums(), start as int, end + 1),
            r is Ok ==> sorted_between(final(lock).nums(), start as int, end + 1),
        decreases end - start,
    {
        proof {
            lock.lemma_len_bound();
        }
        if end - start == 1 {
            let gt = match lock.cmp_two(start, end) {
                Ok(o) => matches!(o, Ordering::Greater),
                Err(e) => {
                    return Err(e);
                },
            };
            if gt {
                let ghost before = lock.nums();
                match lock.swap(start, end) {
                    Ok(u) => u,
                    Err(e) => {
                        return Err(e);
                    },
                }
                proof {
                    crate::order::lemma_swap_multiset(before, start as int, end as int);
                }
            }
        } else if end - start > 1 {
            let m = start + (end - start) / 2;
            match Sort::merge_sort(lock, start, m) {
                Ok(u) => u,
                Err(e) => {
                    return Err(e);
                },
            }
            match Sort::merge_sort(lock, m + 1, end) {
                Ok(u) => u,
                Err(e) => {
                    return Err(e);
                },
            }
            let ghost s2 = lock.nums();
            proof {
                assert(sorted_between(s2, start as int, m + 1));
            }
            let total = end - start + 1;
            let mut tmp: Vec<usize> = Vec::new();
            let mut l: usize = start;
            let mut rr: usize = m + 1;
            proof {
                broadcast use vstd::seq_lib::group_to_multiset_ensures;
                broadcast use vstd::multiset::group_multiset_axioms;

                vstd::seq_lib::to_multiset_len(s2.subrange(start as int, start as int));
                vstd::seq_lib::to_multiset_len(s2.subrange(m + 1, m + 1));
                vstd::seq_lib::to_multiset_len(tmp@);
                assert(tmp@.to_multiset() =~= s2.subrange(start as int, start as int).to_multiset()
                    .add(s2.subrange(m + 1, m + 1).to_multiset()));
            }
            while tmp.len() < total
                invariant
                    start <= l <= m + 1,
                    m + 1 <= rr <= end + 1,
                    start <= m < end < lock.nums().len(),
                    total == end - start + 1,
                    tmp@.len() == (l - start) + (rr - m - 1),
                    running(*old(lock), *lock),
                    lock.nums() == s2,
                    sorted_between(s2, start as int, m + 1),
                    sorted_between(s2, m + 1, end + 1),
                    sorted_between(tmp@, 0, tmp@.len() as int),
                    tmp@.to_multiset() == s2.subrange(start as int, l as int).to_multiset().add(
                        s2.subrange(m + 1, rr as int).to_multiset(),
                    ),
                    forall|t: int, k: int|
                        0 <= t < tmp@.len() && l <= k < m + 1 ==> #[trigger] tmp@[t]
                            <= #[trigger] s2[k],
                    forall|t: int, k: int|
                        0 <= t < tmp@.len() && rr <= k < end + 1 ==> #[trigger] tmp@[t]
                            <= #[trigger] s2[k],
                decreases total - tmp@.len(),
            {
                let take_left: bool;
                if rr > end {
                    take_left = true;
                } else if l <= m {
                    let c = match lock.cmp_two(l, rr) {
                        Ok(o) => matches!(o, Ordering::Less),
                        Err(e) => {
                            return Err(e);
                        },
                    };
                    take_left = c;
                } else {
                    take_left = false;
                }
                if take_left {
                    let v = match lock.get(l) {
                        Ok(v) => v,
                        Err(e) => {
                            return Err(e);
                        },
                    };
                    tmp.push(v);
                    proof {
                        broadcast use vstd::seq_lib::group_to_multiset_ensures;
                        broadcast use vstd::multiset::group_multiset_axioms;

                        assert(s2.subrange(start as int, l + 1) =~= s2.subrange(
                            start as int,
                            l as int,
                        ).push(s2[l as int]));
                        assert(tmp@.to_multiset() =~= s2.subrange(start as int, l + 1).to_multiset()
                            .add(s2.subrange(m + 1, rr as int).to_multiset()));
                    }
                    l = l + 1;
                } else {
                    let v = match lock.get(rr) {
                        Ok(v) => v,
                        Err(e) => {
                            return Err(e);
                        },
                    };
                    tmp.push(v);
                    proof {
                        broadcast use vstd::seq_lib::group_to_multiset_ensures;
                        broadcast use vstd::multiset::group_multiset_axioms;

                        assert(s2.subrange(m + 1, rr + 1) =~= s2.subrange(m + 1, rr as int).push(
                            s2[rr as int],
                        ));
                        assert(tmp@.to_multiset() =~= s2.subrange(start as int, l as int)
                            .to_multiset().add(s2.subrange(m + 1, rr + 1).to_multiset()));
                    }
                    rr = rr + 1;
                }
            }
            proof {
                assert(l == m + 1 && rr == end + 1);
                assert(s2.subrange(start as int, end + 1) =~= s2.subrange(start as int, m + 1)
                    + s2.subrange(m + 1, end + 1));
                vstd::seq_lib::lemma_multiset_commutative(
                    s2.subrange(start as int, m + 1),
                    s2.subrange(m + 1, end + 1),
                );
                assert(tmp@.to_multiset() == s2.subrange(start as int, end + 1).to_multiset());
            }
            let mut idx: usize = 0;
            while idx < total
                invariant
                    idx <= total,
                    total == end - start + 1,
                    start <= m < end < lock.nums().len(),
                    tmp@.len() == total,
                    running(*old(lock), *lock),
                    lock.nums().len() == s2.len(),
                    forall|k: int|
                        0 <= k < s2.len() && !(start <= k < start + idx) ==> #[trigger] lock.nums()[k]
                            == s2[k],
                    forall|k: int|
                        start <= k < start + idx ==> #[trigger] lock.nums()[k] == tmp@[k - start],
                decreases total - idx,
            {
                let v = tmp[idx];
                match lock.set(start + idx, v) {
                    Ok(u) => u,
                    Err(e) => {
                        return Err(e);
                    },
                }
                idx = idx + 1;
            }
            proof {
                assert(lock.nums().subrange(start as int, end + 1) =~= tmp@);
                crate::order::lemma_patch_multiset(s2, lock.nums(), start as int, end + 1);
                assert forall|p: int, q: int|
                    start <= p <= q < end + 1 implies lock.nums()[p] <= lock.nums()[q] by {
                    assert(lock.nums()[p] == tmp@[p - start]);
                    assert(lock.nums()[q] == tmp@[q - start]);
                }
            }
        }
        Ok(())
    }

    /// Two-pointer partition around the value at the back of the range,
    /// then sort the two sides. The values must be pairwise distinct: the
    /// partition pointers advance only past values strictly on their own
    /// side of the pivot.
    #[verifier::loop_isolation(false)]
    #[verifier::spinoff_prover]
    #[verifier::rlimit(100)]
    pub fn quick_sort(lock: &mut ArrayLock, start: usize, end: usize) -> (r: Result<(), Cancelled>)
        requires
            !old(lock).cancelled(),
            end < old(lock).nums().len(),
            old(lock).nums().no_duplicates(),
        ensures
            run_outcome(*old(lock), *final(lock), r),
            final(lock).nums().to_multiset() == old(lock).nums().to_multiset(),
            same_outside(old(lock).nums(), final(lock).nums(), start as int, end + 1),
            final(lock).nums().no_duplicates(),
            r is Ok ==> sorted_between(final(lock).nums(), start as int, end + 1),
        decreases end - start,
    {
        proof {
            lock.lemma_len_bound();
        }
        if end <= start {
            return Ok(());
        }
        let ghost s0 = lock.nums();
        let ghost pivot = s0[end as int];
        let mut l: usize = start;
        let mut rp: usize = end - 1;
        while l < rp
            invariant
                start <= l <= end,
                start <= rp <= end - 1,
                start < end < lock.nums().len(),
                running(*old(lock), *lock),
                lock.nums().to_multiset() == old(lock).nums().to_multiset(),
                lock.nums().no_duplicates(),
                same_outside(old(lock).nums(), lock.nums(), start as int, end + 1),
                lock.nums()[end as int] == pivot,
                forall|k: int| start <= k < l ==> #[trigger] lock.nums()[k] <= pivot,
                forall|k: int| rp < k < end ==> #[trigger] lock.nums()[k] >= pivot,
                l >= rp ==> (l == end || lock.nums()[l as int] >= pivot || (l == start && end
                    == start + 1)),
            decreases (if l < rp {
                2 * (rp - l) + (if lock.nums()[l as int] >= pivot {
                    1int
                } else {
                    0
                })
            } else {
                0int
            }),
        {
            let ghost nhead = lock.nums();
            let mut scan_up = true;
            while scan_up && l < end
                invariant
                    start <= l <= end,
                    start <= rp <= end - 1,
                    start < end < lock.nums().len(),
                    running(*old(lock), *lock),
                    lock.nums().to_multiset() == old(lock).nums().to_multiset(),
                    lock.nums().no_duplicates(),
                    same_outside(old(lock).nums(), lock.nums(), start as int, end + 1),
                    lock.nums()[end as int] == pivot,
                    forall|k: int| start <= k < l ==> #[trigger] lock.nums()[k] <= pivot,
                    forall|k: int| rp < k < end ==> #[trigger] lock.nums()[k] >= pivot,
                    lock.nums() == nhead,
                    !scan_up ==> lock.nums()[l as int] >= pivot,
                decreases end - l + (if scan_up {
                    1int
                } else {
                    0
                }),
            {
                let c = match lock.cmp_two(l, end) {
                    Ok(o) => matches!(o, Ordering::Less),
                    Err(e) => {
                        return Err(e);
                    },
                };
                if c {
                    l = l + 1;
                } else {
                    scan_up = false;
                }
            }
            let mut scan_down = true;
            while scan_down && rp > start
                invariant
                    start <= l <= end,
                    start <= rp <= end - 1,
                    start < end < lock.nums().len(),
                    running(*old(lock), *lock),
                    lock.nums().to_multiset() == old(lock).nums().to_multiset(),
                    lock.nums().no_duplicates(),
                    same_outside(old(lock).nums(), lock.nums(), start as int, end + 1),
                    lock.nums()[end as int] == pivot,
                    forall|k: int| start <= k < l ==> #[trigger] lock.nums()[k] <= pivot,
                    forall|k: int| rp < k < end ==> #[trigger] lock.nums()[k] >= pivot,
                    lock.nums() == nhead,
                    l == end || lock.nums()[l as int] >= pivot,
                    !scan_down ==> lock.nums()[rp as int] <= pivot,
                decreases rp + (if scan_down {
                    1int
                } else {
                    0
                }),
            {
                let c = match lock.cmp_two(rp, end) {
                    Ok(o) => matches!(o, Ordering::Greater),
                    Err(e) => {
                        return Err(e);
                    },
                };
                if c {
                    rp = rp - 1;
                } else {
                    scan_down = false;
                }
            }
            if l < rp {
                let ghost before = lock.nums();
                match lock.swap(l, rp) {
                    Ok(u) => u,
                    Err(e) => {
                        return Err(e);
                    },
                }
                proof {
                    crate::order::lemma_swap_multiset(before, l as int, rp as int);
                    lemma_multiset_distinct(before, lock.nums());
                    assert(before[l as int] != pivot && before[rp as int] != pivot);
                }
            }
        }
        let gt = match lock.cmp_two(l, end) {
            Ok(o) => matches!(o, Ordering::Greater),
            Err(e) => {
                return Err(e);
            },
        };
        let ghost s2 = lock.nums();
        if gt {
            let ghost before = lock.nums();
            match lock.swap(l, end) {
                Ok(u) => u,
                Err(e) => {
                    return Err(e);
                },
            }
            proof {
                crate::order::lemma_swap_multiset(before, l as int, end as int);
                lemma_multiset_distinct(before, lock.nums());
            }
        }
        let ghost s3 = lock.nums();
        proof {
            assert forall|k: int| start <= k < l implies s3[k] <= s3[l as int] by {
                if gt {
                    assert(s3[k] == s2[k] && s3[l as int] == pivot);
                } else {
                    assert(s2[l as int] <= pivot);
                    if l != end && s2[l as int] >= pivot {
                        assert(s2[l as int] == pivot && s2[end as int] == pivot);
                        assert(false);
                    }
                }
            }
            assert forall|k: int| l < k <= end implies s3[k] >= s3[l as int] by {
                if k < end {
                    assert(s3[k] == s2[k] && s2[k] >= pivot);
                }
            }
        }
        if l > start {
            match Sort::quick_sort(lock, start, l - 1) {
                Ok(u) => u,
                Err(e) => {
                    return Err(e);
                },
            }
        }
        let ghost s4 = lock.nums();
        proof {
            assert(s4[l as int] == s3[l as int]);
            if l > start {
                lemma_same_outside_multiset(s3, s4, start as int, l as int);
                assert(forall|k: int|
                    0 <= k < s3.subrange(start as int, l as int).len() ==> #[trigger] s3.subrange(
                        start as int,
                        l as int,
                    )[k] <= s3[l as int]);
                lemma_values_bounded(
                    s3.subrange(start as int, l as int),
                    s4.subrange(start as int, l as int),
                    s3[l as int],
                );
                assert forall|k: int| start <= k < l implies s4[k] <= s4[l as int] by {
                    assert(s4.subrange(start as int, l as int)[k - start] == s4[k]);
                }
            }
        }
        if l < end {
            match Sort::quick_sort(lock, l + 1, end) {
                Ok(u) => u,
                Err(e) => {
                    return Err(e);
                },
            }
        }
        proof {
            let s5 = lock.nums();
            assert(s5[l as int] == s4[l as int]);
            assert(forall|k: int| start <= k < l ==> #[trigger] s5[k] == s4[k]);
            if l < end {
                lemma_same_outside_multiset(s4, s5, l + 1, end + 1);
                assert(forall|k: int|
                    0 <= k < s4.subrange(l + 1, end + 1).len() ==> #[trigger] s4.subrange(
                        l + 1,
                        end + 1,
                    )[k] >= s4[l as int]);
                lemma_values_bounded_below(
                    s4.subrange(l + 1, end + 1),
                    s5.subrange(l + 1, end + 1),
                    s4[l as int],
                );
                assert forall|k: int| l < k <= end implies s5[k] >= s5[l as int] by {
                    assert(s5.subrange(l + 1, end + 1)[k - (l + 1)] == s5[k]);
                }
            }
            assert forall|p: int, q: int|
                start <= p <= q < end + 1 implies s5[p] <= s5[q] by {
                if q < l {
                    assert(s4[p] <= s4[q]);
                } else if p < l && l <= q {
                    assert(s5[p] <= s5[l as int]);
                }
            }
            assert(sorted_between(s5, start as int, end + 1));
        }
        Ok(())
    }

    /// Restore the max-heap shape below `index`: push the value down,
    /// swapping it with its larger child, until both children are smaller
    /// or the bottom (`max`) is reached. Touches nothing outside the
    /// subtree of `index`.
    #[verifier::loop_isolation(false)]
    #[verifier::spinoff_prover]
    #[verifier::rlimit(100)]
    pub fn heapify_down(lock: &mut ArrayLock, index: usize, max: usize) -> (r: Result<
        (),
        Cancelled,
    >)
        requires
            !old(lock).cancelled(),
            index <= max < old(lock).nums().len(),
            heap_from(old(lock).nums(), index + 1, max as int),
        ensures
            run_outcome(*old(lock), *final(lock), r),
            final(lock).nums().to_multiset() == old(lock).nums().to_multiset(),
            same_outside(old(lock).nums(), final(lock).nums(), index as int, max + 1),
            forall|k: int|
                0 <= k < old(lock).nums().len() && !in_subtree(index as int, k)
                    ==> #[trigger] final(lock).nums()[k] == old(lock).nums()[k],
            r is Ok ==> heap_from(final(lock).nums(), index as int, max as int),
            r is Ok ==> (final(lock).nums()[index as int] == old(lock).nums()[index as int] || (2
                * index + 1 <= max && final(lock).nums()[index as int] == old(lock).nums()[2 * index
                + 1]) || (2 * index + 2 <= max && final(lock).nums()[index as int] == old(
            lock,
            ).nums()[2 * index + 2])),
        decreases max - index,
    {
        proof {
            lock.lemma_len_bound();
        }
        let ghost pre = lock.nums();
        if max >= 1 && index <= (max - 1) / 2 {
            let c1 = 2 * index + 1;
            let tmp_max: usize;
            if c1 + 1 <= max {
                let lt = match lock.cmp_two(c1, c1 + 1) {
                    Ok(o) => matches!(o, Ordering::Less),
                    Err(e) => {
                        return Err(e);
                    },
                };
                tmp_max = if lt {
                    c1 + 1
                } else {
                    c1
                };
            } else {
                tmp_max = c1;
            }
            proof {
                assert((tmp_max - 1) / 2 == index as int);
                assert(in_subtree(index as int, index as int));
                assert(in_subtree(index as int, tmp_max as int));
            }
            let lt2 = match lock.cmp_two(index, tmp_max) {
                Ok(o) => matches!(o, Ordering::Less),
                Err(e) => {
                    return Err(e);
                },
            };
            if lt2 {
                match lock.swap(index, tmp_max) {
                    Ok(u) => u,
                    Err(e) => {
                        return Err(e);
                    },
                }
                let ghost smid = lock.nums();
                proof {
                    crate::order::lemma_swap_multiset(pre, index as int, tmp_max as int);
                    assert(heap_from(smid, tmp_max as int + 1, max as int));
                }
                match Sort::heapify_down(lock, tmp_max, max) {
                    Ok(u) => u,
                    Err(e) => {
                        proof {
                            assert forall|k: int|
                                0 <= k < pre.len() && !in_subtree(index as int, k) implies #[trigger] lock.nums()[k]
                                == pre[k] by {
                                if in_subtree(tmp_max as int, k) {
                                    lemma_subtree_step(index as int, tmp_max as int, k);
                                }
                            }
                        }
                        return Err(e);
                    },
                }
                proof {
                    let sfin = lock.nums();
                    assert forall|k: int|
                        0 <= k < pre.len() && !in_subtree(index as int, k) implies #[trigger] sfin[k]
                        == pre[k] by {
                        if in_subtree(tmp_max as int, k) {
                            lemma_subtree_step(index as int, tmp_max as int, k);
                        }
                    }
                    assert(smid =~= pre.update(index as int, pre[tmp_max as int]).update(
                        tmp_max as int,
                        pre[index as int],
                    ));
                    lemma_heapify_step(pre, smid, sfin, index as int, tmp_max as int, max as int);
                }
            } else {
                proof {
                    assert(heap_from(lock.nums(), index as int, max as int));
                }
            }
        } else {
            proof {
                assert forall|c: int|
                    1 <= c <= max && (c - 1) / 2 >= index implies #[trigger] lock.nums()[c]
                    <= lock.nums()[(c - 1) / 2] by {
                    assert((c - 1) / 2 >= index + 1);
                }
            }
        }
        Ok(())
    }

    /// Build a max-heap over positions `0..=max`, then repeatedly swap the
    /// root (the maximum of what is left) to the back of the shrinking heap
    /// and restore the heap shape; the back grows into a sorted, dominating
    /// suffix.
    #[verifier::loop_isolation(false)]
    #[verifier::spinoff_prover]
    #[verifier::rlimit(100)]
    pub fn heap_sort(lock: &mut ArrayLock, max: usize) -> (r: Result<(), Cancelled>)
        requires
            !old(lock).cancelled(),
            max < old(lock).nums().len(),
        ensures
            run_outcome(*old(lock), *final(lock), r),
            final(lock).nums().to_multiset() == old(lock).nums().to_multiset(),
            same_outside(old(lock).nums(), final(lock).nums(), 0, max + 1),
            r is Ok ==> sorted_between(final(lock).nums(), 0, max + 1),
    {
        proof {
            lock.lemma_len_bound();
        }
        let mut i: usize = max / 2 + 1;
        proof {
            assert forall|c: int|
                1 <= c <= max && (c - 1) / 2 >= i implies #[trigger] lock.nums()[c] <= lock.nums()[
                (c - 1) / 2] by {
                assert(c >= 2 * ((c - 1) / 2) + 1);
            }
        }
        while i > 0
            invariant
                i <= max / 2 + 1,
                max < lock.nums().len(),
                running(*old(lock), *lock),
                lock.nums().to_multiset() == old(lock).nums().to_multiset(),
                same_outside(old(lock).nums(), lock.nums(), 0, max + 1),
                heap_from(lock.nums(), i as int, max as int),
            decreases i,
        {
            i = i - 1;
            match Sort::heapify_down(lock, i, max) {
                Ok(u) => u,
                Err(e) => {
                    return Err(e);
                },
            }
        }
        let mut j: usize = max;
        while j >= 1
            invariant
                j <= max,
                max < lock.nums().len(),
                running(*old(lock), *lock),
                lock.nums().to_multiset() == old(lock).nums().to_multiset(),
                same_outside(old(lock).nums(), lock.nums(), 0, max + 1),
                heap_from(lock.nums(), 0, j as int),
                forall|p: int, q: int|
                    0 <= p < q <= max && q > j ==> #[trigger] lock.nums()[p]
                        <= #[trigger] lock.nums()[q],
            decreases j,
        {
            let ghost before = lock.nums();
            proof {
                assert forall|c: int| 0 <= c <= j implies #[trigger] before[c] <= before[0] by {
                    lemma_root_max(before, j as int, c);
                }
            }
            match lock.swap(0, j) {
                Ok(u) => u,
                Err(e) => {
                    return Err(e);
                },
            }
            let ghost sb = lock.nums();
            proof {
                crate::order::lemma_swap_multiset(before, 0, j as int);
                assert(heap_from(sb, 1, j - 1));
                assert forall|p: int, q: int|
                    0 <= p < q <= max && q > j - 1 implies #[trigger] sb[p] <= #[trigger] sb[q] by {
                    if q == j {
                        assert(sb[q] == before[0]);
                    }
                }
            }
            match Sort::heapify_down(lock, 0, j - 1) {
                Ok(u) => u,
                Err(e) => {
                    return Err(e);
                },
            }
            proof {
                let sfin = lock.nums();
                crate::order::lemma_same_outside_multiset(sb, sfin, 0, j as int);
                assert forall|p: int, q: int|
                    0 <= p < q <= max && q > j - 1 implies #[trigger] sfin[p]
                    <= #[trigger] sfin[q] by {
                    assert(sfin[q] == sb[q]);
                    if p < j {
                        assert(forall|t: int|
                            0 <= t < j ==> #[trigger] sb.subrange(0, j as int)[t] <= sb[q]);
                        crate::order::lemma_values_bounded(
                            sb.subrange(0, j as int),
                            sfin.subrange(0, j as int),
                            sb[q],
                        );
                        assert(sfin.subrange(0, j as int)[p] == sfin[p]);
                    }
                }
            }
            j = j - 1;
        }
        Ok(())
    }

    /// Sort the first two thirds, the last two thirds, then the first two
    /// thirds again; a directly adjacent pair is compare-exchanged. After
    /// the second pass the back third holds only values that dominate the
    /// front third, so the final pass finishes the sort.
    #[verifier::loop_isolation(false)]
    #[verifier::spinoff_prover]
    #[verifier::rlimit(100)]
    pub fn stooge_sort(lock: &mut ArrayLock, start: usize, end: usize) -> (r: Result<(), Cancelled>)
        requires
            !old(lock).cancelled(),
            start <= end < old(lock).nums().len(),
        ensures
            run_outcome(*old(lock), *final(lock), r),
            final(lock).nums().to_multiset() == old(lock).nums().to_multiset(),
            same_outside(old(lock).nums(), final(lock).nums(), start as int, end + 1),
            r is Ok ==> sorted_between(final(lock).nums(), start as int, end + 1),
            sorted_between(old(lock).nums(), start as int, end + 1) ==> final(lock).nums() == old(
                lock,
            ).nums() && final(lock).state().spec_writes() == old(lock).state().spec_writes(),
        decreases end - start,
    {
        proof {
            lock.lemma_len_bound();
        }
        if end == start + 1 {
            let gt = match lock.cmp_two(start, end) {
                Ok(o) => matches!(o, Ordering::Greater),
                Err(e) => {
                    return Err(e);
                },
            };
            if gt {
                let ghost before = lock.nums();
                match lock.swap(start, end) {
                    Ok(u) => u,
                    Err(e) => {
                        return Err(e);
                    },
                }
                proof {
                    crate::order::lemma_swap_multiset(before, start as int, end as int);
                }
            }
        }
        if end > start + 1 {
            let third = (end - start + 1) / 3;
            proof {
                assert(1 <= third && 3 * third <= end - start + 1);
            }
            match Sort::stooge_sort(lock, start, end - third) {
                Ok(u) => u,
                Err(e) => {
                    return Err(e);
                },
            }
            let ghost s1 = lock.nums();
            match Sort::stooge_sort(lock, start + third, end) {
                Ok(u) => u,
                Err(e) => {
                    return Err(e);
                },
            }
            let ghost s2 = lock.nums();
            proof {
                let lo = start + third;
                let cut = end - third + 1;
                let blocklen = cut - lo;
                let r1 = s1.subrange(lo, end + 1);
                let r2 = s2.subrange(lo, end + 1);
                lemma_same_outside_multiset(s1, s2, lo, end + 1);
                assert(sorted_between(r2, 0, r2.len() as int)) by {
                    assert forall|p2: int, q2: int|
                        0 <= p2 <= q2 < r2.len() implies #[trigger] r2[p2] <= #[trigger] r2[q2] by {
                        assert(r2[p2] == s2[lo + p2] && r2[q2] == s2[lo + q2]);
                    }
                }
                assert forall|i: int, q: int|
                    start <= i < lo && cut <= q <= end implies #[trigger] s2[i]
                    <= #[trigger] s2[q] by {
                    let y = s2[i];
                    assert(s2[i] == s1[i]);
                    assert forall|k: int| 0 <= k < blocklen implies #[trigger] r1[k] >= y by {
                        assert(r1[k] == s1[lo + k]);
                        assert(s1[i] <= s1[lo + k]);
                    }
                    crate::order::lemma_sorted_perm_tail_bound(r1, r2, y, 0, blocklen, q - lo);
                    assert(r2[q - lo] == s2[q]);
                }
            }
            match Sort::stooge_sort(lock, start, end - third) {
                Ok(u) => u,
                Err(e) => {
                    return Err(e);
                },
            }
            proof {
                let s3 = lock.nums();
                let lo = start + third;
                let cut = end - third + 1;
                lemma_same_outside_multiset(s2, s3, start as int, cut);
                assert forall|p: int, q: int|
                    start <= p <= q <= end implies #[trigger] s3[p] <= #[trigger] s3[q] by {
                    if q < cut {
                        assert(sorted_between(s3, start as int, cut));
                    } else if p >= cut {
                        assert(s3[p] == s2[p] && s3[q] == s2[q]);
                        assert(s2[p] <= s2[q]);
                    } else {
                        assert(s3[q] == s2[q]);
                        assert forall|k2: int|
                            0 <= k2 < cut - start implies #[trigger] s2.subrange(
                            start as int,
                            cut,
                        )[k2] <= s2[q] by {
                            assert(s2.subrange(start as int, cut)[k2] == s2[start + k2]);
                            if start + k2 >= lo {
                                assert(s2[start + k2] <= s2[q]);
                            }
                        }
                        lemma_values_bounded(
                            s2.subrange(start as int, cut),
                            s3.subrange(start as int, cut),
                            s2[q],
                        );
                        assert(s3.subrange(start as int, cut)[p - start] == s3[p]);
                    }
                }
                assert(sorted_between(s3, start as int, end + 1));
            }
        }
        Ok(())
    }
}

} // verus!
