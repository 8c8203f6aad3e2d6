use vstd::prelude::*;

use crate::gate::{ArrayLock, Cancelled};
use crate::order::{
    count_lt, lemma_all_ranked_sorted, lemma_count_lt_perm, lemma_last_fixed, lemma_mis_pos,
    lemma_mis_swap, lemma_misplaced_le_len, lemma_multiset_distinct, lemma_rank_bound,
    lemma_rank_strict, misplaced, rank, sorted, sorted_between,
};
use crate::sort::{run_outcome, running, Sort};
use core::cmp::Ordering;

verus! {

impl Sort {
    /// For each position, walk the cycle of values that belongs there: count
    /// how many values are smaller than the one in hand — with pairwise
    /// distinct values, exactly the position it belongs at — drop it there
    /// and pick up the displaced value, until the walk returns to the
    /// starting position. Every placement fixes a position for good, so a
    /// walk makes at most `size` placements.
    #[verifier::loop_isolation(false)]
    #[verifier::spinoff_prover]
    #[verifier::rlimit(100)]
    pub fn cycle_sort(lock: &mut ArrayLock, size: usize) -> (r: Result<(), Cancelled>)
        requires
            !old(lock).cancelled(),
            1 <= size == old(lock).nums().len(),
            old(lock).nums().no_duplicates(),
        ensures
            run_outcome(*old(lock), *final(lock), r),
            r is Ok ==> final(lock).nums().to_multiset() == old(lock).nums().to_multiset(),
            r is Ok ==> sorted(final(lock).nums()),
    {
        let mut buf: Vec<bool> = Vec::new();
        let mut bi: usize = 0;
        while bi < size
            invariant
                bi <= size,
                buf@.len() == bi,
                forall|p: int| 0 <= p < bi ==> !buf@[p],
            decreases size - bi,
        {
            buf.push(false);
            bi = bi + 1;
        }
        let mut i: usize = 0;
        while i < size - 1
            invariant
                i <= size - 1,
                buf@.len() == size,
                running(*old(lock), *lock),
                lock.nums().len() == size,
                lock.nums().to_multiset() == old(lock).nums().to_multiset(),
                lock.nums().no_duplicates(),
                forall|p: int| 0 <= p < i ==> rank(lock.nums(), #[trigger] lock.nums()[p]) == p,
                forall|p: int|
                    0 <= p < size && buf@[p] ==> rank(lock.nums(), #[trigger] lock.nums()[p]) == p,
            decreases size - i,
        {
            if !buf[i] {
                let mut current = match lock.get(i) {
                    Ok(v) => v,
                    Err(e) => {
                        return Err(e);
                    },
                };
                proof {
                    assert(lock.nums().update(i as int, current) =~= lock.nums());
                    lemma_misplaced_le_len(lock.nums());
                }
                let mut fuel: usize = size;
                let mut placed = false;
                while !placed
                    invariant
                        i < size - 1,
                        buf@.len() == size,
                        running(*old(lock), *lock),
                        lock.nums().len() == size,
                        !placed ==> !buf@[i as int],
                        !placed ==> ({
                            let cc = lock.nums().update(i as int, current);
                            &&& cc.to_multiset() == old(lock).nums().to_multiset()
                            &&& cc.no_duplicates()
                            &&& fuel >= misplaced(cc)
                            &&& forall|p: int| 0 <= p < i ==> rank(cc, #[trigger] cc[p]) == p
                            &&& forall|p: int|
                                0 <= p < size && buf@[p] ==> rank(cc, #[trigger] cc[p]) == p
                        }),
                        placed ==> ({
                            &&& lock.nums().to_multiset() == old(lock).nums().to_multiset()
                            &&& lock.nums().no_duplicates()
                            &&& forall|p: int|
                                0 <= p <= i ==> rank(lock.nums(), #[trigger] lock.nums()[p]) == p
                            &&& forall|p: int|
                                0 <= p < size && buf@[p] ==> rank(
                                    lock.nums(),
                                    #[trigger] lock.nums()[p],
                                ) == p
                        }),
                    decreases (if placed {
                        0int
                    } else {
                        fuel + 1
                    }),
                {
                    let ghost nhead = lock.nums();
                    let ghost cc = nhead.update(i as int, current);
                    let mut index: usize = 0;
                    let mut j: usize = 0;
                    while j < size
                        invariant
                            j <= size,
                            index <= j,
                            i < size,
                            running(*old(lock), *lock),
                            lock.nums() == nhead,
                            lock.nums().len() == size,
                            cc == nhead.update(i as int, current),
                            index == count_lt(cc, current, j as int),
                        decreases size - j,
                    {
                        if j != i {
                            let c = match lock.cmp(j, current) {
                                Ok(o) => matches!(o, Ordering::Less),
                                Err(e) => {
                                    return Err(e);
                                },
                            };
                            proof {
                                assert(cc[j as int] == nhead[j as int]);
                            }
                            if c {
                                index = index + 1;
                            }
                        } else {
                            proof {
                                assert(cc[j as int] == current);
                            }
                        }
                        j = j + 1;
                    }
                    proof {
                        assert(cc[i as int] == current);
                        assert(index == rank(cc, current));
                        lemma_rank_bound(cc, i as int);
                    }
                    if index != i && fuel > 0 {
                        proof {
                            assert(cc[index as int] != cc[i as int]);
                            if cc[index as int] < cc[i as int] {
                                lemma_rank_strict(cc, index as int, cc[i as int]);
                            } else {
                                lemma_rank_strict(cc, i as int, cc[index as int]);
                            }
                            assert(rank(cc, cc[index as int]) != index);
                        }
                        buf.set(index, true);
                        let new_v = match lock.get(index) {
                            Ok(v) => v,
                            Err(e) => {
                                return Err(e);
                            },
                        };
                        match lock.set(index, current) {
                            Ok(u) => u,
                            Err(e) => {
                                return Err(e);
                            },
                        }
                        proof {
                            let cc2 = lock.nums().update(i as int, new_v);
                            assert(cc2 =~= cc.update(i as int, cc[index as int]).update(
                                index as int,
                                cc[i as int],
                            ));
                            lemma_mis_swap(cc, i as int, index as int);
                            crate::order::lemma_swap_multiset(cc, i as int, index as int);
                            lemma_multiset_distinct(cc, cc2);
                            assert(index > i) by {
                                if index < i {
                                    assert(rank(cc, cc[index as int]) == index);
                                }
                            }
                            assert(rank(cc2, cc2[index as int]) == index) by {
                                lemma_count_lt_perm(cc, cc2, cc[i as int]);
                            }
                            assert forall|p: int| 0 <= p < i implies rank(
                                cc2,
                                #[trigger] cc2[p],
                            ) == p by {
                                assert(cc2[p] == cc[p]);
                                lemma_count_lt_perm(cc, cc2, cc[p]);
                            }
                            assert forall|p: int|
                                0 <= p < size && buf@[p] && p != index implies rank(
                                cc2,
                                #[trigger] cc2[p],
                            ) == p by {
                                assert(cc2[p] == cc[p]);
                                lemma_count_lt_perm(cc, cc2, cc[p]);
                            }
                        }
                        current = new_v;
                        fuel = fuel - 1;
                    } else {
                        proof {
                            if index != i {
                                lemma_mis_pos(cc, i as int, size as int);
                                assert(false);
                            }
                        }
                        match lock.set(i, current) {
                            Ok(u) => u,
                            Err(e) => {
                                return Err(e);
                            },
                        }
                        proof {
                            assert(lock.nums() =~= cc);
                            assert(rank(cc, cc[i as int]) == i);
                        }
                        placed = true;
                    }
                }
            }
            i = i + 1;
        }
        proof {
            lemma_last_fixed(lock.nums());
            lemma_all_ranked_sorted(lock.nums());
        }
        Ok(())
    }

    /// Peel off an increasing run by swapping its members to the front of
    /// the unsorted suffix, then merge the run with the already-merged
    /// prefix through a temporary buffer.
    #[verifier::loop_isolation(false)]
    #[verifier::spinoff_prover]
    #[verifier::rlimit(100)]
    pub fn strand_sort(lock: &mut ArrayLock, size: usize) -> (r: Result<(), Cancelled>)
        requires
            !old(lock).cancelled(),
            size == old(lock).nums().len(),
        ensures
            run_outcome(*old(lock), *final(lock), r),
            r is Ok ==> final(lock).nums().to_multiset() == old(lock).nums().to_multiset(),
            r is Ok ==> sorted(final(lock).nums()),
    {
        let mut index: usize = 0;
        while index < size
            invariant
                index <= size,
                running(*old(lock), *lock),
                lock.nums().len() == size,
                lock.nums().to_multiset() == old(lock).nums().to_multiset(),
                sorted_between(lock.nums(), 0, index as int),
            decreases size - index,
        {
            let mut run: usize = 1;
            let mut j: usize = index + 1;
            while j < size
                invariant
                    index + 1 <= j <= size,
                    index < size,
                    1 <= run <= j - index,
                    running(*old(lock), *lock),
                    lock.nums().len() == size,
                    lock.nums().to_multiset() == old(lock).nums().to_multiset(),
                    sorted_between(lock.nums(), 0, index as int),
                    sorted_between(lock.nums(), index as int, index as int + run),
                decreases size - j,
            {
                let lt = match lock.cmp_two(index + run - 1, j) {
                    Ok(o) => matches!(o, Ordering::Less),
                    Err(e) => {
                        return Err(e);
                    },
                };
                if lt && j != index + run {
                    let ghost before = lock.nums();
                    match lock.swap(j, index + run) {
                        Ok(u) => u,
                        Err(e) => {
                            return Err(e);
                        },
                    }
                    proof {
                        crate::order::lemma_swap_multiset(before, j as int, index as int + run);
                    }
                    run = run + 1;
                }
                j = j + 1;
            }
            let old_index = index;
            index = index + run;
            let ghost s2 = lock.nums();
            let mut tmp: Vec<usize> = Vec::new();
            let mut x: usize = 0;
            let mut y: usize = 0;
            proof {
                broadcast use vstd::seq_lib::group_to_multiset_ensures;
                broadcast use vstd::multiset::group_multiset_axioms;

                vstd::seq_lib::to_multiset_len(s2.subrange(0, 0));
                vstd::seq_lib::to_multiset_len(s2.subrange(old_index as int, old_index as int));
                vstd::seq_lib::to_multiset_len(tmp@);
                assert(tmp@.to_multiset() =~= s2.subrange(0, 0).to_multiset().add(
                    s2.subrange(old_index as int, old_index as int).to_multiset(),
                ));
            }
            while tmp.len() < index
                invariant
                    x <= old_index,
                    y <= run,
                    index == old_index + run,
                    index <= size,
                    tmp@.len() == x + y,
                    running(*old(lock), *lock),
                    lock.nums() == s2,
                    lock.nums().len() == size,
                    tmp@.to_multiset() == s2.subrange(0, x as int).to_multiset().add(
                        s2.subrange(old_index as int, old_index + y).to_multiset(),
                    ),
                    sorted_between(s2, 0, old_index as int),
                    sorted_between(s2, old_index as int, index as int),
                    sorted_between(tmp@, 0, tmp@.len() as int),
                    forall|t2: int, k: int|
                        0 <= t2 < tmp@.len() && x <= k < old_index ==> #[trigger] tmp@[t2]
                            <= #[trigger] s2[k],
                    forall|t2: int, k: int|
                        0 <= t2 < tmp@.len() && old_index + y <= k < index ==> #[trigger] tmp@[t2]
                            <= #[trigger] s2[k],
                decreases index - tmp@.len(),
            {
                let from_run: bool;
                if x >= old_index {
                    from_run = true;
                } else if y < run {
                    let lt = match lock.cmp_two(old_index + y, x) {
                        Ok(o) => matches!(o, Ordering::Less),
                        Err(e) => {
                            return Err(e);
                        },
                    };
                    from_run = lt;
                } else {
                    from_run = false;
                }
                if from_run {
                    let v = match lock.get(old_index + y) {
                        Ok(v) => v,
                        Err(e) => {
                            return Err(e);
                        },
                    };
                    tmp.push(v);
                    proof {
                        broadcast use vstd::seq_lib::group_to_multiset_ensures;
                        broadcast use vstd::multiset::group_multiset_axioms;

                        assert(s2.subrange(old_index as int, old_index + y + 1) =~= s2.subrange(
                            old_index as int,
                            old_index + y,
                        ).push(s2[old_index + y]));
                        assert(tmp@.to_multiset() =~= s2.subrange(0, x as int).to_multiset().add(
                            s2.subrange(old_index as int, old_index + y + 1).to_multiset(),
                        ));
                    }
                    y = y + 1;
                } else {
                    let v = match lock.get(x) {
                        Ok(v) => v,
                        Err(e) => {
                            return Err(e);
                        },
                    };
                    tmp.push(v);
                    proof {
                        broadcast use vstd::seq_lib::group_to_multiset_ensures;
                        broadcast use vstd::multiset::group_multiset_axioms;

                        assert(s2.subrange(0, x + 1) =~= s2.subrange(0, x as int).push(
                            s2[x as int],
                        ));
                        assert(tmp@.to_multiset() =~= s2.subrange(0, x + 1).to_multiset().add(
                            s2.subrange(old_index as int, old_index + y).to_multiset(),
                        ));
                    }
                    x = x + 1;
                }
            }
            proof {
                assert(x == old_index && y == run);
                assert(s2.subrange(0, index as int) =~= s2.subrange(0, old_index as int)
                    + s2.subrange(old_index as int, index as int));
                vstd::seq_lib::lemma_multiset_commutative(
                    s2.subrange(0, old_index as int),
                    s2.subrange(old_index as int, index as int),
                );
                assert(tmp@.to_multiset() == s2.subrange(0, index as int).to_multiset());
            }
            let mut t: usize = 0;
            while t < index
                invariant
                    t <= index <= size,
                    tmp@.len() == index,
                    running(*old(lock), *lock),
                    lock.nums().len() == s2.len(),
                    s2.len() == size,
                    forall|k: int|
                        0 <= k < size && !(0 <= k < t) ==> #[trigger] lock.nums()[k] == s2[k],
                    forall|k: int| 0 <= k < t ==> #[trigger] lock.nums()[k] == tmp@[k],
                decreases index - t,
            {
                let v = tmp[t];
                match lock.set(t, v) {
                    Ok(u) => u,
                    Err(e) => {
                        return Err(e);
                    },
                }
                t = t + 1;
            }
            proof {
                assert(lock.nums().subrange(0, index as int) =~= tmp@);
                crate::order::lemma_patch_multiset(s2, lock.nums(), 0, index as int);
                assert forall|p: int, q: int|
                    0 <= p <= q < index implies lock.nums()[p] <= lock.nums()[q] by {
                    assert(lock.nums()[p] == tmp@[p] && lock.nums()[q] == tmp@[q]);
                }
                assert(sorted_between(lock.nums(), 0, index as int));
            }
        }
        Ok(())
    }
}

} // verus!
