use vstd::prelude::*;

use crate::gate::{ArrayLock, Cancelled, Message, STEP_CAP, same_mode};
use crate::order::{
    head_finished, inversions, lemma_adjacent_swap_inversions, lemma_sorted_from_adjacent, sorted,
    sorted_between, tail_finished,
};
use core::cmp::Ordering;

verus! {

/// The highest speed setting the controller may translate into a tick
/// budget.
pub const MAX_SPEED: u32 = 500;

/// The selectable sorting strategies. Each one performs its sort purely
/// through the gated operations of an `ArrayLock`, so instrumentation,
/// counting and cancellation behave the same whichever strategy runs.
#[derive(Clone, Copy, Debug, PartialEq, Eq, Structural)]
pub enum Sort {
    BubbleSort,
    ShakerSort,
    ExchangeSort,
    CycleSort,
    CombSort,
    OddEvenSort,
    InsertionSort,
    ShellSort,
    SelectionSort,
    DoubleSelectionSort,
    StrandSort,
    StoogeSort,
    SlowSort,
    QuickSort,
    MergeSort,
    HeapSort,
    CountingSort,
    RadixSort10,
    RadixSort2,
}

impl Default for Sort {
    fn default() -> (r: Self)
        ensures
            r == Sort::BubbleSort,
    {
        Sort::BubbleSort
    }
}

impl Sort {
    /// Every selectable algorithm, in the order the UI offers them.
    pub fn values() -> (r: Vec<Sort>)
        ensures
            r@ == seq![
                Sort::BubbleSort,
                Sort::ShakerSort,
                Sort::ExchangeSort,
                Sort::CycleSort,
                Sort::CombSort,
                Sort::OddEvenSort,
                Sort::InsertionSort,
                Sort::ShellSort,
                Sort::SelectionSort,
                Sort::DoubleSelectionSort,
                Sort::StrandSort,
                Sort::StoogeSort,
                Sort::SlowSort,
                Sort::QuickSort,
                Sort::MergeSort,
                Sort::HeapSort,
                Sort::CountingSort,
                Sort::RadixSort10,
                Sort::RadixSort2,
            ],
    {
        let mut v: Vec<Sort> = Vec::new();
        v.push(Sort::BubbleSort);
        v.push(Sort::ShakerSort);
        v.push(Sort::ExchangeSort);
        v.push(Sort::CycleSort);
        v.push(Sort::CombSort);
        v.push(Sort::OddEvenSort);
        v.push(Sort::InsertionSort);
        v.push(Sort::ShellSort);
        v.push(Sort::SelectionSort);
        v.push(Sort::DoubleSelectionSort);
        v.push(Sort::StrandSort);
        v.push(Sort::StoogeSort);
        v.push(Sort::SlowSort);
        v.push(Sort::QuickSort);
        v.push(Sort::MergeSort);
        v.push(Sort::HeapSort);
        v.push(Sort::CountingSort);
        v.push(Sort::RadixSort10);
        v.push(Sort::RadixSort2);
        assert(v@ =~= seq![
            Sort::BubbleSort,
            Sort::ShakerSort,
            Sort::ExchangeSort,
            Sort::CycleSort,
            Sort::CombSort,
            Sort::OddEvenSort,
            Sort::InsertionSort,
            Sort::ShellSort,
            Sort::SelectionSort,
            Sort::DoubleSelectionSort,
            Sort::StrandSort,
            Sort::StoogeSort,
            Sort::SlowSort,
            Sort::QuickSort,
            Sort::MergeSort,
            Sort::HeapSort,
            Sort::CountingSort,
            Sort::RadixSort10,
            Sort::RadixSort2,
        ]);
        v
    }
}

/// Floor of the base-2 logarithm, with `log2(0) == log2(1) == 0`.
pub open spec fn log2(n: u64) -> nat
    decreases n,
{
    if n <= 1 {
        0
    } else {
        1 + log2((n / 2) as u64)
    }
}

proof fn lemma_log2_le_self(n: u64)
    ensures
        log2(n) <= n,
    decreases n,
{
    if n > 1 {
        lemma_log2_le_self((n / 2) as u64);
    }
}

fn log2_floor(n: u64) -> (r: u64)
    ensures
        r == log2(n),
{
    let mut v: u64 = n;
    let mut r: u64 = 0;
    proof {
        lemma_log2_le_self(n);
    }
    while v > 1
        invariant
            log2(n) == r + log2(v),
            r <= log2(n),
            log2(n) <= n,
        decreases v,
    {
        proof {
            assert(log2(v) == 1 + log2((v / 2) as u64));
        }
        v = v / 2;
        r = r + 1;
    }
    r
}

/// The estimated operation-count growth of each strategy at array size
/// `size`: cubic for the slowest strategies, quadratic for the simple
/// comparison sorts, `n log n` for the divide-and-conquer sorts, linear for
/// the distribution sorts, each scaled down so a full-speed tick grants a
/// workable burst. Used only for pacing, never for correctness.
pub open spec fn spec_max_ticks(sort: Sort, size: u64) -> int {
    match sort {
        Sort::StoogeSort | Sort::SlowSort => size * size * size / 1000,
        Sort::QuickSort | Sort::MergeSort | Sort::HeapSort => size * log2(size) / 100,
        Sort::CountingSort | Sort::RadixSort10 | Sort::RadixSort2 => size as int / 50,
        Sort::CombSort | Sort::ShellSort => size * size / 10000,
        Sort::StrandSort => size * size / 1000,
        _ => size * size / 100,
    }
}

/// The operation budget one timer tick grants: the speed fraction
/// (`speed / MAX_SPEED`) of the strategy's estimated operation count at
/// `size`, at least 1 so a tick always makes progress, and at most
/// `STEP_CAP` so a huge grant cannot delay a near-simultaneous kill.
pub open spec fn spec_tick_budget(sort: Sort, speed: u64, size: u64) -> int {
    let raw = speed * spec_max_ticks(sort, size) / (MAX_SPEED as int);
    if raw < 1 {
        1
    } else if raw > STEP_CAP {
        STEP_CAP as int
    } else {
        raw
    }
}

impl Sort {
    /// The estimated operation count of this strategy at array size `size`.
    pub fn calculate_ticks(&self, size: u64) -> (r: u64)
        requires
            size <= 2097152,
        ensures
            r == spec_max_ticks(*self, size),
    {
        proof {
            assert(size * size <= 2097152 * 2097152 && size * size * size <= 2097152 * 2097152
                * 2097152) by (nonlinear_arith)
                requires
                    size <= 2097152,
            ;
            lemma_log2_le_self(size);
            assert(size * log2(size) <= 2097152 * 2097152) by (nonlinear_arith)
                requires
                    size <= 2097152 && log2(size) <= size,
            ;
        }
        match self {
            Sort::StoogeSort | Sort::SlowSort => size * size * size / 1000,
            Sort::QuickSort | Sort::MergeSort | Sort::HeapSort => size * log2_floor(size) / 100,
            Sort::CountingSort | Sort::RadixSort10 | Sort::RadixSort2 => size / 50,
            Sort::CombSort | Sort::ShellSort => size * size / 10000,
            Sort::StrandSort => size * size / 1000,
            _ => size * size / 100,
        }
    }
}

impl Sort {
    /// The message a controller sends for one timer tick at speed `speed`
    /// over an array of `size` values: a budget grant of the speed fraction
    /// of this strategy's estimated operation count, clamped to at least one
    /// operation and at most `STEP_CAP`.
    pub fn tick_message(&self, speed: u32, size: usize) -> (m: Message)
        requires
            1 <= speed <= MAX_SPEED,
            size <= 2097152,
        ensures
            m == Message::Tick(spec_tick_budget(*self, speed as u64, size as u64) as u64),
    {
        let t = self.calculate_ticks(size as u64);
        proof {
            assert(size as u64 * (size as u64) <= 2097152 * 2097152 && size as u64 * (size as u64)
                * (size as u64) <= 2097152 * 2097152 * 2097152) by (nonlinear_arith)
                requires
                    size <= 2097152,
            ;
            lemma_log2_le_self(size as u64);
            assert(size as u64 * log2(size as u64) <= 2097152 * 2097152) by (nonlinear_arith)
                requires
                    size <= 2097152 && log2(size as u64) <= size as u64,
            ;
            broadcast use vstd::arithmetic::div_mod::lemma_div_nonincreasing;

            vstd::arithmetic::div_mod::lemma_div_is_ordered(
                size as u64 * (size as u64) * (size as u64),
                9223372036854775808,
                1000,
            );
            assert(t <= 9223372036854775);
            assert(speed as u64 * t <= 500 * 9223372036854775) by (nonlinear_arith)
                requires
                    speed <= 500 && t <= 9223372036854775,
            ;
        }
        let raw = speed as u64 * t / 500;
        let budget = if raw < 1 {
            1
        } else if raw > STEP_CAP {
            STEP_CAP
        } else {
            raw
        };
        Message::Tick(budget)
    }

    /// True of the compare-and-exchange variants, which on an already
    /// sorted array never swap: they leave both the values and the write
    /// counter untouched.
    pub open spec fn comparison_exchange(self) -> bool {
        match self {
            Sort::BubbleSort | Sort::ShakerSort | Sort::ExchangeSort | Sort::CombSort
                | Sort::OddEvenSort | Sort::SelectionSort | Sort::DoubleSelectionSort
                | Sort::StoogeSort | Sort::SlowSort => true,
            _ => false,
        }
    }

    /// Run this strategy to its end (or to cancellation) against the gated
    /// array. An ungated run always completes; a completed run leaves the
    /// values of the starting permutation in non-decreasing order, whichever
    /// strategy was selected.
    #[verifier::loop_isolation(false)]
    #[verifier::spinoff_prover]
    #[verifier::rlimit(100)]
    pub fn sort(&self, lock: &mut ArrayLock, size: usize) -> (r: Result<(), Cancelled>)
        requires
            !old(lock).cancelled(),
            1 <= size == old(lock).nums().len(),
            *self is QuickSort || *self is CycleSort ==> old(lock).nums().no_duplicates(),
            *self is CombSort || *self is RadixSort10 ==> size <= usize::MAX / 10,
            *self is RadixSort2 ==> size <= usize::MAX / 2,
            *self is CountingSort || *self is RadixSort10 || *self is RadixSort2 ==> forall|k: int|
                0 <= k < size ==> #[trigger] old(lock).nums()[k] >= 1,
            *self is CountingSort || *self is RadixSort10 || *self is RadixSort2 ==> forall|k: int|
                0 <= k < size ==> #[trigger] old(lock).nums()[k] <= size,
        ensures
            run_outcome(*old(lock), *final(lock), r),
            r is Ok ==> sorted(final(lock).nums()),
            r is Ok ==> final(lock).nums().to_multiset() == old(lock).nums().to_multiset(),
            sorted(old(lock).nums()) && self.comparison_exchange() ==> final(lock).nums() == old(
                lock,
            ).nums() && final(lock).state().spec_writes() == old(lock).state().spec_writes(),
    {
        match self {
            Sort::BubbleSort => Sort::bubble_sort(lock, size),
            Sort::ShakerSort => Sort::shaker_sort(lock, size),
            Sort::InsertionSort => Sort::insertion_sort(lock, size),
            Sort::SelectionSort => Sort::selection_sort(lock, size),
            Sort::DoubleSelectionSort => Sort::double_selection_sort(lock, size),
            Sort::StoogeSort => Sort::stooge_sort(lock, 0, size - 1),
            Sort::QuickSort => Sort::quick_sort(lock, 0, size - 1),
            Sort::MergeSort => Sort::merge_sort(lock, 0, size - 1),
            Sort::HeapSort => Sort::heap_sort(lock, size - 1),
            Sort::ExchangeSort => Sort::exchange_sort(lock, size),
            Sort::CycleSort => Sort::cycle_sort(lock, size),
            Sort::StrandSort => Sort::strand_sort(lock, size),
            Sort::CombSort => Sort::comb_sort(lock, size),
            Sort::OddEvenSort => Sort::odd_even_sort(lock, size),
            Sort::ShellSort => Sort::shell_sort(lock, size),
            Sort::CountingSort => Sort::counting_sort(lock, size, size, 1),
            Sort::RadixSort10 => Sort::radix_sort(lock, size, 10),
            Sort::RadixSort2 => Sort::radix_sort(lock, size, 2),
            Sort::SlowSort => Sort::slow_sort(lock, 0, size - 1),
        }
    }
}

/// Frame facts every sorting pass preserves: the throttle keeps its kind of
/// message source, and the array keeps its length and display mode.
pub open spec fn sort_frame(pre: ArrayLock, post: ArrayLock) -> bool {
    &&& same_mode(pre, post)
    &&& post.nums().len() == pre.nums().len()
    &&& post.state().spec_mode() == pre.state().spec_mode()
}

/// How every sorting pass ends: an ungated run always completes; a run that
/// returns the cancellation outcome observed `Kill`, and one that completes
/// never did.
pub open spec fn run_outcome(pre: ArrayLock, post: ArrayLock, r: Result<(), Cancelled>) -> bool {
    &&& sort_frame(pre, post)
    &&& (pre.is_free() ==> r is Ok)
    &&& (r is Err ==> post.cancelled())
    &&& (r is Ok ==> !post.cancelled())
}

/// Invariant carried through a running pass: the throttle has not been cancelled
/// and the frame facts hold against the state at entry.
pub open spec fn running(pre: ArrayLock, cur: ArrayLock) -> bool {
    &&& sort_frame(pre, cur)
    &&& !cur.cancelled()
}

impl Sort {
    /// Repeatedly bubble the largest remaining value to the end of the
    /// unsorted prefix; stop early after a pass without swaps.
    #[verifier::loop_isolation(false)]
    #[verifier::spinoff_prover]
    pub fn bubble_sort(lock: &mut ArrayLock, size: usize) -> (r: Result<(), Cancelled>)
        requires
            !old(lock).cancelled(),
            size == old(lock).nums().len(),
        ensures
            run_outcome(*old(lock), *final(lock), r),
            final(lock).nums().to_multiset() == old(lock).nums().to_multiset(),
            r is Ok ==> sorted(final(lock).nums()),
            sorted(old(lock).nums()) ==> final(lock).nums() == old(lock).nums()
                && final(lock).state().spec_writes() == old(lock).state().spec_writes(),
    {
        let mut i: usize = 1;
        let mut finished = false;
        while i < size && !finished
            invariant
                1 <= i,
                i <= size || i == 1,
                running(*old(lock), *lock),
                lock.nums().to_multiset() == old(lock).nums().to_multiset(),
                tail_finished(lock.nums(), size - i + 1),
                finished ==> sorted(lock.nums()),
                sorted(old(lock).nums()) ==> lock.nums() == old(lock).nums() && lock.state().spec_writes()
                    == old(lock).state().spec_writes(),
            decreases 2 * (size - i) + (if finished { 0int } else { 1 }),
        {
            let bound = size - i;
            let mut j: usize = 0;
            let mut abort = true;
            while j < bound
                invariant
                    bound == size - i,
                    1 <= i < size,
                    j <= bound,
                    running(*old(lock), *lock),
                    lock.nums().to_multiset() == old(lock).nums().to_multiset(),
                    tail_finished(lock.nums(), size - i + 1),
                    forall|k: int| 0 <= k <= j ==> lock.nums()[k] <= lock.nums()[j as int],
                    abort ==> forall|k: int|
                        0 <= k < j ==> #[trigger] lock.nums()[k] <= lock.nums()[k + 1],
                    sorted(old(lock).nums()) ==> lock.nums() == old(lock).nums() && lock.state().spec_writes()
                        == old(lock).state().spec_writes(),
                decreases bound - j,
            {
                let gt = match lock.cmp_two(j, j + 1) {
                    Ok(o) => matches!(o, Ordering::Greater),
                    Err(e) => {
                        return Err(e);
                    },
                };
                if gt {
                    let ghost before = lock.nums();
                    match lock.swap(j, j + 1) {
                        Ok(u) => u,
                        Err(e) => {
                            return Err(e);
                        },
                    }
                    proof {
                        crate::order::lemma_swap_multiset(before, j as int, j as int + 1);
                    }
                    abort = false;
                }
                j = j + 1;
            }
            if abort {
                proof {
                    lemma_sorted_from_adjacent(lock.nums(), 0, bound as int + 1);
                    assert(sorted(lock.nums()));
                }
                finished = true;
            } else {
                proof {
                    assert(tail_finished(lock.nums(), size - i as int));
                }
                i = i + 1;
            }
        }
        proof {
            if !finished {
                assert(sorted(lock.nums()));
            }
        }
        Ok(())
    }

    /// For each position in turn, exchange it with every later value that is
    /// smaller, so the smallest remaining value settles there.
    #[verifier::loop_isolation(false)]
    #[verifier::spinoff_prover]
    pub fn exchange_sort(lock: &mut ArrayLock, size: usize) -> (r: Result<(), Cancelled>)
        requires
            !old(lock).cancelled(),
            1 <= size == old(lock).nums().len(),
        ensures
            run_outcome(*old(lock), *final(lock), r),
            final(lock).nums().to_multiset() == old(lock).nums().to_multiset(),
            r is Ok ==> sorted(final(lock).nums()),
            sorted(old(lock).nums()) ==> final(lock).nums() == old(lock).nums()
                && final(lock).state().spec_writes() == old(lock).state().spec_writes(),
    {
        let mut i: usize = 0;
        while i < size - 1
            invariant
                i <= size - 1,
                running(*old(lock), *lock),
                lock.nums().to_multiset() == old(lock).nums().to_multiset(),
                head_finished(lock.nums(), i as int),
                sorted(old(lock).nums()) ==> lock.nums() == old(lock).nums()
                    && lock.state().spec_writes() == old(lock).state().spec_writes(),
            decreases size - i,
        {
            let mut j: usize = i + 1;
            while j < size
                invariant
                    i < j <= size,
                    i < size - 1,
                    running(*old(lock), *lock),
                    lock.nums().to_multiset() == old(lock).nums().to_multiset(),
                    head_finished(lock.nums(), i as int),
                    forall|k: int| i <= k < j ==> lock.nums()[i as int] <= #[trigger] lock.nums()[k],
                    sorted(old(lock).nums()) ==> lock.nums() == old(lock).nums()
                        && lock.state().spec_writes() == old(lock).state().spec_writes(),
                decreases size - j,
            {
                let gt = match lock.cmp_two(i, j) {
                    Ok(o) => matches!(o, Ordering::Greater),
                    Err(e) => {
                        return Err(e);
                    },
                };
                if gt {
                    let ghost before = lock.nums();
                    match lock.swap(i, j) {
                        Ok(u) => u,
                        Err(e) => {
                            return Err(e);
                        },
                    }
                    proof {
                        crate::order::lemma_swap_multiset(before, i as int, j as int);
                    }
                }
                j = j + 1;
            }
            i = i + 1;
        }
        Ok(())
    }

    /// Find the minimum of the unsorted suffix and swap it to the front of
    /// that suffix.
    #[verifier::loop_isolation(false)]
    #[verifier::spinoff_prover]
    pub fn selection_sort(lock: &mut ArrayLock, size: usize) -> (r: Result<(), Cancelled>)
        requires
            !old(lock).cancelled(),
            1 <= size == old(lock).nums().len(),
        ensures
            run_outcome(*old(lock), *final(lock), r),
            final(lock).nums().to_multiset() == old(lock).nums().to_multiset(),
            r is Ok ==> sorted(final(lock).nums()),
            sorted(old(lock).nums()) ==> final(lock).nums() == old(lock).nums()
                && final(lock).state().spec_writes() == old(lock).state().spec_writes(),
    {
        let mut i: usize = 0;
        while i < size - 1
            invariant
                i <= size - 1,
                running(*old(lock), *lock),
                lock.nums().to_multiset() == old(lock).nums().to_multiset(),
                head_finished(lock.nums(), i as int),
                sorted(old(lock).nums()) ==> lock.nums() == old(lock).nums()
                    && lock.state().spec_writes() == old(lock).state().spec_writes(),
            decreases size - i,
        {
            let mut min: usize = i;
            let mut j: usize = i + 1;
            while j < size
                invariant
                    i < j <= size,
                    i <= min < j,
                    i < size - 1,
                    running(*old(lock), *lock),
                    lock.nums().to_multiset() == old(lock).nums().to_multiset(),
                    head_finished(lock.nums(), i as int),
                    forall|k: int|
                        i <= k < j ==> lock.nums()[min as int] <= #[trigger] lock.nums()[k],
                    sorted(old(lock).nums()) ==> min == i && lock.nums() == old(lock).nums()
                        && lock.state().spec_writes() == old(lock).state().spec_writes(),
                decreases size - j,
            {
                let gt = match lock.cmp_two(min, j) {
                    Ok(o) => matches!(o, Ordering::Greater),
                    Err(e) => {
                        return Err(e);
                    },
                };
                if gt {
                    min = j;
                }
                j = j + 1;
            }
            if min != i {
                let ghost before = lock.nums();
                match lock.swap(min, i) {
                    Ok(u) => u,
                    Err(e) => {
                        return Err(e);
                    },
                }
                proof {
                    crate::order::lemma_swap_multiset(before, min as int, i as int);
                }
            }
            i = i + 1;
        }
        Ok(())
    }

    /// One selection pass from each end at a time: the minimum of the
    /// unsorted middle goes to its front, the maximum to its back.
    #[verifier::loop_isolation(false)]
    #[verifier::spinoff_prover]
    pub fn double_selection_sort(lock: &mut ArrayLock, size: usize) -> (r: Result<(), Cancelled>)
        requires
            !old(lock).cancelled(),
            size == old(lock).nums().len(),
        ensures
            run_outcome(*old(lock), *final(lock), r),
            final(lock).nums().to_multiset() == old(lock).nums().to_multiset(),
            r is Ok ==> sorted(final(lock).nums()),
            sorted(old(lock).nums()) ==> final(lock).nums() == old(lock).nums()
                && final(lock).state().spec_writes() == old(lock).state().spec_writes(),
    {
        let mut i: usize = 0;
        while i < size / 2
            invariant
                i <= size / 2,
                running(*old(lock), *lock),
                lock.nums().to_multiset() == old(lock).nums().to_multiset(),
                head_finished(lock.nums(), i as int),
                tail_finished(lock.nums(), size - i),
                sorted(old(lock).nums()) ==> lock.nums() == old(lock).nums()
                    && lock.state().spec_writes() == old(lock).state().spec_writes(),
            decreases size - i,
        {
            let mut min: usize = i;
            let mut j: usize = i + 1;
            while j < size - i
                invariant
                    i < size / 2,
                    i < j <= size - i,
                    i <= min < j,
                    running(*old(lock), *lock),
                    lock.nums().to_multiset() == old(lock).nums().to_multiset(),
                    head_finished(lock.nums(), i as int),
                    tail_finished(lock.nums(), size - i),
                    forall|k: int|
                        i <= k < j ==> lock.nums()[min as int] <= #[trigger] lock.nums()[k],
                    sorted(old(lock).nums()) ==> min == i && lock.nums() == old(lock).nums()
                        && lock.state().spec_writes() == old(lock).state().spec_writes(),
                decreases size - i - j,
            {
                let gt = match lock.cmp_two(min, j) {
                    Ok(o) => matches!(o, Ordering::Greater),
                    Err(e) => {
                        return Err(e);
                    },
                };
                if gt {
                    min = j;
                }
                j = j + 1;
            }
            if min != i {
                let ghost before = lock.nums();
                match lock.swap(min, i) {
                    Ok(u) => u,
                    Err(e) => {
                        return Err(e);
                    },
                }
                proof {
                    crate::order::lemma_swap_multiset(before, min as int, i as int);
                }
            }
            let mut max: usize = size - i - 1;
            let mut j2: usize = size - i - 1;
            while j2 > i + 1
                invariant
                    i < size / 2,
                    i + 1 <= j2 <= size - i - 1,
                    j2 <= max <= size - i - 1,
                    running(*old(lock), *lock),
                    lock.nums().to_multiset() == old(lock).nums().to_multiset(),
                    head_finished(lock.nums(), i as int + 1),
                    tail_finished(lock.nums(), size - i),
                    forall|k: int|
                        j2 <= k < size - i ==> #[trigger] lock.nums()[k] <= lock.nums()[max as int],
                    sorted(old(lock).nums()) ==> max == size - i - 1 && lock.nums() == old(
                        lock,
                    ).nums() && lock.state().spec_writes() == old(lock).state().spec_writes(),
                decreases j2,
            {
                let j3 = j2 - 1;
                let lt = match lock.cmp_two(max, j3) {
                    Ok(o) => matches!(o, Ordering::Less),
                    Err(e) => {
                        return Err(e);
                    },
                };
                if lt {
                    max = j3;
                }
                j2 = j2 - 1;
            }
            if max != size - i - 1 {
                let ghost before = lock.nums();
                match lock.swap(max, size - i - 1) {
                    Ok(u) => u,
                    Err(e) => {
                        return Err(e);
                    },
                }
                proof {
                    crate::order::lemma_swap_multiset(before, max as int, size - i - 1);
                }
            }
            i = i + 1;
        }
        proof {
            assert(sorted(lock.nums()));
        }
        Ok(())
    }

    /// Bubble passes in alternating directions: each round carries the
    /// largest remaining value to the back, then the smallest to the front;
    /// stop early after a pass without swaps.
    #[verifier::loop_isolation(false)]
    #[verifier::spinoff_prover]
    #[verifier::rlimit(50)]
    pub fn shaker_sort(lock: &mut ArrayLock, size: usize) -> (r: Result<(), Cancelled>)
        requires
            !old(lock).cancelled(),
            size == old(lock).nums().len(),
        ensures
            run_outcome(*old(lock), *final(lock), r),
            final(lock).nums().to_multiset() == old(lock).nums().to_multiset(),
            r is Ok ==> sorted(final(lock).nums()),
            sorted(old(lock).nums()) ==> final(lock).nums() == old(lock).nums()
                && final(lock).state().spec_writes() == old(lock).state().spec_writes(),
    {
        let mut i: usize = 1;
        let mut finished = false;
        while i < size / 2 + 1 && !finished
            invariant
                1 <= i <= size / 2 + 1,
                running(*old(lock), *lock),
                lock.nums().to_multiset() == old(lock).nums().to_multiset(),
                head_finished(lock.nums(), i - 1),
                tail_finished(lock.nums(), size - i + 1),
                finished ==> sorted(lock.nums()),
                sorted(old(lock).nums()) ==> lock.nums() == old(lock).nums()
                    && lock.state().spec_writes() == old(lock).state().spec_writes(),
            decreases 2 * (size / 2 + 1 - i) + (if finished {
                0int
            } else {
                1
            }),
        {
            let mut j: usize = i - 1;
            let mut abort = true;
            while j < size - i
                invariant
                    1 <= i <= size / 2,
                    i - 1 <= j <= size - i,
                    running(*old(lock), *lock),
                    lock.nums().to_multiset() == old(lock).nums().to_multiset(),
                    head_finished(lock.nums(), i - 1),
                    tail_finished(lock.nums(), size - i + 1),
                    forall|k: int|
                        i - 1 <= k <= j ==> #[trigger] lock.nums()[k] <= lock.nums()[j as int],
                    abort ==> forall|k: int|
                        i - 1 <= k < j ==> #[trigger] lock.nums()[k] <= lock.nums()[k + 1],
                    sorted(old(lock).nums()) ==> lock.nums() == old(lock).nums()
                        && lock.state().spec_writes() == old(lock).state().spec_writes(),
                decreases size - i - j,
            {
                let gt = match lock.cmp_two(j, j + 1) {
                    Ok(o) => matches!(o, Ordering::Greater),
                    Err(e) => {
                        return Err(e);
                    },
                };
                if gt {
                    let ghost before = lock.nums();
                    match lock.swap(j, j + 1) {
                        Ok(u) => u,
                        Err(e) => {
                            return Err(e);
                        },
                    }
                    proof {
                        crate::order::lemma_swap_multiset(before, j as int, j as int + 1);
                    }
                    abort = false;
                }
                j = j + 1;
            }
            if abort {
                proof {
                    lemma_sorted_from_adjacent(lock.nums(), i - 1, size - i + 1);
                    assert(sorted(lock.nums()));
                }
                finished = true;
            } else {
                proof {
                    assert(tail_finished(lock.nums(), size - i as int));
                }
                let mut c: usize = size - i;
                let mut abort2 = true;
                while c > i
                    invariant
                        1 <= i <= size / 2,
                        i <= c <= size - i,
                        running(*old(lock), *lock),
                        lock.nums().to_multiset() == old(lock).nums().to_multiset(),
                        head_finished(lock.nums(), i - 1),
                        tail_finished(lock.nums(), size - i as int),
                        forall|k: int|
                            c - 1 <= k < size - i ==> lock.nums()[c - 1]
                                <= #[trigger] lock.nums()[k],
                        abort2 ==> forall|k: int|
                            c <= k < size - i ==> #[trigger] lock.nums()[k - 1] <= lock.nums()[k],
                        sorted(old(lock).nums()) ==> lock.nums() == old(lock).nums()
                            && lock.state().spec_writes() == old(lock).state().spec_writes(),
                    decreases c,
                {
                    let cur = c - 1;
                    let lt = match lock.cmp_two(cur, cur - 1) {
                        Ok(o) => matches!(o, Ordering::Less),
                        Err(e) => {
                            return Err(e);
                        },
                    };
                    if lt {
                        let ghost before = lock.nums();
                        match lock.swap(cur, cur - 1) {
                            Ok(u) => u,
                            Err(e) => {
                                return Err(e);
                            },
                        }
                        proof {
                            crate::order::lemma_swap_multiset(before, cur as int, cur - 1);
                        }
                        abort2 = false;
                    }
                    c = c - 1;
                }
                if abort2 {
                    proof {
                        assert forall|k: int| i - 1 <= k < size - i - 1 implies #[trigger] lock.nums()[k]
                            <= lock.nums()[k + 1] by {
                            assert(lock.nums()[(k + 1) - 1] <= lock.nums()[k + 1]);
                        }
                        lemma_sorted_from_adjacent(lock.nums(), i - 1, size - i as int);
                        assert(sorted(lock.nums()));
                    }
                    finished = true;
                } else {
                    proof {
                        assert(head_finished(lock.nums(), i as int));
                    }
                    i = i + 1;
                }
            }
        }
        proof {
            if !finished {
                assert(sorted(lock.nums()));
            }
        }
        Ok(())
    }

    /// Grow a sorted prefix by lifting each next value out, shifting the
    /// larger prefix values up one place, and dropping it into the gap.
    #[verifier::loop_isolation(false)]
    #[verifier::spinoff_prover]
    pub fn insertion_sort(lock: &mut ArrayLock, size: usize) -> (r: Result<(), Cancelled>)
        requires
            !old(lock).cancelled(),
            size == old(lock).nums().len(),
        ensures
            run_outcome(*old(lock), *final(lock), r),
            r is Ok ==> final(lock).nums().to_multiset() == old(lock).nums().to_multiset(),
            r is Ok ==> sorted(final(lock).nums()),
            sorted(old(lock).nums()) && r is Ok ==> final(lock).nums() == old(lock).nums(),
    {
        let mut i: usize = 1;
        while i < size
            invariant
                1 <= i,
                i <= size || i == 1,
                running(*old(lock), *lock),
                lock.nums().to_multiset() == old(lock).nums().to_multiset(),
                sorted_between(lock.nums(), 0, i as int),
                sorted(old(lock).nums()) ==> lock.nums() == old(lock).nums(),
            decreases size - i,
        {
            let ghost orig = lock.nums();
            let current = match lock.get(i) {
                Ok(v) => v,
                Err(e) => {
                    return Err(e);
                },
            };
            proof {
                assert(lock.nums().update(i as int, current) =~= orig);
            }
            let mut j: usize = i;
            let mut shifting = true;
            while shifting && j > 0
                invariant
                    j <= i < size,
                    running(*old(lock), *lock),
                    current == orig[i as int],
                    sorted_between(orig, 0, i as int),
                    forall|k: int|
                        (0 <= k <= j || i < k < size) ==> #[trigger] lock.nums()[k] == orig[k],
                    forall|k: int| j < k <= i ==> #[trigger] lock.nums()[k] == orig[k - 1],
                    forall|k: int| j < k <= i ==> #[trigger] lock.nums()[k] > current,
                    lock.nums().update(j as int, current).to_multiset() == orig.to_multiset(),
                    orig.to_multiset() == old(lock).nums().to_multiset(),
                    !shifting ==> (j == 0 || lock.nums()[j - 1] <= current),
                    sorted(old(lock).nums()) ==> orig == old(lock).nums() && j == i,
                decreases j + (if shifting { 1int } else { 0 }),
            {
                let gt = match lock.cmp(j - 1, current) {
                    Ok(o) => matches!(o, Ordering::Greater),
                    Err(e) => {
                        return Err(e);
                    },
                };
                if gt {
                    let x = match lock.get(j - 1) {
                        Ok(v) => v,
                        Err(e) => {
                            return Err(e);
                        },
                    };
                    let ghost held = lock.nums();
                    match lock.set(j, x) {
                        Ok(u) => u,
                        Err(e) => {
                            return Err(e);
                        },
                    }
                    proof {
                        let t = held.update(j as int, current);
                        assert(held.update(j as int, x).update(j - 1, current) =~= t.update(
                            j - 1,
                            t[j as int],
                        ).update(j as int, t[j - 1]));
                        crate::order::lemma_swap_multiset(t, j - 1, j as int);
                    }
                    j = j - 1;
                } else {
                    shifting = false;
                }
            }
            let ghost held = lock.nums();
            match lock.set(j, current) {
                Ok(u) => u,
                Err(e) => {
                    return Err(e);
                },
            }
            proof {
                assert(lock.nums() == held.update(j as int, current));
                assert(sorted_between(lock.nums(), 0, i as int + 1)) by {
                    assert forall|p: int, q: int|
                        0 <= p <= q < i as int + 1 implies lock.nums()[p] <= lock.nums()[q] by {
                        let s = lock.nums();
                        if q <= j {
                            assert(s[p] == orig[p] || p == j as int);
                            assert(s[q] == orig[q] || q == j as int);
                        }
                    }
                }
                if sorted(old(lock).nums()) {
                    assert(lock.nums() =~= old(lock).nums());
                }
            }
            i = i + 1;
        }
        Ok(())
    }

    /// One gapped insertion pass: every value is shifted down in strides of
    /// `gap` past larger values `gap` apart. With `gap == 1` this is exactly
    /// an insertion-sort pass, so it leaves the array sorted.
    #[verifier::loop_isolation(false)]
    #[verifier::spinoff_prover]
    fn shell_pass(lock: &mut ArrayLock, size: usize, gap: usize) -> (r: Result<(), Cancelled>)
        requires
            !old(lock).cancelled(),
            size == old(lock).nums().len(),
            gap >= 1,
        ensures
            run_outcome(*old(lock), *final(lock), r),
            r is Ok ==> final(lock).nums().to_multiset() == old(lock).nums().to_multiset(),
            r is Ok && gap == 1 ==> sorted(final(lock).nums()),
            sorted(old(lock).nums()) && r is Ok ==> final(lock).nums() == old(lock).nums(),
    {
        let mut i: usize = gap;
        while i < size
            invariant
                gap <= i,
                i <= size || i == gap,
                running(*old(lock), *lock),
                lock.nums().to_multiset() == old(lock).nums().to_multiset(),
                gap == 1 ==> sorted_between(lock.nums(), 0, i as int),
                sorted(old(lock).nums()) ==> lock.nums() == old(lock).nums(),
            decreases size - i,
        {
            let ghost orig = lock.nums();
            let tmp = match lock.get(i) {
                Ok(v) => v,
                Err(e) => {
                    return Err(e);
                },
            };
            proof {
                assert(lock.nums().update(i as int, tmp) =~= orig);
            }
            let mut j: usize = i;
            let mut shifting = true;
            while shifting && j >= gap
                invariant
                    j <= i < size,
                    gap >= 1,
                    running(*old(lock), *lock),
                    tmp == orig[i as int],
                    lock.nums().update(j as int, tmp).to_multiset() == orig.to_multiset(),
                    orig.to_multiset() == old(lock).nums().to_multiset(),
                    forall|k: int| i < k < size ==> #[trigger] lock.nums()[k] == orig[k],
                    gap == 1 ==> sorted_between(orig, 0, i as int),
                    gap == 1 ==> forall|k: int|
                        (0 <= k <= j || i < k < size) ==> #[trigger] lock.nums()[k] == orig[k],
                    gap == 1 ==> forall|k: int| j < k <= i ==> #[trigger] lock.nums()[k] == orig[k
                        - 1],
                    gap == 1 ==> forall|k: int| j < k <= i ==> #[trigger] lock.nums()[k] > tmp,
                    !shifting ==> (j < gap || lock.nums()[j - gap] <= tmp),
                    sorted(old(lock).nums()) ==> orig == old(lock).nums() && j == i && lock.nums()
                        == orig,
                decreases j + (if shifting { 1int } else { 0 }),
            {
                let gt = match lock.cmp(j - gap, tmp) {
                    Ok(o) => matches!(o, Ordering::Greater),
                    Err(e) => {
                        return Err(e);
                    },
                };
                if gt {
                    let x = match lock.get(j - gap) {
                        Ok(v) => v,
                        Err(e) => {
                            return Err(e);
                        },
                    };
                    let ghost held = lock.nums();
                    match lock.set(j, x) {
                        Ok(u) => u,
                        Err(e) => {
                            return Err(e);
                        },
                    }
                    proof {
                        let t = held.update(j as int, tmp);
                        assert(held.update(j as int, x).update(j - gap, tmp) =~= t.update(
                            j - gap,
                            t[j as int],
                        ).update(j as int, t[j - gap]));
                        crate::order::lemma_swap_multiset(t, j - gap, j as int);
                    }
                    j = j - gap;
                } else {
                    shifting = false;
                }
            }
            let ghost held = lock.nums();
            match lock.set(j, tmp) {
                Ok(u) => u,
                Err(e) => {
                    return Err(e);
                },
            }
            proof {
                assert(lock.nums() == held.update(j as int, tmp));
                if gap == 1 {
                    assert(sorted_between(lock.nums(), 0, i as int + 1)) by {
                        assert forall|p: int, q: int|
                            0 <= p <= q < i as int + 1 implies lock.nums()[p] <= lock.nums()[q] by {
                            let s = lock.nums();
                            if q <= j {
                                assert(s[p] == orig[p] || p == j as int);
                                assert(s[q] == orig[q] || q == j as int);
                            }
                        }
                    }
                }
                if sorted(old(lock).nums()) {
                    assert(lock.nums() =~= old(lock).nums());
                }
            }
            i = i + 1;
        }
        Ok(())
    }

    /// Gapped insertion passes with the gap halving each round; the final
    /// round has gap 1 and is a plain insertion pass, which sorts.
    #[verifier::loop_isolation(false)]
    #[verifier::spinoff_prover]
    pub fn shell_sort(lock: &mut ArrayLock, size: usize) -> (r: Result<(), Cancelled>)
        requires
            !old(lock).cancelled(),
            size == old(lock).nums().len(),
        ensures
            run_outcome(*old(lock), *final(lock), r),
            r is Ok ==> final(lock).nums().to_multiset() == old(lock).nums().to_multiset(),
            r is Ok ==> sorted(final(lock).nums()),
            sorted(old(lock).nums()) && r is Ok ==> final(lock).nums() == old(lock).nums(),
    {
        let mut gap: usize = size;
        while gap > 1
            invariant
                running(*old(lock), *lock),
                lock.nums().to_multiset() == old(lock).nums().to_multiset(),
                gap == 0 ==> size == 0,
                gap == 1 ==> sorted(lock.nums()),
                sorted(old(lock).nums()) ==> lock.nums() == old(lock).nums(),
            decreases gap,
    {
            let g = if gap / 2 < 1 {
                1
            } else {
                gap / 2
            };
            match Sort::shell_pass(lock, size, g) {
                Ok(u) => u,
                Err(e) => {
                    return Err(e);
                },
            }
            gap = g;
        }
        Ok(())
    }

    /// Alternate passes over the even-aligned and odd-aligned adjacent
    /// pairs, swapping each out-of-order pair, until a full double pass
    /// makes no swap.
    #[verifier::loop_isolation(false)]
    #[verifier::spinoff_prover]
    #[verifier::rlimit(100)]
    pub fn odd_even_sort(lock: &mut ArrayLock, size: usize) -> (r: Result<(), Cancelled>)
        requires
            !old(lock).cancelled(),
            1 <= size == old(lock).nums().len(),
        ensures
            run_outcome(*old(lock), *final(lock), r),
            final(lock).nums().to_multiset() == old(lock).nums().to_multiset(),
            r is Ok ==> sorted(final(lock).nums()),
            sorted(old(lock).nums()) ==> final(lock).nums() == old(lock).nums()
                && final(lock).state().spec_writes() == old(lock).state().spec_writes(),
    {
        let mut ordered = false;
        while !ordered
            invariant
                running(*old(lock), *lock),
                lock.nums().to_multiset() == old(lock).nums().to_multiset(),
                ordered ==> sorted(lock.nums()),
                sorted(old(lock).nums()) ==> lock.nums() == old(lock).nums()
                    && lock.state().spec_writes() == old(lock).state().spec_writes(),
            decreases (if ordered {
                0int
            } else {
                inversions(lock.nums()) + 1int
            }),
        {
            let ghost m0 = inversions(lock.nums());
            let ghost n0 = lock.nums();
            let mut pass_ok = true;
            let mut i: usize = 0;
            while i < size - 1
                invariant
                    i <= size + 1,
                    i % 2 == 0,
                    running(*old(lock), *lock),
                    lock.nums().to_multiset() == old(lock).nums().to_multiset(),
                    pass_ok ==> lock.nums() == n0,
                    pass_ok ==> forall|k: int|
                        0 <= k < i && k % 2 == 0 ==> #[trigger] n0[k] <= n0[k + 1],
                    !pass_ok ==> inversions(lock.nums()) < m0,
                    sorted(old(lock).nums()) ==> pass_ok && lock.nums() == old(lock).nums()
                        && lock.state().spec_writes() == old(lock).state().spec_writes(),
                decreases size - i,
            {
                let gt = match lock.cmp_two(i, i + 1) {
                    Ok(o) => matches!(o, Ordering::Greater),
                    Err(e) => {
                        return Err(e);
                    },
                };
                if gt {
                    let ghost before = lock.nums();
                    match lock.swap(i, i + 1) {
                        Ok(u) => u,
                        Err(e) => {
                            return Err(e);
                        },
                    }
                    proof {
                        crate::order::lemma_swap_multiset(before, i as int, i as int + 1);
                        lemma_adjacent_swap_inversions(before, i as int);
                    }
                    pass_ok = false;
                }
                i = i + 2;
            }
            let mut j: usize = 1;
            while j < size - 1
                invariant
                    j <= size + 1,
                    j % 2 == 1,
                    running(*old(lock), *lock),
                    lock.nums().to_multiset() == old(lock).nums().to_multiset(),
                    pass_ok ==> lock.nums() == n0,
                    pass_ok ==> forall|k: int|
                        0 <= k < size - 1 && k % 2 == 0 ==> #[trigger] n0[k] <= n0[k + 1],
                    pass_ok ==> forall|k: int|
                        0 <= k < j && k % 2 == 1 ==> #[trigger] n0[k] <= n0[k + 1],
                    !pass_ok ==> inversions(lock.nums()) < m0,
                    sorted(old(lock).nums()) ==> pass_ok && lock.nums() == old(lock).nums()
                        && lock.state().spec_writes() == old(lock).state().spec_writes(),
                decreases size - j,
            {
                let gt = match lock.cmp_two(j, j + 1) {
                    Ok(o) => matches!(o, Ordering::Greater),
                    Err(e) => {
                        return Err(e);
                    },
                };
                if gt {
                    let ghost before = lock.nums();
                    match lock.swap(j, j + 1) {
                        Ok(u) => u,
                        Err(e) => {
                            return Err(e);
                        },
                    }
                    proof {
                        crate::order::lemma_swap_multiset(before, j as int, j as int + 1);
                        lemma_adjacent_swap_inversions(before, j as int);
                    }
                    pass_ok = false;
                }
                j = j + 2;
            }
            proof {
                if pass_ok {
                    assert forall|k: int| 0 <= k < size - 1 implies #[trigger] lock.nums()[k]
                        <= lock.nums()[k + 1] by {
                        assert(k % 2 == 0 || k % 2 == 1);
                    }
                    lemma_sorted_from_adjacent(lock.nums(), 0, size as int);
                    assert(sorted(lock.nums()));
                }
            }
            ordered = pass_ok;
        }
        Ok(())
    }

    /// Compare-and-swap at a gap that shrinks by the factor 13/10 each pass;
    /// once the gap is 1 the passes are adjacent-pair passes, and the sort
    /// stops after a gap-1 pass without swaps.
    #[verifier::loop_isolation(false)]
    #[verifier::spinoff_prover]
    pub fn comb_sort(lock: &mut ArrayLock, size: usize) -> (r: Result<(), Cancelled>)
        requires
            !old(lock).cancelled(),
            1 <= size == old(lock).nums().len(),
            size <= usize::MAX / 10,
        ensures
            run_outcome(*old(lock), *final(lock), r),
            final(lock).nums().to_multiset() == old(lock).nums().to_multiset(),
            r is Ok ==> sorted(final(lock).nums()),
            sorted(old(lock).nums()) ==> final(lock).nums() == old(lock).nums()
                && final(lock).state().spec_writes() == old(lock).state().spec_writes(),
    {
        let mut gap: usize = size;
        let mut ordered = false;
        while !ordered
            invariant
                1 <= gap <= size,
                running(*old(lock), *lock),
                lock.nums().to_multiset() == old(lock).nums().to_multiset(),
                ordered ==> sorted(lock.nums()),
                sorted(old(lock).nums()) ==> lock.nums() == old(lock).nums()
                    && lock.state().spec_writes() == old(lock).state().spec_writes(),
            decreases gap, (if ordered {
                0int
            } else {
                inversions(lock.nums()) + 1int
            }),
        {
            let ghost gap0 = gap;
            let ghost m0 = inversions(lock.nums());
            let ghost n0 = lock.nums();
            gap = gap * 10 / 13;
            let mut pass_ok = false;
            if gap <= 1 {
                gap = 1;
                pass_ok = true;
            }
            proof {
                assert(gap0 >= 2 ==> gap < gap0) by (nonlinear_arith)
                    requires
                        gap0 >= 1,
                        gap == (if gap0 * 10 / 13 <= 1 {
                            1int
                        } else {
                            gap0 * 10 / 13
                        }),
                ;
            }
            let mut i: usize = 0;
            while i < size - gap
                invariant
                    i <= size - gap,
                    1 <= gap <= size,
                    gap < gap0 || gap == 1,
                    running(*old(lock), *lock),
                    lock.nums().to_multiset() == old(lock).nums().to_multiset(),
                    pass_ok ==> gap == 1,
                    pass_ok ==> lock.nums() == n0,
                    pass_ok ==> forall|k: int| 0 <= k < i ==> #[trigger] n0[k] <= n0[k + 1],
                    gap == 1 && !pass_ok ==> inversions(lock.nums()) < m0,
                    sorted(old(lock).nums()) ==> lock.nums() == old(lock).nums()
                        && lock.state().spec_writes() == old(lock).state().spec_writes(),
                decreases size - gap - i,
            {
                let gt = match lock.cmp_two(i, i + gap) {
                    Ok(o) => matches!(o, Ordering::Greater),
                    Err(e) => {
                        return Err(e);
                    },
                };
                if gt {
                    let ghost before = lock.nums();
                    match lock.swap(i, i + gap) {
                        Ok(u) => u,
                        Err(e) => {
                            return Err(e);
                        },
                    }
                    proof {
                        crate::order::lemma_swap_multiset(before, i as int, i as int + gap);
                        if gap == 1 {
                            lemma_adjacent_swap_inversions(before, i as int);
                        }
                    }
                    pass_ok = false;
                }
                i = i + 1;
            }
            proof {
                if pass_ok {
                    lemma_sorted_from_adjacent(lock.nums(), 0, size as int);
                    assert(sorted(lock.nums()));
                }
            }
            ordered = pass_ok;
        }
        Ok(())
    }
}

} // verus!
