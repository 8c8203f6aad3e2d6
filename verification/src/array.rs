use vstd::prelude::*;

use crate::gui::DisplayMode;
use core::cmp::Ordering;
use rand::seq::SliceRandom;

verus! {

/// Tag of the most recent instrumented operation: which indices it touched
/// and whether it was a comparison or a data access. `Idle` means no
/// operation has been recorded since the last reset.
#[derive(Clone, Copy, Debug, PartialEq, Eq, Structural)]
pub enum Step {
    ComparisonTwo(usize, usize),
    Comparison(usize),
    AccessTwo(usize, usize),
    Access(usize),
    Idle,
}

impl Step {
    pub open spec fn spec_contains(self, index: usize) -> bool {
        match self {
            Step::ComparisonTwo(x, y) => x == index || y == index,
            Step::Comparison(x) => x == index,
            Step::AccessTwo(x, y) => x == index || y == index,
            Step::Access(x) => x == index,
            Step::Idle => false,
        }
    }

    pub open spec fn spec_is_comparison(self) -> bool {
        self matches Step::Comparison(_) || self matches Step::ComparisonTwo(_, _)
    }

    pub open spec fn spec_is_access(self) -> bool {
        self matches Step::Access(_) || self matches Step::AccessTwo(_, _)
    }

    pub open spec fn spec_values(self) -> Seq<usize> {
        match self {
            Step::ComparisonTwo(x, y) => seq![x, y],
            Step::Comparison(x) => seq![x],
            Step::AccessTwo(x, y) => seq![x, y],
            Step::Access(x) => seq![x],
            Step::Idle => Seq::empty(),
        }
    }

    /// True when `index` is one of the indices recorded in this step.
    pub fn contains(&self, index: usize) -> (r: bool)
        ensures
            r == self.spec_contains(index),
    {
        match self {
            Step::ComparisonTwo(x, y) => *x == index || *y == index,
            Step::Comparison(x) => *x == index,
            Step::AccessTwo(x, y) => *x == index || *y == index,
            Step::Access(x) => *x == index,
            Step::Idle => false,
        }
    }

    pub fn is_comparison(&self) -> (r: bool)
        ensures
            r == self.spec_is_comparison(),
    {
        matches!(self, Step::Comparison(_) | Step::ComparisonTwo(_, _))
    }

    pub fn is_access(&self) -> (r: bool)
        ensures
            r == self.spec_is_access(),
    {
        matches!(self, Step::Access(_) | Step::AccessTwo(_, _))
    }

    /// The recorded indices as a vector, first index first.
    pub fn values(&self) -> (r: Vec<usize>)
        ensures
            r@ == self.spec_values(),
    {
        let mut v: Vec<usize> = Vec::new();
        match self {
            Step::ComparisonTwo(x, y) => {
                v.push(*x);
                v.push(*y);
            },
            Step::Comparison(x) => {
                v.push(*x);
            },
            Step::AccessTwo(x, y) => {
                v.push(*x);
                v.push(*y);
            },
            Step::Access(x) => {
                v.push(*x);
            },
            Step::Idle => {},
        }
        assert(v@ =~= self.spec_values());
        v
    }
}

/// `a + d` on counters, stopping at `u64::MAX` instead of wrapping. The
/// counters are cumulative statistics; saturation is the documented
/// behaviour at the (practically unreachable) top of the range.
pub open spec fn sat_add(a: u64, d: u64) -> u64 {
    if a + d <= u64::MAX {
        (a + d) as u64
    } else {
        u64::MAX
    }
}

/// The initial contents of an array of length `n`: the values `1..=n` in order.
pub open spec fn initial_values(n: nat) -> Seq<usize> {
    Seq::new(n, |i: int| (i + 1) as usize)
}

/// How `x` compares to `y`, as the standard ordering value.
pub open spec fn ord_of(x: usize, y: usize) -> Ordering {
    if x < y {
        Ordering::Less
    } else if x == y {
        Ordering::Equal
    } else {
        Ordering::Greater
    }
}

/// The sequence of values being sorted, together with the last-step tag and
/// cumulative operation counters. Every read, write and comparison goes
/// through an accessor that updates the tag and the counters together with
/// the data; no operation bypasses the instrumentation.
///
/// Accounting convention: `cmp_two` counts 1 comparison and 2 reads; `cmp`
/// counts 1 comparison and 1 read; `swap` counts 2 reads and 2 writes;
/// `get` counts 1 read; `set` counts 1 write.
#[derive(Clone)]
pub struct ArrayState {
    numbers: Vec<usize>,
    mode: DisplayMode,
    step: Step,
    comparisons: u64,
    reads: u64,
    writes: u64,
}

impl ArrayState {
    pub closed spec fn nums(&self) -> Seq<usize> {
        self.numbers@
    }

    pub closed spec fn spec_step(&self) -> Step {
        self.step
    }

    pub closed spec fn spec_comparisons(&self) -> u64 {
        self.comparisons
    }

    pub closed spec fn spec_reads(&self) -> u64 {
        self.reads
    }

    pub closed spec fn spec_writes(&self) -> u64 {
        self.writes
    }

    pub closed spec fn spec_mode(&self) -> DisplayMode {
        self.mode
    }

    /// The value sequence always fits the machine's size type.
    pub proof fn lemma_len_bound(&self)
        ensures
            self.nums().len() <= usize::MAX,
    {
        broadcast use vstd::std_specs::vec::axiom_spec_len;

        assert(vstd::std_specs::vec::spec_vec_len(&self.numbers) == self.numbers@.len());
    }
}

/// The counters and the display mode are unchanged between `pre` and `post`.
pub open spec fn same_stats(pre: ArrayState, post: ArrayState) -> bool {
    &&& post.spec_comparisons() == pre.spec_comparisons()
    &&& post.spec_reads() == pre.spec_reads()
    &&& post.spec_writes() == pre.spec_writes()
    &&& post.spec_mode() == pre.spec_mode()
}

/// Effect of comparing the values at indices `a` and `b`.
pub open spec fn cmp_two_post(pre: ArrayState, post: ArrayState, a: usize, b: usize) -> bool {
    &&& post.nums() == pre.nums()
    &&& post.spec_step() == Step::ComparisonTwo(a, b)
    &&& post.spec_comparisons() == sat_add(pre.spec_comparisons(), 1)
    &&& post.spec_reads() == sat_add(pre.spec_reads(), 2)
    &&& post.spec_writes() == pre.spec_writes()
    &&& post.spec_mode() == pre.spec_mode()
}

/// Effect of comparing the value at `index` to an external `value`.
pub open spec fn cmp_post(pre: ArrayState, post: ArrayState, index: usize) -> bool {
    &&& post.nums() == pre.nums()
    &&& post.spec_step() == Step::Comparison(index)
    &&& post.spec_comparisons() == sat_add(pre.spec_comparisons(), 1)
    &&& post.spec_reads() == sat_add(pre.spec_reads(), 1)
    &&& post.spec_writes() == pre.spec_writes()
    &&& post.spec_mode() == pre.spec_mode()
}

/// Effect of exchanging the values at indices `a` and `b`.
pub open spec fn swap_post(pre: ArrayState, post: ArrayState, a: usize, b: usize) -> bool {
    &&& post.nums() == pre.nums().update(a as int, pre.nums()[b as int]).update(
        b as int,
        pre.nums()[a as int],
    )
    &&& post.spec_step() == Step::AccessTwo(a, b)
    &&& post.spec_comparisons() == pre.spec_comparisons()
    &&& post.spec_reads() == sat_add(pre.spec_reads(), 2)
    &&& post.spec_writes() == sat_add(pre.spec_writes(), 2)
    &&& post.spec_mode() == pre.spec_mode()
}

/// Effect of reading the value at `index`.
pub open spec fn get_post(pre: ArrayState, post: ArrayState, index: usize) -> bool {
    &&& post.nums() == pre.nums()
    &&& post.spec_step() == Step::Access(index)
    &&& post.spec_comparisons() == pre.spec_comparisons()
    &&& post.spec_reads() == sat_add(pre.spec_reads(), 1)
    &&& post.spec_writes() == pre.spec_writes()
    &&& post.spec_mode() == pre.spec_mode()
}

/// Effect of overwriting the value at `index` with `value`.
pub open spec fn set_post(pre: ArrayState, post: ArrayState, index: usize, value: usize) -> bool {
    &&& post.nums() == pre.nums().update(index as int, value)
    &&& post.spec_step() == Step::Access(index)
    &&& post.spec_comparisons() == pre.spec_comparisons()
    &&& post.spec_reads() == pre.spec_reads()
    &&& post.spec_writes() == sat_add(pre.spec_writes(), 1)
    &&& post.spec_mode() == pre.spec_mode()
}

fn bump(a: u64, d: u64) -> (r: u64)
    ensures
        r == sat_add(a, d),
{
    if a <= u64::MAX - d {
        a + d
    } else {
        u64::MAX
    }
}

fn filled(size: usize) -> (r: Vec<usize>)
    ensures
        r@ == initial_values(size as nat),
{
    let mut numbers: Vec<usize> = Vec::new();
    let mut i: usize = 0;
    while i < size
        invariant
            i <= size,
            numbers@ == initial_values(i as nat),
        decreases size - i,
    {
        i = i + 1;
        numbers.push(i);
        assert(numbers@ =~= initial_values(i as nat));
    }
    numbers
}

impl ArrayState {
    /// A fresh array of `size` values `1..=size`, no recorded step, all
    /// counters zero.
    pub fn new(size: usize, mode: DisplayMode) -> (r: ArrayState)
        ensures
            r.nums() == initial_values(size as nat),
            r.spec_step() == Step::Idle,
            r.spec_comparisons() == 0,
            r.spec_reads() == 0,
            r.spec_writes() == 0,
            r.spec_mode() == mode,
    {
        ArrayState {
            numbers: filled(size),
            mode,
            step: Step::Idle,
            comparisons: 0,
            reads: 0,
            writes: 0,
        }
    }

    /// Refill with `1..=size` and clear the step tag. The counters are reset
    /// only by `reset_stats`, never here.
    pub fn initialize(&mut self, size: usize)
        ensures
            final(self).nums() == initial_values(size as nat),
            final(self).spec_step() == Step::Idle,
            same_stats(*old(self), *final(self)),
    {
        self.numbers = filled(size);
        self.step = Step::Idle;
    }

    pub fn get_view(&self) -> (r: DisplayMode)
        ensures
            r == self.spec_mode(),
    {
        self.mode
    }

    pub fn set_view(&mut self, mode: DisplayMode)
        ensures
            final(self).nums() == old(self).nums(),
            final(self).spec_step() == old(self).spec_step(),
            final(self).spec_comparisons() == old(self).spec_comparisons(),
            final(self).spec_reads() == old(self).spec_reads(),
            final(self).spec_writes() == old(self).spec_writes(),
            final(self).spec_mode() == mode,
    {
        self.mode = mode;
    }

    /// Rearrange the values into a random order. The result holds the same
    /// values (as a multiset) in some order; the step tag is cleared.
    pub fn shuffle(&mut self)
        ensures
            final(self).nums().len() == old(self).nums().len(),
            final(self).nums().to_multiset() == old(self).nums().to_multiset(),
            final(self).spec_step() == Step::Idle,
            same_stats(*old(self), *final(self)),
    {
        shuffle_slice(&mut self.numbers);
        self.step = Step::Idle;
    }

    /// Reverse the order of the values and clear the step tag.
    pub fn reverse(&mut self)
        ensures
            final(self).nums() == old(self).nums().reverse(),
            final(self).spec_step() == Step::Idle,
            same_stats(*old(self), *final(self)),
    {
        let len = self.numbers.len();
        let mut i: usize = 0;
        while i < len / 2
            invariant
                len == self.numbers@.len(),
                i <= len / 2,
                forall|k: int|
                    0 <= k < i || len - i <= k < len ==> self.numbers@[k] == old(
                        self,
                    ).numbers@[len - 1 - k],
                forall|k: int| i <= k < len - i ==> self.numbers@[k] == old(self).numbers@[k],
                self.mode == old(self).mode,
                self.step == old(self).step,
                self.comparisons == old(self).comparisons,
                self.reads == old(self).reads,
                self.writes == old(self).writes,
            decreases len - i,
        {
            let x = self.numbers[i];
            let y = self.numbers[len - 1 - i];
            self.numbers.set(i, y);
            self.numbers.set(len - 1 - i, x);
            i = i + 1;
        }
        self.step = Step::Idle;
        assert(self.numbers@ =~= old(self).numbers@.reverse());
    }

    pub fn size(&self) -> (r: usize)
        ensures
            r == self.nums().len(),
    {
        self.numbers.len()
    }

    /// A copy of the value sequence, for rendering and inspection; reading
    /// it does not count as an instrumented operation.
    pub fn values(&self) -> (r: Vec<usize>)
        ensures
            r@ == self.nums(),
    {
        let mut v: Vec<usize> = Vec::new();
        let mut i: usize = 0;
        while i < self.numbers.len()
            invariant
                i <= self.numbers@.len(),
                v@ == self.numbers@.subrange(0, i as int),
            decreases self.numbers@.len() - i,
        {
            v.push(self.numbers[i]);
            assert(v@ =~= self.numbers@.subrange(0, i + 1));
            i = i + 1;
        }
        assert(v@ =~= self.numbers@);
        v
    }

    pub fn last_step(&self) -> (r: Step)
        ensures
            r == self.spec_step(),
    {
        self.step
    }

    pub fn clear_step(&mut self)
        ensures
            final(self).nums() == old(self).nums(),
            final(self).spec_step() == Step::Idle,
            same_stats(*old(self), *final(self)),
    {
        self.step = Step::Idle;
    }

    pub fn comparisons(&self) -> (r: u64)
        ensures
            r == self.spec_comparisons(),
    {
        self.comparisons
    }

    pub fn reads(&self) -> (r: u64)
        ensures
            r == self.spec_reads(),
    {
        self.reads
    }

    pub fn writes(&self) -> (r: u64)
        ensures
            r == self.spec_writes(),
    {
        self.writes
    }

    /// Zero all three counters without touching the values, the step tag or
    /// the display mode.
    pub fn reset_stats(&mut self)
        ensures
            final(self).nums() == old(self).nums(),
            final(self).spec_step() == old(self).spec_step(),
            final(self).spec_comparisons() == 0,
            final(self).spec_reads() == 0,
            final(self).spec_writes() == 0,
            final(self).spec_mode() == old(self).spec_mode(),
    {
        self.comparisons = 0;
        self.reads = 0;
        self.writes = 0;
    }

    /// Compare the values at `a` and `b`: 1 comparison, 2 reads, step tag
    /// `ComparisonTwo(a, b)`.
    pub fn cmp_two(&mut self, a: usize, b: usize) -> (r: Ordering)
        requires
            a < old(self).nums().len(),
            b < old(self).nums().len(),
        ensures
            cmp_two_post(*old(self), *final(self), a, b),
            r == ord_of(old(self).nums()[a as int], old(self).nums()[b as int]),
    {
        self.step = Step::ComparisonTwo(a, b);
        self.comparisons = bump(self.comparisons, 1);
        self.reads = bump(self.reads, 2);
        let x = self.numbers[a];
        let y = self.numbers[b];
        if x < y {
            Ordering::Less
        } else if x == y {
            Ordering::Equal
        } else {
            Ordering::Greater
        }
    }

    /// Compare the value at `index` to `value`: 1 comparison, 1 read, step
    /// tag `Comparison(index)`.
    pub fn cmp(&mut self, index: usize, value: usize) -> (r: Ordering)
        requires
            index < old(self).nums().len(),
        ensures
            cmp_post(*old(self), *final(self), index),
            r == ord_of(old(self).nums()[index as int], value),
    {
        self.comparisons = bump(self.comparisons, 1);
        self.reads = bump(self.reads, 1);
        self.step = Step::Comparison(index);
        let x = self.numbers[index];
        if x < value {
            Ordering::Less
        } else if x == value {
            Ordering::Equal
        } else {
            Ordering::Greater
        }
    }

    /// Exchange the values at `a` and `b`: 2 reads, 2 writes, step tag
    /// `AccessTwo(a, b)`.
    pub fn swap(&mut self, a: usize, b: usize)
        requires
            a < old(self).nums().len(),
            b < old(self).nums().len(),
        ensures
            swap_post(*old(self), *final(self), a, b),
    {
        self.reads = bump(self.reads, 2);
        self.writes = bump(self.writes, 2);
        self.step = Step::AccessTwo(a, b);
        let x = self.numbers[a];
        let y = self.numbers[b];
        self.numbers.set(a, y);
        self.numbers.set(b, x);
    }

    /// Read the value at `index`: 1 read, step tag `Access(index)`.
    pub fn get(&mut self, index: usize) -> (r: usize)
        requires
            index < old(self).nums().len(),
        ensures
            get_post(*old(self), *final(self), index),
            r == old(self).nums()[index as int],
    {
        self.reads = bump(self.reads, 1);
        self.step = Step::Access(index);
        self.numbers[index]
    }

    /// Overwrite the value at `index`: 1 write, step tag `Access(index)`.
    pub fn set(&mut self, index: usize, value: usize)
        requires
            index < old(self).nums().len(),
        ensures
            set_post(*old(self), *final(self), index, value),
    {
        self.writes = bump(self.writes, 1);
        self.step = Step::Access(index);
        self.numbers.set(index, value);
    }
}

/// Relies on rand's `SliceRandom::shuffle` (a Fisher-Yates shuffle built on
/// in-place element swaps): it rearranges the slice into some order without
/// adding or dropping values.
#[verifier::external_body]
fn shuffle_slice(v: &mut Vec<usize>)
    ensures
        final(v)@.len() == old(v)@.len(),
        final(v)@.to_multiset() == old(v)@.to_multiset(),
{
    v.as_mut_slice().shuffle(&mut rand::rng());
}

} // verus!
