use vstd::prelude::*;

use crate::array::{
    ArrayState, cmp_post, cmp_two_post, get_post, ord_of, set_post, swap_post,
};
use core::cmp::Ordering;
use std::sync::mpsc::Receiver;
use std::sync::{Arc, Mutex};

verus! {

/// The control messages a controller sends to a running sort: stop it, grant
/// it one operation, or grant it a budget of `n` operations.
#[derive(Clone, Copy, Debug, PartialEq, Eq, Structural)]
pub enum Message {
    Kill,
    Step,
    Tick(u64),
}

/// The distinguished non-error outcome of a killed sort: the worker unwound
/// cleanly without touching the array again.
#[derive(Clone, Copy, Debug, PartialEq, Eq, Structural)]
pub struct Cancelled;

/// Upper bound on the budget a single `Tick` may grant, so that even at the
/// highest speed the worker re-consults the channel (and can see a `Kill`)
/// after boundedly many operations.
pub const STEP_CAP: u64 = 1000000;

/// The budget one received message grants: `Step` and `Tick(0)` grant one
/// operation, `Tick(n)` grants `n` capped at `STEP_CAP`. Every grant is at
/// least one, so a single message always resolves a blocked claim.
pub open spec fn grant_of(m: Message) -> u64 {
    match m {
        Message::Kill => 0,
        Message::Step => 1,
        Message::Tick(n) => if n == 0 {
            1
        } else if n > STEP_CAP {
            STEP_CAP
        } else {
            n
        },
    }
}

/// Declares `std::sync::Mutex` so the shared render cell can name it; every
/// use of the lock itself sits inside a trusted wrapper below.
#[verifier::external_type_specification]
#[verifier::external_body]
#[verifier::reject_recursive_types(T)]
pub struct ExMutex<T: ?Sized>(Mutex<T>);

/// Declares `std::sync::mpsc::Receiver` so the throttle can hold its end of
/// the control channel; the only use is the trusted `receive` below.
#[verifier::external_type_specification]
#[verifier::external_body]
#[verifier::reject_recursive_types(T)]
pub struct ExReceiver<T>(Receiver<T>);

/// A lock-guarded, shared snapshot of the instrumented array. The worker
/// stores the array's state into it after every gated operation; the
/// controller and renderer read it at any time, so every intermediate state
/// of a running sort is observable without touching the worker.
pub struct SharedArray {
    cell: Arc<Mutex<ArrayState>>,
}

impl Clone for SharedArray {
    /// Relies on `Arc::clone`: a second handle to the same shared cell.
    #[verifier::external_body]
    fn clone(&self) -> (r: SharedArray) {
        SharedArray { cell: Arc::clone(&self.cell) }
    }
}

impl SharedArray {
    /// Relies on `Arc::new` and `Mutex::new`: a fresh shared cell holding
    /// `state`.
    #[verifier::external_body]
    fn new_cell(state: ArrayState) -> (r: SharedArray) {
        SharedArray { cell: Arc::new(Mutex::new(state)) }
    }

    /// Relies on `Mutex::lock`: overwrites the shared snapshot with `state`,
    /// holding the lock only for the single store.
    #[verifier::external_body]
    fn store(&self, state: &ArrayState) {
        match self.cell.lock() {
            Ok(mut guard) => {
                *guard = state.clone();
            },
            Err(poisoned) => {
                *poisoned.into_inner() = state.clone();
            },
        }
    }

    /// Relies on `Mutex::lock`: reads the current snapshot, holding the lock
    /// only for the single read. What comes back depends on what the worker
    /// thread last stored, so nothing more is promised of it; it is the
    /// pass-through, lock-guarded read the renderer and the statistics
    /// display use.
    #[verifier::external_body]
    pub fn snapshot(&self) -> (r: ArrayState) {
        match self.cell.lock() {
            Ok(guard) => guard.clone(),
            Err(poisoned) => poisoned.into_inner().clone(),
        }
    }
}

/// Relies on `mpsc::Receiver::recv`: blocks until the controller sends the
/// next control message; a closed channel counts as `Kill`, so a dropped
/// controller can never hang the worker. Which message arrives depends on
/// the other thread, so nothing is promised of the result.
#[verifier::external_body]
fn receive(r: &Receiver<Message>) -> (m: Message) {
    match r.recv() {
        Ok(m) => m,
        Err(_) => Message::Kill,
    }
}

/// Where the throttle's control messages come from: a fixed script (for
/// deterministic, single-threaded runs), a live channel fed by a controller
/// thread, or nowhere at all for an ungated run.
enum MessageSource {
    Script(Vec<Message>),
    Live(Receiver<Message>),
    Free,
}

/// The throttle gate bound to the instrumented array it paces. Every
/// instrumented operation first claims one unit of budget; when the budget
/// is exhausted the throttle consumes the next control message — blocking on the
/// channel in live mode, reading the next scripted message in script mode —
/// and `Kill` (or a closed channel, or an exhausted script) cancels the sort
/// before any further array access.
pub struct ArrayLock {
    array: ArrayState,
    budget: u64,
    cursor: usize,
    done: bool,
    source: MessageSource,
    mirror: Option<SharedArray>,
}

impl ArrayLock {
    /// The instrumented array as the throttle currently holds it.
    pub closed spec fn state(&self) -> ArrayState {
        self.array
    }

    /// Budget units left before the throttle consults the control channel again.
    pub closed spec fn budget(&self) -> u64 {
        self.budget
    }

    /// True once the throttle has observed `Kill`; no further operation may be
    /// attempted through a cancelled gate.
    pub closed spec fn cancelled(&self) -> bool {
        self.done
    }

    pub closed spec fn is_free(&self) -> bool {
        self.source is Free
    }

    pub closed spec fn is_script(&self) -> bool {
        self.source is Script
    }

    pub closed spec fn is_live(&self) -> bool {
        self.source is Live
    }

    /// The control messages not yet consumed, in script mode.
    pub closed spec fn script(&self) -> Seq<Message> {
        match self.source {
            MessageSource::Script(msgs) => if self.cursor <= msgs@.len() {
                msgs@.skip(self.cursor as int)
            } else {
                Seq::empty()
            },
            _ => Seq::empty(),
        }
    }

    /// The values currently held by the gated array.
    pub open spec fn nums(&self) -> Seq<usize> {
        self.state().nums()
    }

    /// The gated value sequence always fits the machine's size type.
    pub proof fn lemma_len_bound(&self)
        ensures
            self.nums().len() <= usize::MAX,
    {
        self.array.lemma_len_bound();
    }
}

/// The throttle's message source is the same kind in `pre` and `post`.
pub open spec fn same_mode(pre: ArrayLock, post: ArrayLock) -> bool {
    &&& post.is_free() == pre.is_free()
    &&& post.is_script() == pre.is_script()
    &&& post.is_live() == pre.is_live()
}

/// How the throttle's control state evolves when a claim succeeds: budget left
/// over from an earlier grant is consumed one unit per operation with no
/// message read; only a zero budget consumes a message, and the message
/// consumed then grants `grant_of` units of which this operation uses one.
pub open spec fn claim_ok(pre: ArrayLock, post: ArrayLock) -> bool {
    &&& same_mode(pre, post)
    &&& !pre.cancelled()
    &&& !post.cancelled()
    &&& if pre.is_free() {
        post.budget() == pre.budget() && post.script() == pre.script()
    } else if pre.budget() > 0 {
        post.budget() == pre.budget() - 1 && post.script() == pre.script()
    } else if pre.is_script() {
        &&& pre.script().len() > 0
        &&& !(pre.script()[0] is Kill)
        &&& post.budget() == grant_of(pre.script()[0]) - 1
        &&& post.script() == pre.script().drop_first()
    } else {
        post.budget() < STEP_CAP
    }
}

/// How a run ends on `Kill`: only a zero budget consults the channel, the
/// array is left exactly as it was, and the throttle is cancelled for good.
pub open spec fn claim_killed(pre: ArrayLock, post: ArrayLock) -> bool {
    &&& same_mode(pre, post)
    &&& !pre.cancelled()
    &&& post.cancelled()
    &&& !pre.is_free()
    &&& pre.budget() == 0
    &&& post.budget() == 0
    &&& post.state() == pre.state()
    &&& (pre.is_script() ==> {
        &&& (pre.script().len() == 0 || pre.script()[0] is Kill)
        &&& post.script() == if pre.script().len() == 0 {
            pre.script()
        } else {
            pre.script().drop_first()
        }
    })
}

impl ArrayLock {
    /// A gate fed by a fixed script of control messages, consumed front to
    /// back; running past the end of the script behaves as `Kill`, like a
    /// closed channel.
    pub fn with_script(array: ArrayState, script: Vec<Message>) -> (r: ArrayLock)
        ensures
            r.state() == array,
            r.budget() == 0,
            !r.cancelled(),
            r.is_script(),
            !r.is_free(),
            !r.is_live(),
            r.script() == script@,
    {
        proof {
            assert(script@.skip(0) =~= script@);
        }
        ArrayLock {
            array,
            budget: 0,
            cursor: 0,
            done: false,
            source: MessageSource::Script(script),
            mirror: None,
        }
    }

    /// A gate that never blocks: every claim is granted. This is the
    /// "budget effectively unlimited" mode that runs a sort to completion.
    pub fn ungated(array: ArrayState) -> (r: ArrayLock)
        ensures
            r.state() == array,
            !r.cancelled(),
            r.is_free(),
            !r.is_script(),
            !r.is_live(),
    {
        ArrayLock {
            array,
            budget: 0,
            cursor: 0,
            done: false,
            source: MessageSource::Free,
            mirror: None,
        }
    }

    /// A gate fed by a live control channel, with budget zero so the worker
    /// blocks immediately awaiting the first message. Also hands back the
    /// shared handle through which the controller and renderer observe every
    /// intermediate state.
    pub fn live(array: ArrayState, receiver: Receiver<Message>) -> (r: (ArrayLock, SharedArray))
        ensures
            r.0.state() == array,
            r.0.budget() == 0,
            !r.0.cancelled(),
            r.0.is_live(),
            !r.0.is_free(),
            !r.0.is_script(),
    {
        let shared = SharedArray::new_cell(array.clone());
        let lock = ArrayLock {
            array,
            budget: 0,
            cursor: 0,
            done: false,
            source: MessageSource::Live(receiver),
            mirror: Some(shared.clone()),
        };
        (lock, shared)
    }

    /// Surrender the throttle and take back the instrumented array it owned.
    pub fn into_state(self) -> (r: ArrayState)
        ensures
            r == self.state(),
    {
        self.array
    }

    /// Read-only view of the gated array, for rendering and tests; reading
    /// it does not count as an instrumented operation.
    pub fn peek(&self) -> (r: &ArrayState)
        ensures
            *r == self.state(),
    {
        &self.array
    }

    /// Claim one unit of budget, consuming the next control message if none
    /// is left over. On `Kill` the claim fails and the throttle is cancelled.
    fn acquire(&mut self) -> (r: Result<(), Cancelled>)
        requires
            !old(self).cancelled(),
        ensures
            final(self).state() == old(self).state(),
            r is Ok ==> claim_ok(*old(self), *final(self)),
            r is Err ==> claim_killed(*old(self), *final(self)),
            old(self).is_free() ==> r is Ok,
    {
        if matches!(&self.source, MessageSource::Free) {
            return Ok(());
        }
        if self.budget > 0 {
            self.budget = self.budget - 1;
            return Ok(());
        }
        let m: Message;
        let mut advance: bool = false;
        match &self.source {
            MessageSource::Free => {
                m = Message::Kill;
            },
            MessageSource::Script(msgs) => {
                if self.cursor < msgs.len() {
                    m = msgs[self.cursor];
                    advance = true;
                } else {
                    m = Message::Kill;
                }
            },
            MessageSource::Live(receiver) => {
                m = receive(receiver);
            },
        }
        if advance {
            proof {
                let msgs = self.source->Script_0;
                assert(self.script()[0] == msgs@[self.cursor as int]);
                assert(msgs@.skip(self.cursor as int).drop_first() =~= msgs@.skip(
                    self.cursor as int + 1,
                ));
            }
            self.cursor = self.cursor + 1;
        }
        match m {
            Message::Kill => {
                self.done = true;
                Err(Cancelled)
            },
            Message::Step => Ok(()),
            Message::Tick(n) => {
                let g = if n == 0 {
                    1
                } else if n > STEP_CAP {
                    STEP_CAP
                } else {
                    n
                };
                self.budget = g - 1;
                Ok(())
            },
        }
    }

    /// Store the current array state into the shared render handle, if this
    /// gate has one.
    fn publish(&self) {
        if let Some(shared) = &self.mirror {
            shared.store(&self.array);
        }
    }

    /// Gated comparison of the values at `a` and `b`.
    pub fn cmp_two(&mut self, a: usize, b: usize) -> (r: Result<Ordering, Cancelled>)
        requires
            !old(self).cancelled(),
            a < old(self).nums().len(),
            b < old(self).nums().len(),
        ensures
            old(self).is_free() ==> r is Ok,
            r is Err ==> claim_killed(*old(self), *final(self)),
            r is Ok ==> claim_ok(*old(self), *final(self)) && cmp_two_post(
                old(self).state(),
                final(self).state(),
                a,
                b,
            ) && r == Ok::<Ordering, Cancelled>(
                ord_of(old(self).nums()[a as int], old(self).nums()[b as int]),
            ),
    {
        if self.acquire().is_err() {
            return Err(Cancelled);
        }
        let r = self.array.cmp_two(a, b);
        self.publish();
        Ok(r)
    }

    /// Gated comparison of the value at `index` to `value`.
    pub fn cmp(&mut self, index: usize, value: usize) -> (r: Result<Ordering, Cancelled>)
        requires
            !old(self).cancelled(),
            index < old(self).nums().len(),
        ensures
            old(self).is_free() ==> r is Ok,
            r is Err ==> claim_killed(*old(self), *final(self)),
            r is Ok ==> claim_ok(*old(self), *final(self)) && cmp_post(
                old(self).state(),
                final(self).state(),
                index,
            ) && r == Ok::<Ordering, Cancelled>(ord_of(old(self).nums()[index as int], value)),
    {
        if self.acquire().is_err() {
            return Err(Cancelled);
        }
        let r = self.array.cmp(index, value);
        self.publish();
        Ok(r)
    }

    /// Gated exchange of the values at `a` and `b`.
    pub fn swap(&mut self, a: usize, b: usize) -> (r: Result<(), Cancelled>)
        requires
            !old(self).cancelled(),
            a < old(self).nums().len(),
            b < old(self).nums().len(),
        ensures
            old(self).is_free() ==> r is Ok,
            r is Err ==> claim_killed(*old(self), *final(self)),
            r is Ok ==> claim_ok(*old(self), *final(self)) && swap_post(
                old(self).state(),
                final(self).state(),
                a,
                b,
            ),
    {
        if self.acquire().is_err() {
            return Err(Cancelled);
        }
        self.array.swap(a, b);
        self.publish();
        Ok(())
    }

    /// Gated read of the value at `index`.
    pub fn get(&mut self, index: usize) -> (r: Result<usize, Cancelled>)
        requires
            !old(self).cancelled(),
            index < old(self).nums().len(),
        ensures
            old(self).is_free() ==> r is Ok,
            r is Err ==> claim_killed(*old(self), *final(self)),
            r is Ok ==> claim_ok(*old(self), *final(self)) && get_post(
                old(self).state(),
                final(self).state(),
                index,
            ) && r == Ok::<usize, Cancelled>(old(self).nums()[index as int]),
    {
        if self.acquire().is_err() {
            return Err(Cancelled);
        }
        let r = self.array.get(index);
        self.publish();
        Ok(r)
    }

    /// Gated overwrite of the value at `index` with `value`.
    pub fn set(&mut self, index: usize, value: usize) -> (r: Result<(), Cancelled>)
        requires
            !old(self).cancelled(),
            index < old(self).nums().len(),
        ensures
            old(self).is_free() ==> r is Ok,
            r is Err ==> claim_killed(*old(self), *final(self)),
            r is Ok ==> claim_ok(*old(self), *final(self)) && set_post(
                old(self).state(),
                final(self).state(),
                index,
                value,
            ),
    {
        if self.acquire().is_err() {
            return Err(Cancelled);
        }
        self.array.set(index, value);
        self.publish();
        Ok(())
    }
}

} // verus!
