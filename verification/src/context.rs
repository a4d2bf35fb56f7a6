use vstd::prelude::*;

use crate::message::Messages;
use std::collections::BTreeMap;

use crate::timeout::{due_before, due_from, next_timeout_of, set_outcome, Timeouts};
use crate::waker::WakerHandle;

verus! {

/// What a context holds, as plain values.
pub struct ContextView<M, T> {
    /// Messages waiting to be delivered, oldest first.
    pub messages: Seq<M>,
    /// Upcoming timeouts, by the instant at which each is due.
    pub timeouts: Map<u128, T>,
    /// Whether the worker should keep running.
    pub running: bool,
    /// Whether a worker has been created from this context.
    pub worker_created: bool,
    /// The waker installed to wake the worker, if any.
    pub waker: Option<mio::Waker>,
    /// Outcome of every wake made through the installed waker since it was
    /// installed, oldest first: `true` for a wake that succeeded. Only a call
    /// of the waker's `wake` adds to it.
    pub wakes: Seq<bool>,
    /// Capacity of the event buffer the worker polls into.
    pub events_capacity: usize,
}

/// `r` is the outcome of waking the worker from a context in state `before`,
/// and `wakes` the wake log afterwards: with a waker installed, one wake went
/// through it and its outcome is both logged and returned; without a waker
/// nothing is woken, nothing is logged and the wake succeeds.
pub open spec fn woke<M, T>(
    before: ContextView<M, T>,
    wakes: Seq<bool>,
    r: Result<(), std::io::Error>,
) -> bool {
    if before.waker is Some {
        wakes == before.wakes.push(r is Ok)
    } else {
        r is Ok && wakes == before.wakes
    }
}

/// A call that can change a context: one of its methods, or a step of the
/// worker loop running for it.
pub enum ContextCall {
    CreateWorker,
    SendMessage,
    SetTimeout,
    Shutdown,
    SetRunning(bool),
    Wake,
    IsRunning,
    PopMessage,
    PopTimeouts,
    WorkerStep,
}

/// How the call `call` leaves the two flags of a context: only creating a
/// worker can mark it created, and it never unmarks it; only `set_running`
/// and `shutdown` change whether the worker should run.
pub open spec fn flags_follow<M, T>(c: ContextView<M, T>, call: ContextCall, c2: ContextView<M, T>) -> bool {
    match call {
        ContextCall::CreateWorker => c2.running == c.running && (c.worker_created
            ==> c2.worker_created),
        ContextCall::Shutdown => !c2.running && c2.worker_created == c.worker_created,
        ContextCall::SetRunning(b) => c2.running == b && c2.worker_created == c.worker_created,
        _ => c2.running == c.running && c2.worker_created == c.worker_created,
    }
}

/// Whether any call of `calls` from position `i` up to (not including) `j`
/// satisfies `p`.
pub open spec fn some_call(calls: Seq<ContextCall>, i: int, j: int, p: spec_fn(ContextCall) -> bool) -> bool {
    exists|k: int| i <= k < j && #[trigger] p(calls[k])
}

/// `cs` are the states a context goes through under the calls `calls`, one at
/// a time.
pub open spec fn context_trace<M, T>(cs: Seq<ContextView<M, T>>, calls: Seq<ContextCall>) -> bool {
    &&& cs.len() == calls.len() + 1
    &&& forall|i: int| 0 <= i < calls.len() ==> #[trigger] flags_follow(cs[i], calls[i], cs[i + 1])
}

/// Once a worker is created from a context it stays created, and a context
/// becomes marked as created only by a call that creates a worker.
pub proof fn law_created_stays<M, T>(cs: Seq<ContextView<M, T>>, calls: Seq<ContextCall>, i: int, j: int)
    requires
        context_trace(cs, calls),
        0 <= i <= j < cs.len(),
    ensures
        cs[i].worker_created ==> cs[j].worker_created,
        !cs[i].worker_created && cs[j].worker_created ==> some_call(
            calls,
            i,
            j,
            |c: ContextCall| c is CreateWorker,
        ),
    decreases j - i,
{
    if i < j {
        law_created_stays(cs, calls, i, j - 1);
        let prev = j - 1;
        assert(flags_follow(cs[prev], calls[prev], cs[prev + 1]));
        let p = |c: ContextCall| c is CreateWorker;
        if !cs[i].worker_created && cs[j].worker_created {
            if !cs[j - 1].worker_created {
                assert(p(calls[j - 1]));
            } else {
                let k = choose|k: int| i <= k < j - 1 && #[trigger] p(calls[k]);
                assert(i <= k < j && p(calls[k]));
            }
        }
    }
}

/// Whether the worker should run changes only through `set_running` and
/// `shutdown`: a context that should not run keeps so until a call sets it
/// running, and one that should run keeps so until it is shut down or set not
/// to run.
pub proof fn law_run_flag<M, T>(cs: Seq<ContextView<M, T>>, calls: Seq<ContextCall>, i: int, j: int)
    requires
        context_trace(cs, calls),
        0 <= i <= j < cs.len(),
    ensures
        !cs[i].running && !some_call(
            calls,
            i,
            j,
            |c: ContextCall| c == ContextCall::SetRunning(true),
        ) ==> !cs[j].running,
        cs[i].running && !some_call(
            calls,
            i,
            j,
            |c: ContextCall| c is Shutdown || c == ContextCall::SetRunning(false),
        ) ==> cs[j].running,
    decreases j - i,
{
    if i < j {
        law_run_flag(cs, calls, i, j - 1);
        let prev = j - 1;
        assert(flags_follow(cs[prev], calls[prev], cs[prev + 1]));
        let on = |c: ContextCall| c == ContextCall::SetRunning(true);
        let off = |c: ContextCall| c is Shutdown || c == ContextCall::SetRunning(false);
        if !some_call(calls, i, j, on) {
            assert(!on(calls[j - 1]));
            if some_call(calls, i, j - 1, on) {
                let k = choose|k: int| i <= k < j - 1 && #[trigger] on(calls[k]);
                assert(i <= k < j && on(calls[k]));
            }
        }
        if !some_call(calls, i, j, off) {
            assert(!off(calls[j - 1]));
            if some_call(calls, i, j - 1, off) {
                let k = choose|k: int| i <= k < j - 1 && #[trigger] off(calls[k]);
                assert(i <= k < j && off(calls[k]));
            }
        }
    }
}

/// State that a worker context shares with the worker created from it: the
/// message queue, the timeout store, the run flags and the waker.
pub struct ContextState<M, T> {
    waker: Option<WakerHandle>,
    messages: Messages<M>,
    timeouts: Timeouts<T>,
    running: bool,
    worker_created: bool,
    events_capacity: usize,
}

impl<M, T> View for ContextState<M, T> {
    type V = ContextView<M, T>;

    closed spec fn view(&self) -> ContextView<M, T> {
        ContextView {
            messages: self.messages@,
            timeouts: self.timeouts@,
            running: self.running,
            worker_created: self.worker_created,
            waker: match self.waker {
                Some(handle) => Some(handle.waker()),
                None => None,
            },
            wakes: match self.waker {
                Some(handle) => handle.wakes(),
                None => Seq::empty(),
            },
            events_capacity: self.events_capacity,
        }
    }
}

impl<M, T> ContextState<M, T> {
    /// A context with no messages, no timeouts and no waker, whose worker is
    /// not running and not yet created.
    pub fn new(events_capacity: usize) -> (r: Self)
        ensures
            r@.messages == Seq::<M>::empty(),
            r@.timeouts == Map::<u128, T>::empty(),
            !r@.running,
            !r@.worker_created,
            r@.waker is None,
            r@.wakes == Seq::<bool>::empty(),
            r@.events_capacity == events_capacity,
    {
        let timeouts = Timeouts::new();
        ContextState {
            waker: None,
            messages: Messages::new(),
            timeouts,
            running: false,
            worker_created: false,
            events_capacity,
        }
    }

    /// Capacity of the event buffer the worker polls into.
    pub fn events_capacity(&self) -> (r: usize)
        ensures
            r == self@.events_capacity,
    {
        self.events_capacity
    }

    /// Binds a worker to this context, given the outcome of creating a waker
    /// for the worker's poll. This can happen once: when a worker was already
    /// created the context is left as it was and `None` comes back. A failure
    /// to create the waker is returned as it is. Otherwise the waker is
    /// installed, with no wake made through it yet, and woken once; the
    /// outcome of that wake is returned, and the worker counts as created
    /// exactly when it succeeded.
    pub fn create_worker(&mut self, waker: Result<mio::Waker, std::io::Error>) -> (r: Option<
        Result<(), std::io::Error>,
    >)
        ensures
            flags_follow(old(self)@, ContextCall::CreateWorker, final(self)@),
            old(self)@.worker_created ==> r is None && final(self)@ == old(self)@,
            !old(self)@.worker_created ==> r is Some,
            !old(self)@.worker_created ==> match waker {
                Err(e) => r == Some(Err::<(), std::io::Error>(e)) && final(self)@ == old(self)@,
                Ok(w) => r matches Some(res) && {
                    let installed = ContextView {
                        waker: Some(w),
                        wakes: Seq::<bool>::empty(),
                        ..old(self)@
                    };
                    &&& woke(installed, final(self)@.wakes, res)
                    &&& final(self)@ == (ContextView {
                        wakes: final(self)@.wakes,
                        worker_created: res is Ok,
                        ..installed
                    })
                },
            },
    {
        if self.worker_created {
            return None;
        }
        match waker {
            Err(e) => Some(Err(e)),
            Ok(w) => {
                self.waker = Some(WakerHandle::new(w));
                match self.wake() {
                    Err(e) => Some(Err(e)),
                    Ok(()) => {
                        self.worker_created = true;
                        Some(Ok(()))
                    },
                }
            },
        }
    }

    /// Queues a message for the handler and wakes the worker.
    pub fn send_message(&mut self, message: M) -> (r: Result<(), std::io::Error>)
        ensures
            flags_follow(old(self)@, ContextCall::SendMessage, final(self)@),
            woke(old(self)@, final(self)@.wakes, r),
            final(self)@ == (ContextView {
                messages: old(self)@.messages.push(message),
                wakes: final(self)@.wakes,
                ..old(self)@
            }),
    {
        self.messages.push(message);
        self.wake()
    }

    /// Records a timeout to fire `duration` nanoseconds after `now` and wakes
    /// the worker, so that its next poll waits no longer than the new timeout.
    pub fn set_timeout(&mut self, now: u128, duration: u128, timeout: T) -> (r: Result<
        (),
        std::io::Error,
    >)
        ensures
            flags_follow(old(self)@, ContextCall::SetTimeout, final(self)@),
            set_outcome(old(self)@.timeouts, now, duration, timeout, final(self)@.timeouts),
            final(self)@.timeouts.dom().finite(),
            woke(old(self)@, final(self)@.wakes, r),
            final(self)@ == (ContextView {
                timeouts: final(self)@.timeouts,
                wakes: final(self)@.wakes,
                ..old(self)@
            }),
    {
        self.timeouts.set(now, duration, timeout);
        self.wake()
    }

    /// Tells the worker to stop and wakes it so that it notices.
    pub fn shutdown(&mut self) -> (r: Result<(), std::io::Error>)
        ensures
            flags_follow(old(self)@, ContextCall::Shutdown, final(self)@),
            woke(old(self)@, final(self)@.wakes, r),
            final(self)@ == (ContextView { running: false, wakes: final(self)@.wakes, ..old(self)@ }),
    {
        self.running = false;
        self.wake()
    }

    /// Whether a worker has been created from this context.
    pub fn worker_created(&self) -> (r: bool)
        ensures
            r == self@.worker_created,
    {
        self.worker_created
    }

    /// Whether the worker is running: it should run, and waking it works.
    /// The wake is only tried when the worker should run.
    pub fn is_running(&mut self) -> (r: bool)
        ensures
            flags_follow(old(self)@, ContextCall::IsRunning, final(self)@),
            old(self)@.running && old(self)@.waker is Some ==> final(self)@.wakes == old(
                self,
            )@.wakes.push(r),
            old(self)@.running && old(self)@.waker is None ==> r && final(self)@.wakes == old(
                self,
            )@.wakes,
            !old(self)@.running ==> !r && final(self)@.wakes == old(self)@.wakes,
            final(self)@ == (ContextView { wakes: final(self)@.wakes, ..old(self)@ }),
    {
        self.running && self.wake().is_ok()
    }

    /// Whether the worker should keep running.
    pub fn should_run(&self) -> (r: bool)
        ensures
            r == self@.running,
    {
        self.running
    }

    /// Sets whether the worker should keep running.
    pub fn set_running(&mut self, running: bool)
        ensures
            flags_follow(old(self)@, ContextCall::SetRunning(running), final(self)@),
            final(self)@ == (ContextView { running, ..old(self)@ }),
    {
        self.running = running;
    }

    /// Wakes the worker through the installed waker and returns the outcome;
    /// without a waker there is nobody to wake and this succeeds.
    pub fn wake(&mut self) -> (r: Result<(), std::io::Error>)
        ensures
            flags_follow(old(self)@, ContextCall::Wake, final(self)@),
            woke(old(self)@, final(self)@.wakes, r),
            final(self)@ == (ContextView { wakes: final(self)@.wakes, ..old(self)@ }),
    {
        match &mut self.waker {
            Some(handle) => handle.wake(),
            None => Ok(()),
        }
    }

    /// The queued messages.
    pub fn messages(&self) -> (r: &Messages<M>)
        ensures
            r@ == self@.messages,
    {
        &self.messages
    }

    /// The stored timeouts.
    pub fn timeouts(&self) -> (r: &Timeouts<T>)
        ensures
            r@ == self@.timeouts,
    {
        &self.timeouts
    }

    /// Takes the oldest queued message, if any.
    pub fn pop_message(&mut self) -> (r: Option<M>)
        ensures
            flags_follow(old(self)@, ContextCall::PopMessage, final(self)@),
            old(self)@.messages.len() == 0 ==> r is None && final(self)@ == old(self)@,
            old(self)@.messages.len() > 0 ==> r == Some(old(self)@.messages[0]) && final(self)@
                == (ContextView { messages: old(self)@.messages.drop_first(), ..old(self)@ }),
    {
        self.messages.pop()
    }

    /// Takes out the timeouts due strictly before `now`.
    pub fn pop_timeouts(&mut self, now: u128) -> (r: Option<BTreeMap<u128, T>>)
        ensures
            flags_follow(old(self)@, ContextCall::PopTimeouts, final(self)@),
            final(self)@.timeouts.dom().finite(),
            r is None ==> final(self)@ == old(self)@ && due_before(old(self)@.timeouts, now)
                == Map::<u128, T>::empty(),
            r matches Some(due) ==> {
                &&& due@ == due_before(old(self)@.timeouts, now)
                &&& exists|k: u128| due@.contains_key(k)
                &&& final(self)@ == (ContextView {
                    timeouts: due_from(old(self)@.timeouts, now),
                    ..old(self)@
                })
            },
    {
        self.timeouts.pop(now)
    }

    /// Time from `now` until the earliest stored timeout is due.
    pub fn next_timeout(&self, now: u128) -> (r: Option<u128>)
        ensures
            r == next_timeout_of(self@.timeouts, now),
            self@.timeouts.dom().finite(),
    {
        self.timeouts.next_timeout(now)
    }
}

} // verus!
