use vstd::prelude::*;
use vstd::calc;

use crate::context::{flags_follow, ContextCall, ContextState, ContextView};
use std::collections::BTreeMap;

use crate::timeout::{
    due_before, due_from, earliest, is_earliest, lemma_earliest_exists, lemma_earliest_unique,
    next_timeout_of, take_first,
};

verus! {

/// Token of the events that the context's waker produces.
pub const WAKER_TOKEN: usize = usize::MAX;

/// What the worker reads of a readiness event returned by a poll.
#[derive(Clone, Copy, Debug)]
pub struct EventInfo {
    pub token: usize,
    pub readable: bool,
    pub writable: bool,
    pub error: bool,
}

/// How the worker treats an event.
#[derive(Clone, Copy, Debug)]
pub enum EventKind {
    /// The waker fired: a message was queued or a timeout was set.
    Wake,
    /// An I/O source is ready: the handler is told.
    Io,
    /// Neither: the event is passed over.
    Ignored,
}

pub open spec fn kind_of(e: EventInfo) -> EventKind {
    if e.token == WAKER_TOKEN {
        EventKind::Wake
    } else if e.readable || e.writable || e.error {
        EventKind::Io
    } else {
        EventKind::Ignored
    }
}

/// Sorts an event: the waker's token wins over readiness; any other event is
/// handed to the handler when it is readable, writable or an error.
pub fn classify(event: &EventInfo) -> (k: EventKind)
    ensures
        k == kind_of(*event),
{
    if event.token == WAKER_TOKEN {
        EventKind::Wake
    } else if event.readable || event.writable || event.error {
        EventKind::Io
    } else {
        EventKind::Ignored
    }
}

/// Where the worker loop stands.
#[derive(Clone, Copy, Debug)]
pub enum Phase {
    /// About to check whether to keep running and to collect due timeouts.
    Begin,
    /// Handing the collected timeouts to the handler.
    Timeouts,
    /// Waiting for a poll to return.
    Poll,
    /// Going through the events the last poll returned.
    Events,
    /// The handler was just given a message.
    AfterNotify,
}

/// What the loop is told when it is asked for its next action.
pub enum Input {
    /// The previous action was carried out.
    Proceed,
    /// The poll asked for returned these events.
    Polled(Vec<EventInfo>),
}

/// What the worker is to do next.
#[derive(Debug)]
pub enum Action<M, T> {
    /// Stop running.
    Exit,
    /// Hand this timeout to the handler.
    Timeout(T),
    /// Poll for events, waiting at most this many nanoseconds (without limit
    /// on `None`).
    Poll(Option<u128>),
    /// Hand this message to the handler.
    Notify(M),
    /// Tell the handler that the event at this position of the last poll is
    /// ready.
    Ready(usize),
    /// Wake the worker again, because messages remain queued.
    Wake,
    /// Nothing to do outside; ask again.
    Continue,
}

/// The loop's state, as plain values.
pub struct LoopView<T> {
    pub phase: Phase,
    /// Collected timeouts not yet handed out, by instant.
    pub pending: Map<u128, T>,
    /// Events of the last poll.
    pub events: Seq<EventInfo>,
    /// Position of the next event to look at.
    pub next_event: usize,
    /// How long the next poll may wait.
    pub poll_duration: Option<u128>,
}

/// One step of the worker loop: from the loop's state `l`, the context's
/// state `c`, the time `now` and the input, to the new states `l2`, `c2` and
/// the action `a`.
pub open spec fn loop_step<M, T>(
    l: LoopView<T>,
    c: ContextView<M, T>,
    now: u128,
    input: Input,
    l2: LoopView<T>,
    c2: ContextView<M, T>,
    a: Action<M, T>,
) -> bool {
    match l.phase {
        Phase::Begin => if !c.running {
            a == Action::<M, T>::Exit && l2 == l && c2 == c
        } else {
            &&& a == Action::<M, T>::Continue
            &&& l2 == (LoopView {
                phase: Phase::Timeouts,
                pending: due_before(c.timeouts, now),
                ..l
            })
            &&& c2 == (ContextView { timeouts: due_from(c.timeouts, now), ..c })
        },
        Phase::Timeouts => if exists|k: u128| is_earliest(l.pending, k) {
            &&& a == Action::<M, T>::Timeout(l.pending[earliest(l.pending)])
            &&& l2 == (LoopView { pending: l.pending.remove(earliest(l.pending)), ..l })
            &&& c2 == c
        } else {
            &&& a == Action::<M, T>::Poll(l.poll_duration)
            &&& l2 == (LoopView { phase: Phase::Poll, ..l })
            &&& c2 == c
        },
        Phase::Poll => match input {
            Input::Polled(evs) => {
                &&& a == Action::<M, T>::Continue
                &&& l2 == (LoopView { phase: Phase::Events, events: evs@, next_event: 0, ..l })
                &&& c2 == c
            },
            Input::Proceed => a == Action::<M, T>::Poll(l.poll_duration) && l2 == l && c2 == c,
        },
        Phase::Events => if l.next_event >= l.events.len() {
            &&& a == Action::<M, T>::Continue
            &&& l2 == (LoopView {
                phase: Phase::Begin,
                poll_duration: next_timeout_of(c.timeouts, now),
                ..l
            })
            &&& c2 == c
        } else {
            let moved = LoopView { next_event: (l.next_event + 1) as usize, ..l };
            match kind_of(l.events[l.next_event as int]) {
                EventKind::Wake => if c.messages.len() > 0 {
                    &&& a == Action::<M, T>::Notify(c.messages[0])
                    &&& l2 == (LoopView { phase: Phase::AfterNotify, ..moved })
                    &&& c2 == (ContextView { messages: c.messages.drop_first(), ..c })
                } else {
                    a == Action::<M, T>::Continue && l2 == moved && c2 == c
                },
                EventKind::Io => {
                    &&& a == Action::<M, T>::Ready(l.next_event)
                    &&& l2 == moved
                    &&& c2 == c
                },
                EventKind::Ignored => a == Action::<M, T>::Continue && l2 == moved && c2 == c,
            }
        },
        Phase::AfterNotify => {
            &&& a == (if c.messages.len() > 0 {
                Action::<M, T>::Wake
            } else {
                Action::<M, T>::Continue
            })
            &&& l2 == (LoopView { phase: Phase::Events, ..l })
            &&& c2 == c
        },
    }
}

/// Collected timeouts are finitely many, and only held while they are being
/// handed out.
pub open spec fn loop_wf<T>(l: LoopView<T>) -> bool {
    &&& l.pending.dom().finite()
    &&& (exists|k: u128| l.pending.contains_key(k)) ==> l.phase is Timeouts
}

/// Every step keeps the loop well formed.
pub proof fn law_step_keeps_wf<M, T>(
    l: LoopView<T>,
    c: ContextView<M, T>,
    now: u128,
    input: Input,
    l2: LoopView<T>,
    c2: ContextView<M, T>,
    a: Action<M, T>,
)
    requires
        loop_wf(l),
        c.timeouts.dom().finite(),
        loop_step(l, c, now, input, l2, c2, a),
    ensures
        loop_wf(l2),
{
    if l.phase is Begin && c.running {
        assert(l2.pending.dom().subset_of(c.timeouts.dom()));
        vstd::set_lib::lemma_set_subset_finite(c.timeouts.dom(), l2.pending.dom());
    }
    if l.phase is Timeouts && !(exists|k: u128| is_earliest(l.pending, k)) {
        if exists|k: u128| l.pending.contains_key(k) {
            lemma_earliest_exists(l.pending);
        }
    }
}

/// The loop stops exactly when, at the start of an iteration, the context
/// says the worker should not run; stopping changes nothing.
pub proof fn law_exit_only_when_stopped<M, T>(
    l: LoopView<T>,
    c: ContextView<M, T>,
    now: u128,
    input: Input,
    l2: LoopView<T>,
    c2: ContextView<M, T>,
    a: Action<M, T>,
)
    requires
        loop_step(l, c, now, input, l2, c2, a),
    ensures
        a is Exit <==> (l.phase is Begin && !c.running),
        a is Exit ==> l2 == l && c2 == c,
{
}

/// Once the context is shut down, the loop exits at its next check.
pub proof fn law_shutdown_stops_loop<M, T>(
    l: LoopView<T>,
    c: ContextView<M, T>,
    now: u128,
    input: Input,
    l2: LoopView<T>,
    c2: ContextView<M, T>,
    a: Action<M, T>,
)
    requires
        l.phase is Begin,
        loop_step(l, ContextView { running: false, ..c }, now, input, l2, c2, a),
    ensures
        a is Exit,
{
}

/// The loop takes a message out of the context only to hand it to the
/// handler, and only the oldest one; it never adds, drops or reorders
/// messages, and leaves the run flags, the waker and the capacity alone.
pub proof fn law_messages_reach_handler<M, T>(
    l: LoopView<T>,
    c: ContextView<M, T>,
    now: u128,
    input: Input,
    l2: LoopView<T>,
    c2: ContextView<M, T>,
    a: Action<M, T>,
)
    requires
        loop_step(l, c, now, input, l2, c2, a),
    ensures
        (c2.messages == c.messages && !(a is Notify)) || (c.messages.len() > 0 && a
            == Action::<M, T>::Notify(c.messages[0]) && c2.messages == c.messages.drop_first()),
        c2.running == c.running,
        c2.worker_created == c.worker_created,
        c2.waker == c.waker,
        c2.wakes == c.wakes,
        c2.events_capacity == c.events_capacity,
{
}

/// All timeouts the loop holds: those it collected and those the context
/// stores.
pub open spec fn held<T>(pending: Map<u128, T>, stored: Map<u128, T>) -> Map<u128, T> {
    pending.union_prefer_right(stored)
}

/// Every collected timeout is due before every stored one.
pub open spec fn collected_first<T>(pending: Map<u128, T>, stored: Map<u128, T>) -> bool {
    forall|p: u128, t: u128|
        #[trigger] pending.contains_key(p) && #[trigger] stored.contains_key(t) ==> p < t
}

/// Timeouts reach the handler earliest first and none is lost: the collected
/// timeouts stay due before the stored ones, a step that hands out a timeout
/// hands out the earliest of all the loop holds and removes it, and any other
/// step leaves them as they were.
pub proof fn law_timeouts_in_order<M, T>(
    l: LoopView<T>,
    c: ContextView<M, T>,
    now: u128,
    input: Input,
    l2: LoopView<T>,
    c2: ContextView<M, T>,
    a: Action<M, T>,
)
    requires
        loop_wf(l),
        collected_first(l.pending, c.timeouts),
        loop_step(l, c, now, input, l2, c2, a),
    ensures
        collected_first(l2.pending, c2.timeouts),
        a is Timeout ==> {
            let k = earliest(l.pending);
            &&& is_earliest(l.pending, k)
            &&& is_earliest(held(l.pending, c.timeouts), k)
            &&& a == Action::<M, T>::Timeout(held(l.pending, c.timeouts)[k])
            &&& held(l2.pending, c2.timeouts) == held(l.pending, c.timeouts).remove(k)
        },
        !(a is Timeout) ==> held(l2.pending, c2.timeouts) == held(l.pending, c.timeouts),
{
    let h = held(l.pending, c.timeouts);
    if l.phase is Begin && c.running {
        assert(l.pending =~= Map::<u128, T>::empty());
        assert(held(l2.pending, c2.timeouts) =~= h);
    }
    if l.phase is Timeouts && exists|k: u128| is_earliest(l.pending, k) {
        let k = earliest(l.pending);
        assert(is_earliest(l.pending, k));
        assert(!c.timeouts.contains_key(k)) by {
            if c.timeouts.contains_key(k) {
                assert(l.pending.contains_key(k) && c.timeouts.contains_key(k));
            }
        }
        assert forall|j: u128| #[trigger] h.contains_key(j) implies k <= j by {
            if l.pending.contains_key(j) {
            } else {
                assert(l.pending.contains_key(k) && c.timeouts.contains_key(j));
            }
        }
        assert(held(l2.pending, c2.timeouts) =~= h.remove(k));
    }
}

/// The handler is told of an I/O event only for an event of the last poll
/// that is not the waker's and is readable, writable or an error.
pub proof fn law_ready_only_for_io<M, T>(
    l: LoopView<T>,
    c: ContextView<M, T>,
    now: u128,
    input: Input,
    l2: LoopView<T>,
    c2: ContextView<M, T>,
    a: Action<M, T>,
)
    requires
        loop_step(l, c, now, input, l2, c2, a),
    ensures
        a matches Action::Ready(i) ==> {
            &&& 0 <= i < l.events.len()
            &&& l.events[i as int].token != WAKER_TOKEN
            &&& (l.events[i as int].readable || l.events[i as int].writable || l.events[
                i as int].error)
        },
{
}

/// `ls`, `before`, `after`, `nows`, `inputs` and `acts` record a run of the
/// loop: step `i` starts from the loop state `ls[i]` and the context state
/// `before[i]` at time `nows[i]` with input `inputs[i]`, and ends in `ls[i + 1]`
/// and `after[i]` with action `acts[i]`. Between two steps other threads may
/// change the context.
pub open spec fn loop_run<M, T>(
    ls: Seq<LoopView<T>>,
    before: Seq<ContextView<M, T>>,
    after: Seq<ContextView<M, T>>,
    nows: Seq<u128>,
    inputs: Seq<Input>,
    acts: Seq<Action<M, T>>,
) -> bool {
    &&& ls.len() == before.len() + 1
    &&& after.len() == before.len()
    &&& nows.len() == before.len()
    &&& inputs.len() == before.len()
    &&& acts.len() == before.len()
    &&& forall|i: int|
        0 <= i < before.len() ==> #[trigger] loop_step(
            ls[i],
            before[i],
            nows[i],
            inputs[i],
            ls[i + 1],
            after[i],
            acts[i],
        )
}

/// The messages handed to the handler by the actions `acts`, in order.
pub open spec fn notified<M, T>(acts: Seq<Action<M, T>>) -> Seq<M>
    decreases acts.len(),
{
    if acts.len() == 0 {
        Seq::empty()
    } else {
        notified(acts.drop_last()) + match acts.last() {
            Action::Notify(m) => seq![m],
            _ => Seq::empty(),
        }
    }
}

/// The sequences of `xs` one after the other.
pub open spec fn flatten<M>(xs: Seq<Seq<M>>) -> Seq<M>
    decreases xs.len(),
{
    if xs.len() == 0 {
        Seq::empty()
    } else {
        flatten(xs.drop_last()) + xs.last()
    }
}

/// The timeouts, with their instants, handed to the handler by the actions
/// `acts` of a run whose loop states are `ls`, in order: the step that hands
/// one out hands out the earliest collected timeout.
pub open spec fn handed<M, T>(ls: Seq<LoopView<T>>, acts: Seq<Action<M, T>>) -> Seq<(u128, T)>
    decreases acts.len(),
{
    if acts.len() == 0 {
        Seq::empty()
    } else {
        let last = acts.len() - 1;
        handed(ls, acts.drop_last()) + if acts[last] is Timeout {
            seq![(earliest(ls[last].pending), ls[last].pending[earliest(ls[last].pending)])]
        } else {
            Seq::empty()
        }
    }
}

proof fn lemma_messages_prefix<M, T>(
    ls: Seq<LoopView<T>>,
    before: Seq<ContextView<M, T>>,
    after: Seq<ContextView<M, T>>,
    nows: Seq<u128>,
    inputs: Seq<Input>,
    acts: Seq<Action<M, T>>,
    sent: Seq<Seq<M>>,
    k: int,
)
    requires
        loop_run(ls, before, after, nows, inputs, acts),
        sent.len() + 1 == before.len(),
        forall|i: int|
            0 <= i < sent.len() ==> #[trigger] before[i + 1].messages == after[i].messages
                + sent[i],
        1 <= k <= before.len(),
    ensures
        notified(acts.take(k)) + after[k - 1].messages == before[0].messages + flatten(
            sent.take(k - 1),
        ),
    decreases k,
{
    let i = k - 1;
    assert(loop_step(ls[i], before[i], nows[i], inputs[i], ls[i + 1], after[i], acts[i]));
    law_messages_reach_handler(ls[i], before[i], nows[i], inputs[i], ls[i + 1], after[i], acts[i]);
    assert(acts.take(k).drop_last() =~= acts.take(i));
    assert(acts.take(k).last() == acts[i]);
    let x: Seq<M> = match acts[i] {
        Action::Notify(m) => seq![m],
        _ => Seq::empty(),
    };
    assert(notified(acts.take(k)) == notified(acts.take(i)) + x);
    assert(x + after[i].messages =~= before[i].messages);
    if k == 1 {
        assert(acts.take(0) =~= Seq::<Action<M, T>>::empty());
        assert(sent.take(0) =~= Seq::<Seq<M>>::empty());
        assert(notified(acts.take(k)) + after[k - 1].messages =~= before[0].messages + flatten(
            sent.take(k - 1),
        ));
    } else {
        lemma_messages_prefix(ls, before, after, nows, inputs, acts, sent, k - 1);
        let j = i - 1;
        assert(before[j + 1].messages == after[j].messages + sent[j]);
        assert(sent.take(i).drop_last() =~= sent.take(j));
        assert(sent.take(i).last() == sent[j]);
        let ni = notified(acts.take(i));
        let fj = flatten(sent.take(j));
        assert(flatten(sent.take(i)) == fj + sent[j]);
        assert(ni + after[j].messages == before[0].messages + fj);
        calc! {
            (==)
            notified(acts.take(k)) + after[i].messages; {}
            (ni + x) + after[i].messages; {
                assert((ni + x) + after[i].messages =~= ni + (x + after[i].messages));
            }
            ni + before[i].messages; {}
            ni + (after[j].messages + sent[j]); {
                assert(ni + (after[j].messages + sent[j]) =~= (ni + after[j].messages) + sent[j]);
            }
            (before[0].messages + fj) + sent[j]; {
                assert((before[0].messages + fj) + sent[j] =~= before[0].messages + (fj + sent[j]));
            }
            before[0].messages + flatten(sent.take(i));
        }
    }
}

/// Over a whole run, while other threads only add messages to the context,
/// the messages handed to the handler followed by those still queued are the
/// messages queued at the start followed by those added: each message reaches
/// the handler at most once, in the order it was queued, and none is lost.
pub proof fn law_run_delivers_messages<M, T>(
    ls: Seq<LoopView<T>>,
    before: Seq<ContextView<M, T>>,
    after: Seq<ContextView<M, T>>,
    nows: Seq<u128>,
    inputs: Seq<Input>,
    acts: Seq<Action<M, T>>,
    sent: Seq<Seq<M>>,
)
    requires
        loop_run(ls, before, after, nows, inputs, acts),
        before.len() > 0,
        sent.len() + 1 == before.len(),
        forall|i: int|
            0 <= i < sent.len() ==> #[trigger] before[i + 1].messages == after[i].messages
                + sent[i],
    ensures
        notified(acts) + after.last().messages == before[0].messages + flatten(sent),
{
    lemma_messages_prefix(ls, before, after, nows, inputs, acts, sent, before.len() as int);
    assert(acts.take(before.len() as int) =~= acts);
    assert(sent.take(before.len() - 1) =~= sent);
}

/// A step keeps the collected timeouts due before the current time, and a
/// timeout it hands out is the earliest collected one.
pub proof fn law_step_hands_out_due<M, T>(
    l: LoopView<T>,
    c: ContextView<M, T>,
    now: u128,
    input: Input,
    l2: LoopView<T>,
    c2: ContextView<M, T>,
    a: Action<M, T>,
)
    requires
        loop_step(l, c, now, input, l2, c2, a),
        forall|k: u128| #[trigger] l.pending.contains_key(k) ==> k < now,
    ensures
        forall|k: u128| #[trigger] l2.pending.contains_key(k) ==> k < now,
        a is Timeout ==> {
            &&& is_earliest(l.pending, earliest(l.pending))
            &&& earliest(l.pending) < now
            &&& a == Action::<M, T>::Timeout(l.pending[earliest(l.pending)])
        },
{
    if a is Timeout {
        let k = earliest(l.pending);
        assert(is_earliest(l.pending, k));
        assert(l.pending.contains_key(k));
    }
}


/// All timeouts known after the maps `added[0..k)` were added to `start` in
/// turn, a later timeout replacing an earlier one at the same instant.
pub open spec fn known_after<T>(start: Map<u128, T>, added: Seq<Map<u128, T>>, k: int) -> Map<
    u128,
    T,
>
    decreases k,
{
    if k <= 0 {
        start
    } else {
        known_after(start, added, k - 1).union_prefer_right(added[k - 1])
    }
}

/// The timeouts `h` handed out so far and those the loop still holds
/// (collected `p` and stored `s`) account for the timeouts `known`: each
/// handed-out one was known, with its value; those held are exactly the known
/// ones not handed out, with their values; and the handed-out ones came out in
/// increasing order of instant, each before any still held.
pub open spec fn accounted<T>(
    p: Map<u128, T>,
    s: Map<u128, T>,
    known: Map<u128, T>,
    h: Seq<(u128, T)>,
) -> bool {
    let now_held = held(p, s);
    &&& forall|i: int|
        0 <= i < h.len() ==> known.contains_key(#[trigger] h[i].0) && known[h[i].0] == h[i].1
    &&& forall|i: int, key: u128|
        0 <= i < h.len() && #[trigger] now_held.contains_key(key) ==> #[trigger] h[i].0 < key
    &&& forall|key: u128|
        #[trigger] now_held.contains_key(key) <==> (known.contains_key(key) && forall|i: int|
            0 <= i < h.len() ==> #[trigger] h[i].0 != key)
    &&& forall|key: u128| #[trigger] now_held.contains_key(key) ==> now_held[key] == known[key]
    &&& forall|i: int, j: int| 0 <= i < j < h.len() ==> #[trigger] h[i].0 < #[trigger] h[j].0
}

/// The timeouts handed out after the step from loop state `l` with action `a`,
/// given those handed out before it.
pub open spec fn handed_after<M, T>(l: LoopView<T>, a: Action<M, T>, h: Seq<(u128, T)>) -> Seq<
    (u128, T),
> {
    if a is Timeout {
        h.push((earliest(l.pending), l.pending[earliest(l.pending)]))
    } else {
        h
    }
}

proof fn lemma_timeouts_one_step<M, T>(
    l: LoopView<T>,
    c: ContextView<M, T>,
    now: u128,
    input: Input,
    l2: LoopView<T>,
    c2: ContextView<M, T>,
    a: Action<M, T>,
    known: Map<u128, T>,
    h: Seq<(u128, T)>,
)
    requires
        loop_step(l, c, now, input, l2, c2, a),
        loop_wf(l),
        c.timeouts.dom().finite(),
        collected_first(l.pending, c.timeouts),
        forall|k: u128| #[trigger] l.pending.contains_key(k) ==> k < now,
        accounted(l.pending, c.timeouts, known, h),
        forall|i: int| 0 <= i < h.len() ==> #[trigger] h[i].0 < now,
    ensures
        loop_wf(l2),
        c2.timeouts.dom().finite(),
        collected_first(l2.pending, c2.timeouts),
        forall|k: u128| #[trigger] l2.pending.contains_key(k) ==> k < now,
        accounted(l2.pending, c2.timeouts, known, handed_after(l, a, h)),
        forall|i: int|
            0 <= i < handed_after(l, a, h).len() ==> #[trigger] handed_after(l, a, h)[i].0 < now,
        a is Timeout ==> {
            &&& is_earliest(l.pending, earliest(l.pending))
            &&& earliest(l.pending) < now
            &&& a == Action::<M, T>::Timeout(l.pending[earliest(l.pending)])
        },
{
    law_step_keeps_wf(l, c, now, input, l2, c2, a);
    law_timeouts_in_order(l, c, now, input, l2, c2, a);
    law_step_hands_out_due(l, c, now, input, l2, c2, a);
    if l.phase is Begin && c.running {
        assert(c2.timeouts.dom().subset_of(c.timeouts.dom()));
        vstd::set_lib::lemma_set_subset_finite(c.timeouts.dom(), c2.timeouts.dom());
    }
    let hi = held(l.pending, c.timeouts);
    let hk = held(l2.pending, c2.timeouts);
    let h2 = handed_after(l, a, h);
    if a is Timeout {
        let e = earliest(l.pending);
        let entry = (e, l.pending[e]);
        assert(l.pending.contains_key(e));
        assert(!c.timeouts.contains_key(e)) by {
            if c.timeouts.contains_key(e) {
                assert(l.pending.contains_key(e) && c.timeouts.contains_key(e));
            }
        }
        assert(hi.contains_key(e));
        assert(hi[e] == l.pending[e]);
        assert(h2 == h.push(entry));
        assert forall|j: int| 0 <= j < h2.len() implies known.contains_key(#[trigger] h2[j].0)
            && known[h2[j].0] == h2[j].1 by {
            if j < h.len() {
                assert(h2[j] == h[j]);
            }
        }
        assert forall|j: int, key: u128|
            0 <= j < h2.len() && #[trigger] hk.contains_key(key) implies #[trigger] h2[j].0
            < key by {
            assert(hi.contains_key(key));
            if j < h.len() {
                assert(h2[j] == h[j]);
                assert(h[j].0 < key);
            }
        }
        assert forall|key: u128| #[trigger] hk.contains_key(key) <==> (known.contains_key(key)
            && forall|j: int| 0 <= j < h2.len() ==> #[trigger] h2[j].0 != key) by {
            if hk.contains_key(key) {
                assert(hi.contains_key(key));
                assert forall|j: int| 0 <= j < h2.len() implies #[trigger] h2[j].0 != key by {
                    if j < h.len() {
                        assert(h2[j] == h[j]);
                        assert(h[j].0 < key);
                    }
                }
            }
            if known.contains_key(key) && forall|j: int|
                0 <= j < h2.len() ==> #[trigger] h2[j].0 != key {
                assert forall|j: int| 0 <= j < h.len() implies #[trigger] h[j].0 != key by {
                    assert(h2[j] == h[j]);
                }
                assert(h2[h.len() as int].0 != key);
                assert(hi.contains_key(key));
                assert(hk.contains_key(key));
            }
        }
        assert forall|i: int, j: int| 0 <= i < j < h2.len() implies #[trigger] h2[i].0
            < #[trigger] h2[j].0 by {
            assert(h2[i] == h[i]);
            if j < h.len() {
                assert(h2[j] == h[j]);
            } else {
                assert(h[i].0 < e);
            }
        }
        assert forall|i: int| 0 <= i < h2.len() implies #[trigger] h2[i].0 < now by {
            if i < h.len() {
                assert(h2[i] == h[i]);
            }
        }
    }
}

proof fn lemma_timeouts_added<T>(
    p: Map<u128, T>,
    s: Map<u128, T>,
    known: Map<u128, T>,
    h: Seq<(u128, T)>,
    added: Map<u128, T>,
    bound: u128,
)
    requires
        accounted(p, s, known, h),
        collected_first(p, s),
        s.dom().finite(),
        added.dom().finite(),
        forall|k: u128| #[trigger] p.contains_key(k) ==> k < bound,
        forall|i: int| 0 <= i < h.len() ==> #[trigger] h[i].0 < bound,
        forall|k: u128| #[trigger] added.contains_key(k) ==> bound <= k,
    ensures
        accounted(p, s.union_prefer_right(added), known.union_prefer_right(added), h),
        collected_first(p, s.union_prefer_right(added)),
        s.union_prefer_right(added).dom().finite(),
{
    let s2 = s.union_prefer_right(added);
    let k2 = known.union_prefer_right(added);
    let before = held(p, s);
    let now_held = held(p, s2);
    assert(now_held =~= before.union_prefer_right(added));
    assert(s2.dom() =~= s.dom().union(added.dom()));
    assert forall|i: int| 0 <= i < h.len() implies k2.contains_key(#[trigger] h[i].0) && k2[h[i].0]
        == h[i].1 by {
        assert(known.contains_key(h[i].0));
        assert(!added.contains_key(h[i].0));
    }
    assert forall|i: int, key: u128|
        0 <= i < h.len() && #[trigger] now_held.contains_key(key) implies #[trigger] h[i].0
        < key by {
        if !added.contains_key(key) {
            assert(before.contains_key(key));
        }
    }
    assert forall|key: u128| #[trigger] now_held.contains_key(key) <==> (k2.contains_key(key)
        && forall|i: int| 0 <= i < h.len() ==> #[trigger] h[i].0 != key) by {
        if added.contains_key(key) {
            assert forall|i: int| 0 <= i < h.len() implies #[trigger] h[i].0 != key by {}
        } else if before.contains_key(key) {
        } else if known.contains_key(key) && forall|i: int|
            0 <= i < h.len() ==> #[trigger] h[i].0 != key {
            assert(before.contains_key(key));
        }
    }
    assert forall|key: u128| #[trigger] now_held.contains_key(key) implies now_held[key]
        == k2[key] by {
        if !added.contains_key(key) {
            assert(before.contains_key(key));
        }
    }
    assert forall|a: u128, b: u128|
        #[trigger] p.contains_key(a) && #[trigger] s2.contains_key(b) implies a < b by {
        if !added.contains_key(b) {
            assert(p.contains_key(a) && s.contains_key(b));
        }
    }
}

/// What holds of a run before its step `k`, for the timeouts.
spec fn timeouts_before_step<M, T>(
    ls: Seq<LoopView<T>>,
    before: Seq<ContextView<M, T>>,
    nows: Seq<u128>,
    acts: Seq<Action<M, T>>,
    added: Seq<Map<u128, T>>,
    k: int,
) -> bool {
    let h = handed(ls, acts.take(k));
    &&& loop_wf(ls[k])
    &&& before[k].timeouts.dom().finite()
    &&& collected_first(ls[k].pending, before[k].timeouts)
    &&& forall|key: u128| #[trigger] ls[k].pending.contains_key(key) ==> key < nows[k]
    &&& accounted(
        ls[k].pending,
        before[k].timeouts,
        known_after(held(ls[0].pending, before[0].timeouts), added, k),
        h,
    )
    &&& forall|i: int| 0 <= i < h.len() ==> #[trigger] h[i].0 < nows[k]
    &&& forall|j: int|
        0 <= j < k && #[trigger] acts[j] is Timeout ==> {
            &&& is_earliest(ls[j].pending, earliest(ls[j].pending))
            &&& earliest(ls[j].pending) < nows[j]
            &&& acts[j] == Action::<M, T>::Timeout(ls[j].pending[earliest(ls[j].pending)])
        }
}

/// `added[i]` holds the timeouts set between steps `i` and `i + 1` of a run,
/// each at an instant no earlier than the time of step `i`, and the clock does
/// not go back.
pub open spec fn timeouts_set_during<M, T>(
    before: Seq<ContextView<M, T>>,
    after: Seq<ContextView<M, T>>,
    nows: Seq<u128>,
    added: Seq<Map<u128, T>>,
) -> bool {
    &&& added.len() + 1 == before.len()
    &&& forall|i: int|
        0 <= i < added.len() ==> #[trigger] before[i + 1].timeouts == after[i].timeouts.union_prefer_right(
            added[i],
        )
    &&& forall|i: int| 0 <= i < added.len() ==> (#[trigger] added[i]).dom().finite()
    &&& forall|i: int, key: u128|
        0 <= i < added.len() && #[trigger] added[i].contains_key(key) ==> nows[i] <= key
    &&& forall|i: int| 0 <= i < added.len() ==> #[trigger] nows[i] <= nows[i + 1]
}

proof fn lemma_timeouts_prefix<M, T>(
    ls: Seq<LoopView<T>>,
    before: Seq<ContextView<M, T>>,
    after: Seq<ContextView<M, T>>,
    nows: Seq<u128>,
    inputs: Seq<Input>,
    acts: Seq<Action<M, T>>,
    added: Seq<Map<u128, T>>,
    k: int,
)
    requires
        loop_run(ls, before, after, nows, inputs, acts),
        timeouts_set_during(before, after, nows, added),
        loop_wf(ls[0]),
        before[0].timeouts.dom().finite(),
        collected_first(ls[0].pending, before[0].timeouts),
        forall|key: u128| #[trigger] ls[0].pending.contains_key(key) ==> key < nows[0],
        0 <= k < before.len(),
    ensures
        timeouts_before_step(ls, before, nows, acts, added, k),
    decreases k,
{
    let start = held(ls[0].pending, before[0].timeouts);
    if k == 0 {
        assert(acts.take(0) =~= Seq::<Action<M, T>>::empty());
        assert(handed(ls, acts.take(0)) =~= Seq::<(u128, T)>::empty());
    } else {
        let i = k - 1;
        lemma_timeouts_prefix(ls, before, after, nows, inputs, acts, added, i);
        let h = handed(ls, acts.take(i));
        let known = known_after(start, added, i);
        assert(loop_step(ls[i], before[i], nows[i], inputs[i], ls[i + 1], after[i], acts[i]));
        lemma_timeouts_one_step(
            ls[i],
            before[i],
            nows[i],
            inputs[i],
            ls[i + 1],
            after[i],
            acts[i],
            known,
            h,
        );
        assert(acts.take(k).drop_last() =~= acts.take(i));
        assert(acts.take(k)[i] == acts[i]);
        assert(handed(ls, acts.take(k)) == handed_after(ls[i], acts[i], h));
        let h2 = handed(ls, acts.take(k));
        assert(before[i + 1].timeouts == after[i].timeouts.union_prefer_right(added[i]));
        assert(added[i].dom().finite());
        assert(nows[i] <= nows[i + 1]);
        assert forall|key: u128| #[trigger] added[i].contains_key(key) implies nows[i] <= key by {}
        lemma_timeouts_added(ls[k].pending, after[i].timeouts, known, h2, added[i], nows[i]);
        assert(known_after(start, added, k) == known.union_prefer_right(added[i]));
        assert forall|key: u128| #[trigger] ls[k].pending.contains_key(key) implies key
            < nows[k] by {
            assert(ls[i + 1].pending.contains_key(key));
        }
        assert forall|j: int| 0 <= j < h2.len() implies #[trigger] h2[j].0 < nows[k] by {
            assert(h2[j].0 < nows[i]);
        }
    }
}

/// Over a whole run, while other threads only set timeouts at instants no
/// earlier than the time of the step before and the clock does not go back,
/// every timeout reaches the handler at most once, earliest first, with the
/// value it was set with, none is lost, and none before its instant: counting
/// the timeouts held at the start and those set during the run (a later one
/// replacing an earlier one at the same instant), those handed out and those
/// still held account for them all, and each handed out was due strictly
/// before the time of the step that handed it out.
pub proof fn law_run_hands_out_timeouts<M, T>(
    ls: Seq<LoopView<T>>,
    before: Seq<ContextView<M, T>>,
    after: Seq<ContextView<M, T>>,
    nows: Seq<u128>,
    inputs: Seq<Input>,
    acts: Seq<Action<M, T>>,
    added: Seq<Map<u128, T>>,
)
    requires
        loop_run(ls, before, after, nows, inputs, acts),
        timeouts_set_during(before, after, nows, added),
        loop_wf(ls[0]),
        before[0].timeouts.dom().finite(),
        collected_first(ls[0].pending, before[0].timeouts),
        forall|key: u128| #[trigger] ls[0].pending.contains_key(key) ==> key < nows[0],
    ensures
        accounted(
            ls.last().pending,
            after.last().timeouts,
            known_after(held(ls[0].pending, before[0].timeouts), added, added.len() as int),
            handed(ls, acts),
        ),
        forall|j: int|
            0 <= j < acts.len() && #[trigger] acts[j] is Timeout ==> {
                &&& earliest(ls[j].pending) < nows[j]
                &&& acts[j] == Action::<M, T>::Timeout(ls[j].pending[earliest(ls[j].pending)])
            },
{
    let n = before.len() as int;
    let i = n - 1;
    let start = held(ls[0].pending, before[0].timeouts);
    lemma_timeouts_prefix(ls, before, after, nows, inputs, acts, added, i);
    let h = handed(ls, acts.take(i));
    assert(loop_step(ls[i], before[i], nows[i], inputs[i], ls[i + 1], after[i], acts[i]));
    lemma_timeouts_one_step(
        ls[i],
        before[i],
        nows[i],
        inputs[i],
        ls[i + 1],
        after[i],
        acts[i],
        known_after(start, added, i),
        h,
    );
    assert(acts.take(n) =~= acts);
    assert(acts.take(n).drop_last() =~= acts.take(i));
    assert(handed(ls, acts) == handed_after(ls[i], acts[i], h));
    assert(ls[i + 1] == ls.last());
    assert(after[i] == after.last());
}

/// An event other than the waker's that is readable, writable or an error is
/// reported to the handler; the waker's event always counts as a wake; and an
/// event is passed over only when it is none of these.
pub proof fn law_classify_reports_io(e: EventInfo)
    ensures
        e.token == WAKER_TOKEN ==> kind_of(e) is Wake,
        e.token != WAKER_TOKEN && (e.readable || e.writable || e.error) ==> kind_of(e) is Io,
        kind_of(e) is Ignored <==> (e.token != WAKER_TOKEN && !e.readable && !e.writable
            && !e.error),
{
}

/// Once the events of a poll are all looked at, whatever they were, the next
/// poll waits exactly until the earliest stored timeout is due: `Some(d)`
/// where `now + d` is the earliest instant stored, and no limit only when
/// nothing is stored or a stored timeout is already overdue.
pub proof fn law_poll_waits_for_next_timeout<M, T>(
    l: LoopView<T>,
    c: ContextView<M, T>,
    now: u128,
    input: Input,
    l2: LoopView<T>,
    c2: ContextView<M, T>,
    a: Action<M, T>,
)
    requires
        loop_step(l, c, now, input, l2, c2, a),
        l.phase is Events,
        l.next_event >= l.events.len(),
        c.timeouts.dom().finite(),
    ensures
        l2.phase is Begin,
        l2.poll_duration == next_timeout_of(c.timeouts, now),
        l2.poll_duration matches Some(d) ==> c.timeouts.contains_key((now + d) as u128) && forall|
            k: u128,
        | #[trigger] c.timeouts.contains_key(k) ==> now + d <= k,
        l2.poll_duration is None ==> !(exists|k: u128| c.timeouts.contains_key(k)) || exists|k: u128|
            c.timeouts.contains_key(k) && k < now,
{
    if exists|k: u128| c.timeouts.contains_key(k) {
        lemma_earliest_exists(c.timeouts);
        let e = earliest(c.timeouts);
        assert(is_earliest(c.timeouts, e));
        assert(c.timeouts.contains_key(e));
    }
}

/// A waker event hands the oldest queued message to the handler, wherever the
/// event stands among the events of the poll, and takes it off the queue.
pub proof fn law_wake_event_delivers_oldest_message<M, T>(
    l: LoopView<T>,
    c: ContextView<M, T>,
    now: u128,
    input: Input,
    l2: LoopView<T>,
    c2: ContextView<M, T>,
    a: Action<M, T>,
)
    requires
        loop_step(l, c, now, input, l2, c2, a),
        l.phase is Events,
        l.next_event < l.events.len(),
        l.events[l.next_event as int].token == WAKER_TOKEN,
        l.events.len() <= usize::MAX,
    ensures
        c.messages.len() > 0 ==> a == Action::<M, T>::Notify(c.messages[0]) && c2.messages
            == c.messages.drop_first(),
        c.messages.len() == 0 ==> a is Continue && c2 == c,
        l2.next_event == l.next_event + 1,
{
}

/// Every event of a poll is looked at, in order: going through the events a
/// step moves on by exactly one event, a step right after a notify stays at
/// the next event, and an event other than the waker's that is readable,
/// writable or an error is reported to the handler by its position.
pub proof fn law_every_event_looked_at<M, T>(
    l: LoopView<T>,
    c: ContextView<M, T>,
    now: u128,
    input: Input,
    l2: LoopView<T>,
    c2: ContextView<M, T>,
    a: Action<M, T>,
)
    requires
        loop_step(l, c, now, input, l2, c2, a),
        l.events.len() <= usize::MAX,
    ensures
        l.phase is Events && l.next_event < l.events.len() ==> l2.next_event == l.next_event + 1
            && l2.events == l.events,
        l.phase is AfterNotify ==> l2.phase is Events && l2.next_event == l.next_event
            && l2.events == l.events,
        l.phase is Poll ==> (input matches Input::Polled(evs) ==> l2.phase is Events
            && l2.next_event == 0 && l2.events == evs@),
        ({
            let i = l.next_event;
            l.phase is Events && i < l.events.len() && l.events[i as int].token != WAKER_TOKEN && (
            l.events[i as int].readable || l.events[i as int].writable || l.events[i as int].error)
                ==> a == Action::<M, T>::Ready(i) && c2 == c
        }),
{
}

/// At the start of an iteration, a running loop collects exactly the stored
/// timeouts due strictly before `now`, with their values, and leaves the
/// others stored; messages and flags are left alone.
pub proof fn law_begin_collects_due<M, T>(
    l: LoopView<T>,
    c: ContextView<M, T>,
    now: u128,
    input: Input,
    l2: LoopView<T>,
    c2: ContextView<M, T>,
    a: Action<M, T>,
)
    requires
        loop_step(l, c, now, input, l2, c2, a),
        l.phase is Begin,
        c.running,
    ensures
        a is Continue,
        l2.phase is Timeouts,
        forall|k: u128|
            #[trigger] l2.pending.contains_key(k) <==> c.timeouts.contains_key(k) && k < now,
        forall|k: u128|
            #[trigger] c2.timeouts.contains_key(k) <==> c.timeouts.contains_key(k) && now <= k,
        forall|k: u128| #[trigger] l2.pending.contains_key(k) ==> l2.pending[k] == c.timeouts[k],
        forall|k: u128| #[trigger] c2.timeouts.contains_key(k) ==> c2.timeouts[k] == c.timeouts[k],
        c2.messages == c.messages,
{
}

/// Handing out the collected timeouts ends in a poll that waits as long as
/// the loop decided at the end of the last poll's events.
pub proof fn law_poll_after_timeouts<M, T>(
    l: LoopView<T>,
    c: ContextView<M, T>,
    now: u128,
    input: Input,
    l2: LoopView<T>,
    c2: ContextView<M, T>,
    a: Action<M, T>,
)
    requires
        loop_step(l, c, now, input, l2, c2, a),
        l.phase is Timeouts,
        !(exists|k: u128| l.pending.contains_key(k)),
    ensures
        a == Action::<M, T>::Poll(l.poll_duration),
        l2.phase is Poll,
        c2 == c,
{
    assert(!(exists|k: u128| is_earliest(l.pending, k)));
}

/// Right after a message was handed to the handler, the worker wakes itself
/// again exactly when messages remain queued.
pub proof fn law_wake_again_while_messages_remain<M, T>(
    l: LoopView<T>,
    c: ContextView<M, T>,
    now: u128,
    input: Input,
    l2: LoopView<T>,
    c2: ContextView<M, T>,
    a: Action<M, T>,
)
    requires
        loop_step(l, c, now, input, l2, c2, a),
        l.phase is AfterNotify,
    ensures
        a is Wake <==> c.messages.len() > 0,
        !(a is Wake) ==> a is Continue,
        c2 == c,
{
}

/// The decisions of a worker's event loop. The worker asks `step` what to do,
/// does it (calls the handler, polls, wakes) and asks again.
pub struct WorkerLoop<T> {
    phase: Phase,
    /// Collected timeouts not yet handed out.
    pending: BTreeMap<u128, T>,
    events: Vec<EventInfo>,
    next_event: usize,
    poll_duration: Option<u128>,
}

impl<T> View for WorkerLoop<T> {
    type V = LoopView<T>;

    closed spec fn view(&self) -> LoopView<T> {
        LoopView {
            phase: self.phase,
            pending: self.pending@,
            events: self.events@,
            next_event: self.next_event,
            poll_duration: self.poll_duration,
        }
    }
}

impl<T> WorkerLoop<T> {
    /// A loop about to start its first iteration, with no poll time limit.
    pub fn new() -> (r: Self)
        ensures
            r@.phase == Phase::Begin,
            r@.pending == Map::<u128, T>::empty(),
            r@.events == Seq::<EventInfo>::empty(),
            r@.next_event == 0,
            r@.poll_duration is None,
    {
        WorkerLoop {
            phase: Phase::Begin,
            pending: BTreeMap::new(),
            events: Vec::new(),
            next_event: 0,
            poll_duration: None,
        }
    }

    /// Takes the next decision, given the context the loop runs for, the
    /// current time and what happened since the last decision.
    pub fn step<M>(&mut self, ctx: &mut ContextState<M, T>, now: u128, input: Input) -> (r:
        Action<M, T>)
        ensures
            loop_step(old(self)@, old(ctx)@, now, input, final(self)@, final(ctx)@, r),
            flags_follow(old(ctx)@, ContextCall::WorkerStep, final(ctx)@),
    {
        match self.phase {
            Phase::Begin => {
                if !ctx.should_run() {
                    return Action::Exit;
                }
                let ghost before = ctx@;
                match ctx.pop_timeouts(now) {
                    None => {
                        self.pending = BTreeMap::new();
                        assert forall|k: u128| before.timeouts.contains_key(k) implies now <= k by {
                            if k < now {
                                assert(due_before(before.timeouts, now).contains_key(k));
                            }
                        }
                        assert(ctx@.timeouts =~= due_from(before.timeouts, now));
                    },
                    Some(due) => {
                        self.pending = due;
                    },
                }
                self.phase = Phase::Timeouts;
                Action::Continue
            },
            Phase::Timeouts => {
                let ghost before = self@.pending;
                match take_first(&mut self.pending) {
                    Some(entry) => {
                        proof {
                            lemma_earliest_unique(before, entry.0);
                        }
                        Action::Timeout(entry.1)
                    },
                    None => {
                        assert(!exists|k: u128| is_earliest(before, k)) by {
                            if exists|k: u128| is_earliest(before, k) {
                                let k = choose|k: u128| is_earliest(before, k);
                                assert(before.contains_key(k));
                            }
                        }
                        self.phase = Phase::Poll;
                        Action::Poll(self.poll_duration)
                    },
                }
            },
            Phase::Poll => match input {
                Input::Polled(events) => {
                    self.events = events;
                    self.next_event = 0;
                    self.phase = Phase::Events;
                    Action::Continue
                },
                Input::Proceed => Action::Poll(self.poll_duration),
            },
            Phase::Events => {
                if self.next_event >= self.events.len() {
                    self.poll_duration = ctx.next_timeout(now);
                    self.phase = Phase::Begin;
                    return Action::Continue;
                }
                let i = self.next_event;
                let event = self.events[i];
                self.next_event = i + 1;
                match classify(&event) {
                    EventKind::Wake => match ctx.pop_message() {
                        Some(message) => {
                            self.phase = Phase::AfterNotify;
                            Action::Notify(message)
                        },
                        None => Action::Continue,
                    },
                    EventKind::Io => Action::Ready(i),
                    EventKind::Ignored => Action::Continue,
                }
            },
            Phase::AfterNotify => {
                self.phase = Phase::Events;
                if ctx.messages().is_empty() {
                    Action::Continue
                } else {
                    Action::Wake
                }
            },
        }
    }
}

} // verus!
