use std::collections::VecDeque;

use vstd::prelude::*;

verus! {

/// First-in first-out queue of messages waiting to be delivered to a handler.
///
/// The queue keeps its length in a separate counter, so that the length can be
/// read without walking the queue; the counter always equals the number of
/// queued messages.
pub struct Messages<M> {
    queue: VecDeque<M>,
    length: usize,
}

impl<M> View for Messages<M> {
    type V = Seq<M>;

    /// The queued messages, oldest first.
    closed spec fn view(&self) -> Seq<M> {
        self.queue@
    }
}

impl<M> Messages<M> {
    #[verifier::type_invariant]
    spec fn counter_matches(self) -> bool {
        self.length == self.queue@.len()
    }

    /// An empty queue.
    pub fn new() -> (r: Self)
        ensures
            r@ == Seq::<M>::empty(),
    {
        Messages { queue: VecDeque::new(), length: 0 }
    }

    /// Number of queued messages.
    pub fn len(&self) -> (r: usize)
        ensures
            r == self@.len(),
    {
        proof {
            use_type_invariant(self);
        }
        self.length
    }

    /// Whether no message is queued.
    pub fn is_empty(&self) -> (r: bool)
        ensures
            r == (self@.len() == 0),
    {
        self.len() == 0
    }

    /// Adds a message at the back of the queue.
    pub fn push(&mut self, message: M)
        ensures
            final(self)@ == old(self)@.push(message),
            apply_op(old(self)@, QueueOp::Push(message)) == (final(self)@, Seq::<M>::empty()),
    {
        proof {
            use_type_invariant(&*self);
        }
        let mut taken = Messages::new();
        std::mem::swap(&mut taken, self);
        let mut queue = taken.queue;
        queue.push_back(message);
        let length = queue.len();
        *self = Messages { queue, length };
    }

    /// Takes the oldest message off the queue, or `None` when it is empty.
    pub fn pop(&mut self) -> (r: Option<M>)
        ensures
            old(self)@.len() == 0 ==> r is None && final(self)@ == old(self)@,
            old(self)@.len() > 0 ==> r == Some(old(self)@[0]) && final(self)@ == old(
                self,
            )@.drop_first(),
            apply_op(old(self)@, QueueOp::Pop) == (
                final(self)@,
                match r {
                    Some(m) => seq![m],
                    None => Seq::<M>::empty(),
                },
            ),
    {
        if self.is_empty() {
            None
        } else {
            proof {
                use_type_invariant(&*self);
            }
            let mut taken = Messages::new();
        std::mem::swap(&mut taken, self);
            let mut queue = taken.queue;
            let front = queue.pop_front();
            let length = queue.len();
            *self = Messages { queue, length };
            front
        }
    }
}

/// The queue `q` after pushing each message of `ms` in turn.
pub open spec fn after_pushes<M>(q: Seq<M>, ms: Seq<M>) -> Seq<M>
    decreases ms.len(),
{
    if ms.len() == 0 {
        q
    } else {
        after_pushes(q.push(ms[0]), ms.drop_first())
    }
}

/// The messages that `n` pops return from the queue `q`, in the order they
/// come out (a pop on an empty queue returns nothing).
pub open spec fn popped<M>(q: Seq<M>, n: nat) -> Seq<M>
    decreases n,
{
    if n == 0 || q.len() == 0 {
        Seq::empty()
    } else {
        seq![q[0]] + popped(q.drop_first(), (n - 1) as nat)
    }
}

proof fn lemma_after_pushes_appends<M>(q: Seq<M>, ms: Seq<M>)
    ensures
        after_pushes(q, ms) == q + ms,
    decreases ms.len(),
{
    if ms.len() > 0 {
        lemma_after_pushes_appends(q.push(ms[0]), ms.drop_first());
        assert(q.push(ms[0]) + ms.drop_first() =~= q + ms);
    } else {
        assert(q + ms =~= q);
    }
}

proof fn lemma_popped_all<M>(q: Seq<M>)
    ensures
        popped(q, q.len()) == q,
    decreases q.len(),
{
    if q.len() > 0 {
        lemma_popped_all(q.drop_first());
        assert(seq![q[0]] + q.drop_first() =~= q);
    }
}

/// Messages leave the queue in the order in which they entered it: after
/// pushing `ms` onto a queue holding `q`, popping as many times as there are
/// messages returns the messages of `q` and then those of `ms`.
pub proof fn law_first_in_first_out<M>(q: Seq<M>, ms: Seq<M>)
    ensures
        popped(after_pushes(q, ms), (q.len() + ms.len()) as nat) == q + ms,
{
    lemma_after_pushes_appends(q, ms);
    lemma_popped_all(q + ms);
}

/// A call made on a queue: a push of a message, or a pop.
pub enum QueueOp<M> {
    Push(M),
    Pop,
}

/// The queue after the call `op` on `q`, and the messages the call returned.
pub open spec fn apply_op<M>(q: Seq<M>, op: QueueOp<M>) -> (Seq<M>, Seq<M>) {
    match op {
        QueueOp::Push(m) => (q.push(m), Seq::empty()),
        QueueOp::Pop => if q.len() > 0 {
            (q.drop_first(), seq![q[0]])
        } else {
            (q, Seq::empty())
        },
    }
}

/// The queue after the calls `ops` on `q`, one at a time, and the messages
/// that the pops among them returned, in the order they returned them.
pub open spec fn apply_ops<M>(q: Seq<M>, ops: Seq<QueueOp<M>>) -> (Seq<M>, Seq<M>)
    decreases ops.len(),
{
    if ops.len() == 0 {
        (q, Seq::empty())
    } else {
        let (q1, out1) = apply_op(q, ops[0]);
        let (q2, out2) = apply_ops(q1, ops.drop_first());
        (q2, out1 + out2)
    }
}

/// The messages pushed by the calls `ops`, in order.
pub open spec fn pushed<M>(ops: Seq<QueueOp<M>>) -> Seq<M>
    decreases ops.len(),
{
    if ops.len() == 0 {
        Seq::empty()
    } else {
        match ops[0] {
            QueueOp::Push(m) => seq![m] + pushed(ops.drop_first()),
            QueueOp::Pop => pushed(ops.drop_first()),
        }
    }
}

/// Over any sequence of pushes and pops on a queue holding `q`, the messages
/// the pops return, followed by those still queued, are the messages of `q`
/// followed by the pushed ones: every message comes out once, in the order it
/// went in, and the length of the queue is the number of messages it held
/// plus those pushed minus those popped.
pub proof fn law_queue_calls<M>(q: Seq<M>, ops: Seq<QueueOp<M>>)
    ensures
        apply_ops(q, ops).1 + apply_ops(q, ops).0 == q + pushed(ops),
        apply_ops(q, ops).0.len() == q.len() + pushed(ops).len() - apply_ops(q, ops).1.len(),
    decreases ops.len(),
{
    if ops.len() > 0 {
        let (q1, out1) = apply_op(q, ops[0]);
        law_queue_calls(q1, ops.drop_first());
        let (q2, out2) = apply_ops(q1, ops.drop_first());
        match ops[0] {
            QueueOp::Push(m) => {
                assert(out1 + out2 + q2 =~= out2 + q2);
                assert(q.push(m) + pushed(ops.drop_first()) =~= q + (seq![m] + pushed(
                    ops.drop_first(),
                )));
            },
            QueueOp::Pop => {
                if q.len() > 0 {
                    assert(out1 + out2 + q2 =~= seq![q[0]] + (out2 + q2));
                    assert(seq![q[0]] + (q.drop_first() + pushed(ops.drop_first())) =~= q
                        + pushed(ops.drop_first()));
                } else {
                    assert(out1 + out2 + q2 =~= out2 + q2);
                }
            },
        }
        assert((apply_ops(q, ops).1 + apply_ops(q, ops).0).len() == (q + pushed(ops)).len());
    } else {
        assert(Seq::<M>::empty() + q =~= q + Seq::<M>::empty());
    }
}

} // verus!
