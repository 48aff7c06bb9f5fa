//! The bounded message buffer: FIFO, and on overflow the oldest message is
//! evicted to make room for the newest.
use vstd::prelude::*;

use crate::message::QueueMessage;
use crossbeam::queue::ArrayQueue;

verus! {

#[verifier::external_type_specification]
#[verifier::external_body]
#[verifier::reject_recursive_types(T)]
pub struct ExArrayQueue<T>(ArrayQueue<T>);

/// The messages that a queue holds, oldest first.
pub uninterp spec fn queued(q: ArrayQueue<QueueMessage>) -> Seq<QueueMessage>;

/// The capacity that a queue was made with.
pub uninterp spec fn queue_capacity(q: ArrayQueue<QueueMessage>) -> nat;

/// The largest capacity a buffer may be made with: the slot array of a
/// queue (up to 80 bytes a slot) must fit in one allocation of at most
/// `isize::MAX` bytes, which also keeps the queue's lap counter from
/// overflowing.
pub const MAX_CAPACITY: usize = usize::MAX / 160;

/// Relies on `ArrayQueue::new`: an empty queue of capacity `cap`; it panics
/// on a zero capacity and on one whose lap counter would overflow.
#[verifier::external_body]
fn new_queue(cap: usize) -> (q: ArrayQueue<QueueMessage>)
    requires
        0 < cap <= MAX_CAPACITY,
    ensures
        queued(q) == Seq::<QueueMessage>::empty(),
        queue_capacity(q) == cap,
{
    ArrayQueue::new(cap)
}

/// Relies on `ArrayQueue::force_push`: appends `m`; when the queue is full
/// the oldest element is replaced and returned, otherwise `None` is returned.
#[verifier::external_body]
fn force_push(q: &mut ArrayQueue<QueueMessage>, m: QueueMessage) -> (r: Option<QueueMessage>)
    ensures
        queue_capacity(*final(q)) == queue_capacity(*old(q)),
        queued(*old(q)).len() < queue_capacity(*old(q)) ==> r is None && queued(*final(q))
            == queued(*old(q)).push(m),
        queued(*old(q)).len() >= queue_capacity(*old(q)) ==> r == Some(queued(*old(q))[0])
            && queued(*final(q)) == queued(*old(q)).drop_first().push(m),
{
    q.force_push(m)
}

/// Relies on `ArrayQueue::pop`: removes and returns the oldest element, or
/// `None` when the queue is empty.
#[verifier::external_body]
fn pop_front(q: &mut ArrayQueue<QueueMessage>) -> (r: Option<QueueMessage>)
    ensures
        queue_capacity(*final(q)) == queue_capacity(*old(q)),
        queued(*old(q)).len() == 0 ==> r is None && queued(*final(q)) == queued(*old(q)),
        queued(*old(q)).len() > 0 ==> r == Some(queued(*old(q))[0]) && queued(*final(q))
            == queued(*old(q)).drop_first(),
{
    q.pop()
}

/// One push into a buffer of capacity `cap` holding `buf`.
pub open spec fn push_model<T>(buf: Seq<T>, cap: nat, m: T) -> Seq<T> {
    if buf.len() < cap {
        buf.push(m)
    } else {
        buf.drop_first().push(m)
    }
}

/// Pushes of `items`, in order, into a buffer of capacity `cap` holding `buf`.
pub open spec fn push_all<T>(buf: Seq<T>, cap: nat, items: Seq<T>) -> Seq<T>
    decreases items.len(),
{
    if items.len() == 0 {
        buf
    } else {
        push_model(push_all(buf, cap, items.drop_last()), cap, items.last())
    }
}

/// The last `cap` elements of `s`, or all of them when there are fewer.
pub open spec fn keep_last<T>(s: Seq<T>, cap: nat) -> Seq<T> {
    if s.len() <= cap {
        s
    } else {
        s.subrange(s.len() - cap, s.len() as int)
    }
}

/// Pushing a sequence into a buffer leaves the most recent `cap` of what it
/// held followed by what was pushed.
pub proof fn lemma_push_all(buf: Seq<(usize, Seq<char>)>, cap: nat, items: Seq<(usize, Seq<char>)>)
    requires
        cap > 0,
        buf.len() <= cap,
    ensures
        push_all(buf, cap, items) == keep_last(buf + items, cap),
    decreases items.len(),
{
    if items.len() > 0 {
        lemma_push_all(buf, cap, items.drop_last());
        assert((buf + items).drop_last() =~= buf + items.drop_last());
        let prev = keep_last(buf + items.drop_last(), cap);
        assert(push_model(prev, cap, items.last()) =~= keep_last(buf + items, cap));
    }
}

/// After more than `cap` admissions into an empty buffer exactly `cap`
/// messages remain, and they are the most recent `cap` admitted.
pub proof fn lemma_overflow_keeps_latest(cap: nat, items: Seq<(usize, Seq<char>)>)
    requires
        cap > 0,
        items.len() > cap,
    ensures
        push_all(Seq::empty(), cap, items).len() == cap,
        push_all(Seq::empty(), cap, items) == items.subrange(items.len() - cap, items.len() as int),
{
    lemma_push_all(Seq::empty(), cap, items);
    assert(Seq::<(usize, Seq<char>)>::empty() + items =~= items);
}

/// A bounded FIFO of messages that evicts the oldest on overflow.
pub struct MessageBuffer {
    queue: ArrayQueue<QueueMessage>,
}

impl View for MessageBuffer {
    type V = Seq<(usize, Seq<char>)>;

    closed spec fn view(&self) -> Seq<(usize, Seq<char>)> {
        queued(self.queue).map_values(|m: QueueMessage| m@)
    }
}

impl MessageBuffer {
    /// The capacity the buffer was made with.
    pub closed spec fn capacity(&self) -> nat {
        queue_capacity(self.queue)
    }

    /// The buffer holds no more than its capacity, which is positive.
    pub closed spec fn wf(&self) -> bool {
        0 < queue_capacity(self.queue) <= MAX_CAPACITY && queued(self.queue).len()
            <= queue_capacity(self.queue)
    }

    pub proof fn lemma_wf(&self)
        requires
            self.wf(),
        ensures
            0 < self.capacity() <= MAX_CAPACITY,
            self@.len() <= self.capacity(),
    {
    }

    /// An empty buffer of capacity `cap`.
    pub fn new(cap: usize) -> (r: MessageBuffer)
        requires
            0 < cap <= MAX_CAPACITY,
        ensures
            r.wf(),
            r@ == Seq::<(usize, Seq<char>)>::empty(),
            r.capacity() == cap,
    {
        let r = MessageBuffer { queue: new_queue(cap) };
        assert(r@ =~= Seq::<(usize, Seq<char>)>::empty());
        r
    }

    /// Appends `m`; when the buffer is full the oldest message is evicted
    /// and returned.
    pub fn push(&mut self, m: QueueMessage) -> (r: Option<QueueMessage>)
        requires
            old(self).wf(),
        ensures
            final(self).wf(),
            final(self).capacity() == old(self).capacity(),
            final(self)@ == push_model(old(self)@, old(self).capacity(), m@),
            old(self)@.len() < old(self).capacity() ==> r is None,
            old(self)@.len() >= old(self).capacity() ==> r is Some && r->0@ == old(self)@[0],
    {
        let ghost m_view = m@;
        let r = force_push(&mut self.queue, m);
        proof {
            let o = queued(old(self).queue);
            if o.len() < queue_capacity(old(self).queue) {
                assert(self@ =~= old(self)@.push(m_view));
            } else {
                assert(self@ =~= old(self)@.drop_first().push(m_view));
            }
        }
        r
    }

    /// Removes and returns the oldest message, or `None` when empty.
    pub fn pop(&mut self) -> (r: Option<QueueMessage>)
        requires
            old(self).wf(),
        ensures
            final(self).wf(),
            final(self).capacity() == old(self).capacity(),
            old(self)@.len() == 0 ==> r is None && final(self)@ == old(self)@,
            old(self)@.len() > 0 ==> r is Some && r->0@ == old(self)@[0] && final(self)@
                == old(self)@.drop_first(),
    {
        let r = pop_front(&mut self.queue);
        proof {
            if queued(old(self).queue).len() > 0 {
                assert(self@ =~= old(self)@.drop_first());
            }
        }
        r
    }
}

} // verus!
