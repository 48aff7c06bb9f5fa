//! The broker's shared queue state and the decisions of the producer,
//! consumer and heartbeat sessions. The sessions themselves read and write
//! sockets; here each is a step from the current state and an event to the
//! next state and an action.
use vstd::prelude::*;

use crate::buffer::{keep_last, lemma_push_all, push_all, push_model, MessageBuffer};
use crate::message::{wire_text, QueueMessage};

verus! {

/// A connection session, run on a thread of its own until it ends.
pub trait Client: Sized {
    fn run(self) {
    }
}

/// What a read on a connection gave.
pub enum ReadEvent {
    /// A line, without its newline.
    Line(String),
    /// The read timed out (or would block) with nothing read.
    TimedOut,
    /// The peer closed the connection.
    Eof,
    /// Any other read error.
    Failed,
}

/// What a producer session does next.
pub enum ProducerAction {
    /// The line was admitted; this wire-form line goes to the journal.
    Record(String),
    /// Nothing arrived yet: read again.
    Wait,
    /// Close the connection.
    Close,
}

/// What a consumer session does next.
pub enum ConsumerAction {
    /// Write this wire-form line, then a newline, to the consumer.
    Send(String),
    /// Nothing to deliver: flush, sleep one second, and ask again.
    Idle,
    /// End the session.
    Exit,
}

/// The buffer shared by all sessions with the producer and consumer counters.
///
/// On a fresh start the counters satisfy `counters_ordered`: every delivery
/// and every buffered message took an offset of its own, so
/// `consumer_offset <= producer_offset`. Every step keeps that relation. After
/// a restart the consumer counter comes from the offset snapshot while the
/// buffer is refilled from the journal, which can hold messages already
/// delivered; the relation then need not hold, and the counters are only
/// durability hints.
pub struct QueueState {
    buffer: MessageBuffer,
    producer_offset: usize,
    consumer_offset: usize,
}

/// The messages that admitting `lines`, one after the other, creates when the
/// first is given offset `start`.
pub open spec fn admitted(start: nat, lines: Seq<Seq<char>>) -> Seq<(usize, Seq<char>)> {
    Seq::new(lines.len(), |i: int| ((start + i) as usize, lines[i]))
}

/// Whatever a single producer admits into an empty buffer, a consumer that
/// reads the buffer to completion receives the most recent `cap` of them
/// (all of them when there were no more than `cap`) in the order sent, with
/// strictly increasing offsets.
pub proof fn lemma_single_producer_order(cap: nat, start: nat, lines: Seq<Seq<char>>)
    requires
        cap > 0,
        start + lines.len() <= usize::MAX + 1,
    ensures
        ({
            let buf = push_all(Seq::empty(), cap, admitted(start, lines));
            &&& buf == keep_last(admitted(start, lines), cap)
            &&& lines.len() <= cap ==> buf == admitted(start, lines)
            &&& forall|i: int, j: int| 0 <= i < j < buf.len() ==> buf[i].0 < buf[j].0
            &&& forall|i: int| 0 <= i < buf.len() ==> buf[i].1 == lines[lines.len() - buf.len() + i]
        }),
{
    let a = admitted(start, lines);
    lemma_push_all(Seq::empty(), cap, a);
    assert(Seq::<(usize, Seq<char>)>::empty() + a =~= a);
}

impl QueueState {
    /// The messages in the buffer, oldest first.
    pub closed spec fn messages(&self) -> Seq<(usize, Seq<char>)> {
        self.buffer@
    }

    /// The buffer's capacity.
    pub closed spec fn capacity(&self) -> nat {
        self.buffer.capacity()
    }

    /// The offset the next admitted message gets.
    pub closed spec fn next_offset(&self) -> nat {
        self.producer_offset as nat
    }

    /// The count of deliveries, from the starting value on.
    pub closed spec fn delivered(&self) -> nat {
        self.consumer_offset as nat
    }

    pub closed spec fn wf(&self) -> bool {
        self.buffer.wf()
    }

    /// Deliveries and buffered messages together took no more offsets than
    /// were handed out.
    pub open spec fn counters_ordered(&self) -> bool {
        self.delivered() + self.messages().len() <= self.next_offset()
    }

    /// A queue over `buffer`, whose next admission gets `producer_offset`
    /// and whose delivery counter starts at `consumer_offset`.
    pub fn new(buffer: MessageBuffer, producer_offset: usize, consumer_offset: usize) -> (r:
        QueueState)
        requires
            buffer.wf(),
        ensures
            r.wf(),
            r.messages() == buffer@,
            r.capacity() == buffer.capacity(),
            r.next_offset() == producer_offset,
            r.delivered() == consumer_offset,
            r.counters_ordered() <==> consumer_offset + buffer@.len() <= producer_offset,
    {
        QueueState { buffer, producer_offset, consumer_offset }
    }

    pub fn producer_offset(&self) -> (r: usize)
        ensures
            r == self.next_offset(),
    {
        self.producer_offset
    }

    pub fn consumer_offset(&self) -> (r: usize)
        ensures
            r == self.delivered(),
    {
        self.consumer_offset
    }

    /// Admits `line` under the next offset, evicting the oldest message when
    /// the buffer is full, and returns the wire-form line for the journal.
    pub fn enqueue(&mut self, line: String) -> (r: String)
        requires
            old(self).wf(),
            old(self).next_offset() < usize::MAX,
        ensures
            final(self).wf(),
            final(self).capacity() == old(self).capacity(),
            final(self).messages() == push_model(
                old(self).messages(),
                old(self).capacity(),
                (old(self).next_offset() as usize, line@),
            ),
            final(self).next_offset() == old(self).next_offset() + 1,
            final(self).delivered() == old(self).delivered(),
            r@ == wire_text(old(self).next_offset() as usize, line@),
            old(self).counters_ordered() ==> final(self).counters_ordered(),
    {
        proof {
            self.buffer.lemma_wf();
        }
        let m = QueueMessage::new(self.producer_offset, line);
        let journal_line = m.to_string();
        self.buffer.push(m);
        self.producer_offset = self.producer_offset + 1;
        journal_line
    }

    /// Takes the oldest message for a consumer, in wire form, and counts the
    /// delivery; `None` when the buffer is empty.
    pub fn deliver(&mut self) -> (r: Option<String>)
        requires
            old(self).wf(),
            old(self).delivered() < usize::MAX,
        ensures
            final(self).wf(),
            final(self).capacity() == old(self).capacity(),
            final(self).next_offset() == old(self).next_offset(),
            old(self).messages().len() == 0 ==> r is None && final(self).messages() == old(self).messages() && final(self).delivered() == old(self).delivered(),
            old(self).messages().len() > 0 ==> r is Some && r->0@ == wire_text(
                old(self).messages()[0].0,
                old(self).messages()[0].1,
            ) && final(self).messages() == old(self).messages().drop_first()
                && final(self).delivered() == old(self).delivered() + 1,
            old(self).counters_ordered() ==> final(self).counters_ordered(),
    {
        match self.buffer.pop() {
            Some(m) => {
                self.consumer_offset = self.consumer_offset + 1;
                Some(m.to_string())
            },
            None => None,
        }
    }

    /// One step of a producer session: while the broker runs, a line is
    /// admitted and handed on for the journal, a timeout means reading again,
    /// and end of stream or an error closes the session.
    pub fn on_producer_event(&mut self, running: bool, event: ReadEvent) -> (r: ProducerAction)
        requires
            old(self).wf(),
            old(self).next_offset() < usize::MAX,
        ensures
            final(self).wf(),
            final(self).capacity() == old(self).capacity(),
            final(self).delivered() == old(self).delivered(),
            match (running, event) {
                (true, ReadEvent::Line(line)) => r matches ProducerAction::Record(j) && j@
                    == wire_text(old(self).next_offset() as usize, line@) && final(self).messages()
                    == push_model(
                    old(self).messages(),
                    old(self).capacity(),
                    (old(self).next_offset() as usize, line@),
                ) && final(self).next_offset() == old(self).next_offset() + 1,
                (true, ReadEvent::TimedOut) => r is Wait && final(self).messages() == old(self).messages() && final(self).next_offset() == old(self).next_offset(),
                _ => r is Close && final(self).messages() == old(self).messages() && final(self).next_offset() == old(self).next_offset(),
            },
            old(self).counters_ordered() ==> final(self).counters_ordered(),
    {
        if !running {
            return ProducerAction::Close;
        }
        match event {
            ReadEvent::Line(line) => ProducerAction::Record(self.enqueue(line)),
            ReadEvent::TimedOut => ProducerAction::Wait,
            ReadEvent::Eof => ProducerAction::Close,
            ReadEvent::Failed => ProducerAction::Close,
        }
    }

    /// One step of a consumer session: it ends when the broker stops or the
    /// heartbeat is lost; otherwise it sends the oldest message, or idles when
    /// there is none.
    pub fn on_consumer_tick(&mut self, running: bool, alive: bool) -> (r: ConsumerAction)
        requires
            old(self).wf(),
            old(self).delivered() < usize::MAX,
        ensures
            final(self).wf(),
            final(self).capacity() == old(self).capacity(),
            final(self).next_offset() == old(self).next_offset(),
            !(running && alive) ==> r is Exit && final(self).messages() == old(self).messages()
                && final(self).delivered() == old(self).delivered(),
            running && alive && old(self).messages().len() == 0 ==> r is Idle && final(self).messages() == old(self).messages() && final(self).delivered() == old(self).delivered(),
            running && alive && old(self).messages().len() > 0 ==> (r matches ConsumerAction::Send(
                l,
            ) && l@ == wire_text(old(self).messages()[0].0, old(self).messages()[0].1)
                && final(self).messages() == old(self).messages().drop_first()
                && final(self).delivered() == old(self).delivered() + 1),
            old(self).counters_ordered() ==> final(self).counters_ordered(),
    {
        if !running || !alive {
            return ConsumerAction::Exit;
        }
        match self.deliver() {
            Some(l) => ConsumerAction::Send(l),
            None => ConsumerAction::Idle,
        }
    }
}

/// Whether a consumer is still alive after its heartbeat read gave `event`:
/// only a line keeps it alive; a timeout, end of stream or error ends it.
pub fn heartbeat_alive(event: &ReadEvent) -> (r: bool)
    ensures
        r <==> event is Line,
{
    match event {
        ReadEvent::Line(_) => true,
        _ => false,
    }
}

} // verus!
