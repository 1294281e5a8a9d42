//! The bounded queue: one buffer, with senders and receivers on it.
//!
//! [`queue`] makes the buffer and one endpoint of each side. The endpoints
//! hold no reference to the buffer: every step of an endpoint takes the
//! buffer it works on, and is indivisible. What the buffer holds is a
//! first-in first-out queue, its [view](Channel).
//!
//! An endpoint fits its buffer (`wf`) as long as the limit that it last
//! saw is near enough to its side's counter. Steps of the other side
//! never take it too far. A send or a receive of another endpoint
//! of its own side uses up one unit of its slack, and each step of its own
//! fills the slack up again to the leeway of its side's sequence: an
//! endpoint must not sit out more steps of its side than that.
use vstd::prelude::*;

use crate::buffer::{
    capacity_ok, lemma_capacity_divides_cycle, lemma_index_of_plus, slot_at, Buffer,
};
use crate::counter::{lemma_ahead_self, lemma_order_of_near, Counter};
use crate::queue::half::{AdvanceError, Half, MAX_HALF_COUNT};
use crate::queue::head::{Head, ReceiverHead, SenderHead};
use crate::sequence::{keeps, spares, MultiCache, Sequence};
use vstd::std_specs::convert::FromSpecImpl;

verus! {

/// The sending end of a bounded queue.
pub struct Sender<S: Sequence, R: Sequence, T> {
    half: Option<Half<SenderHead<S, R, T>>>,
}

/// The receiving end of a bounded queue.
pub struct Receiver<S: Sequence, R: Sequence, T> {
    half: Option<Half<ReceiverHead<S, R, T>>>,
}

/// Why a message was not sent; each variant hands the message back.
#[derive(Debug, PartialEq, Eq)]
pub enum SendError<T> {
    BufferFull(T),
    Closed(T),
}

/// Nothing to receive yet: the queue is empty and still open.
#[derive(Debug, PartialEq, Eq, Structural)]
pub struct RecvError;

impl<T> From<AdvanceError<T>> for SendError<T> {
    fn from(e: AdvanceError<T>) -> (r: Self) {
        match e {
            AdvanceError::BufferFull(v) => SendError::BufferFull(v),
            AdvanceError::Closed(v) => SendError::Closed(v),
        }
    }
}

impl<T> FromSpecImpl<AdvanceError<T>> for SendError<T> {
    open spec fn obeys_from_spec() -> bool {
        true
    }

    open spec fn from_spec(e: AdvanceError<T>) -> Self {
        match e {
            AdvanceError::BufferFull(v) => SendError::BufferFull(v),
            AdvanceError::Closed(v) => SendError::Closed(v),
        }
    }
}

impl<T> SendError<T> {
    /// The message that was handed back.
    pub open spec fn inner(self) -> T {
        match self {
            SendError::BufferFull(v) => v,
            SendError::Closed(v) => v,
        }
    }

    /// The message that was handed back.
    pub fn into_inner(self) -> (v: T)
        ensures
            v == self.inner(),
    {
        match self {
            SendError::BufferFull(v) => v,
            SendError::Closed(v) => v,
        }
    }
}

/// A bounded queue as its users see it: what it holds, oldest first, how
/// much it can hold, and whether it is closed.
pub struct Channel<T> {
    pub queue: Seq<T>,
    pub capacity: nat,
    pub closed: bool,
}

impl<T> Channel<T> {
    /// An open queue of the given capacity that holds nothing.
    pub open spec fn empty(capacity: nat) -> Channel<T> {
        Channel { queue: Seq::empty(), capacity, closed: false }
    }

    /// What sending `msg` makes of the queue, and what the sender is
    /// told.
    pub open spec fn send(self, msg: T) -> (Channel<T>, Result<(), SendError<T>>) {
        if self.closed {
            (self, Err(SendError::Closed(msg)))
        } else if self.queue.len() >= self.capacity {
            (self, Err(SendError::BufferFull(msg)))
        } else {
            (Channel { queue: self.queue.push(msg), ..self }, Ok(()))
        }
    }

    /// What receiving makes of the queue, and what the receiver gets.
    pub open spec fn recv(self) -> (Channel<T>, Result<Option<T>, RecvError>) {
        if self.queue.len() > 0 {
            (Channel { queue: self.queue.drop_first(), ..self }, Ok(Some(self.queue[0])))
        } else if self.closed {
            (self, Ok(None))
        } else {
            (self, Err(RecvError))
        }
    }

    /// The queue after it was closed.
    pub open spec fn close(self) -> Channel<T> {
        Channel { closed: true, ..self }
    }
}

impl<S: Sequence, R: Sequence, T> View for Buffer<Head<S, R>, T> {
    type V = Channel<T>;

    open spec fn view(&self) -> Channel<T> {
        Channel {
            queue: self.contents(),
            capacity: self.size() as nat,
            closed: self.head.is_closed(),
        }
    }
}

/// A buffer of the given capacity that holds nothing, is open and has no
/// endpoint yet.
pub fn segment<S: Sequence, R: Sequence, T>(capacity: usize) -> (buffer: Buffer<Head<S, R>, T>)
    requires
        capacity_ok(capacity as int),
    ensures
        buffer.wf(),
        buffer@ == Channel::<T>::empty(capacity as nat),
        buffer.head.sender_count == 0,
        buffer.head.receiver_count == 0,
        !buffer.head.sender.cache_taken(),
        !buffer.head.receiver.cache_taken(),
{
    let head = Head::new(S::fresh(), R::fresh());
    let buffer = Buffer::new(head, capacity);
    proof {
        lemma_capacity_divides_cycle(capacity as int);
        lemma_ahead_self(Counter(0));
        assert forall|j: int| 0 <= j < buffer.body@.len() implies (#[trigger] slot_at(
            buffer.body@,
            Counter(0),
            j,
        )) is None by {
            lemma_index_of_plus(Counter(0).plus(j as usize), 0, capacity as int);
        }
        assert(buffer.contents() =~= Seq::<T>::empty());
    }
    buffer
}

/// Creates a bounded queue of the given capacity: its buffer, one sender
/// and one receiver.
pub fn queue<S: Sequence, R: Sequence, T>(capacity: usize) -> (q: (
    Buffer<Head<S, R>, T>,
    Sender<S, R, T>,
    Receiver<S, R, T>,
))
    requires
        capacity_ok(capacity as int),
    ensures
        q.0.wf(),
        q.0@ == Channel::<T>::empty(capacity as nat),
        q.0.head.sender_count == 1,
        q.0.head.receiver_count == 1,
        q.1.wf(&q.0),
        q.1.is_attached(),
        q.1.slack(&q.0) >= S::leeway(),
        q.2.wf(&q.0),
        q.2.slack(&q.0) >= R::leeway(),
{
    let mut buffer = segment::<S, R, T>(capacity);
    // A newly made sequence has a cache to give.
    let sender_head = SenderHead::new(capacity);
    let sender_half = match Half::<SenderHead<S, R, T>>::new(&mut buffer, sender_head) {
        Ok(half) => Some(half),
        Err(_) => None,
    };
    let ghost with_sender = buffer;
    let receiver_half = match Half::<ReceiverHead<S, R, T>>::new(&mut buffer, ReceiverHead::new()) {
        Ok(half) => Some(half),
        Err(_) => None,
    };
    proof {
        sender_half->Some_0.lemma_wf_carries(&with_sender, &buffer);
    }
    let sender = Sender { half: sender_half };
    let receiver = Receiver { half: receiver_half };
    (buffer, sender, receiver)
}

impl<S: Sequence, R: Sequence, T> Sender<S, R, T> {
    /// The sender fits the buffer, and where it has no hold on the buffer
    /// the queue is closed.
    pub closed spec fn wf(&self, buf: &Buffer<Head<S, R>, T>) -> bool {
        match self.half {
            Some(half) => half.wf(buf),
            None => buf.head.is_closed(),
        }
    }

    /// Number of messages that the queue can hold.
    pub fn capacity(&self, buf: &Buffer<Head<S, R>, T>) -> (n: usize)
        ensures
            n == buf@.capacity,
    {
        buf.capacity()
    }

    /// Whether the queue is closed.
    pub fn is_closed(&mut self, buf: &Buffer<Head<S, R>, T>) -> (closed: bool)
        requires
            buf.wf(),
            old(self).wf(buf),
        ensures
            final(self).wf(buf),
            final(self).slack(buf) >= old(self).slack(buf),
            final(self).is_attached() == old(self).is_attached(),
            closed == buf@.closed,
    {
        match &mut self.half {
            Some(half) => half.is_closed(buf),
            None => true,
        }
    }

    /// Closes the queue: no message can be sent any more, and what the
    /// queue holds can still be received.
    pub fn close(&mut self, buf: &mut Buffer<Head<S, R>, T>)
        requires
            old(buf).wf(),
            old(self).wf(old(buf)),
        ensures
            final(buf).wf(),
            final(self).wf(final(buf)),
            final(self).slack(final(buf)) >= old(self).slack(old(buf)),
            final(self).is_attached() == old(self).is_attached(),
            final(buf)@ == old(buf)@.close(),
            final(buf).head.sender_count == old(buf).head.sender_count,
            final(buf).head.receiver_count == old(buf).head.receiver_count,
            senders_stay(old(buf), final(buf)),
            receivers_stay(old(buf), final(buf)),
    {
        let ghost before = *buf;
        match &mut self.half {
            Some(half) => half.close(buf),
            None => {},
        }
        proof {
            lemma_senders_follow::<S, R, T>(&before, buf);
            lemma_receivers_follow::<S, R, T>(&before, buf);
        }
    }

    /// Sends `msg` if the queue is open and has room for it.
    pub fn try_send(&mut self, buf: &mut Buffer<Head<S, R>, T>, msg: T) -> (r: Result<
        (),
        SendError<T>,
    >)
        requires
            old(buf).wf(),
            old(self).wf(old(buf)),
        ensures
            final(buf).wf(),
            final(self).wf(final(buf)),
            final(self).slack(final(buf)) >= S::leeway(),
            final(self).is_attached() == old(self).is_attached(),
            (final(buf)@, r) == old(buf)@.send(msg),
            senders_last(old(buf), final(buf)),
            final(buf).head.receiver == old(buf).head.receiver,
            final(buf).head.sender_count == old(buf).head.sender_count,
            final(buf).head.receiver_count == old(buf).head.receiver_count,
            receivers_stay(old(buf), final(buf)),
    {
        let ghost before = *buf;
        let answer = {
            if let Some(half) = &mut self.half {
                match half.try_advance(buf, msg) {
                    Ok(()) => Ok(()),
                    Err(e) => Err(SendError::from(e)),
                }
            } else {
                Err(SendError::Closed(msg))
            }
        };
        proof {
            lemma_receivers_follow::<S, R, T>(&before, buf);
            lemma_senders_last::<S, R, T>(&before, buf);
        }
        answer
    }

    /// Gives the sender up. The last sender to go closes the queue.
    pub fn release(self, buf: &mut Buffer<Head<S, R>, T>)
        requires
            old(buf).wf(),
            self.wf(old(buf)),
        ensures
            final(buf).wf(),
            final(buf)@ == if self.is_attached() && old(buf).head.sender_count == 1 {
                old(buf)@.close()
            } else {
                old(buf)@
            },
            final(buf).head.receiver_count == old(buf).head.receiver_count,
            self.is_attached() && old(buf).head.sender_count >= 1 ==>
                final(buf).head.sender_count == old(buf).head.sender_count - 1,
            !self.is_attached() ==> final(buf).head.sender_count == old(buf).head.sender_count,
            senders_stay(old(buf), final(buf)),
            receivers_stay(old(buf), final(buf)),
    {
        let ghost before = *buf;
        match self.half {
            Some(half) => half.release(buf),
            None => {},
        }
        proof {
            lemma_senders_follow::<S, R, T>(&before, buf);
            lemma_receivers_follow::<S, R, T>(&before, buf);
        }
    }
}

impl<S: MultiCache, R: Sequence, T> Sender<S, R, T> {
    /// One more sender on the same queue.
    pub fn try_clone(&self, buf: &mut Buffer<Head<S, R>, T>) -> (twin: Self)
        requires
            old(buf).wf(),
            self.wf(old(buf)),
            old(buf).head.sender_count <= MAX_HALF_COUNT,
        ensures
            final(buf).wf(),
            self.wf(final(buf)),
            twin.wf(final(buf)),
            twin.slack(final(buf)) >= S::leeway(),
            twin.is_attached() == (self.is_attached() && !old(buf)@.closed),
            final(buf)@ == old(buf)@,
            final(buf).head.receiver_count == old(buf).head.receiver_count,
            final(buf).head.sender_count == if self.is_attached() {
                old(buf).head.sender_count + 1
            } else {
                old(buf).head.sender_count as int
            },
            senders_stay(old(buf), final(buf)),
            receivers_stay(old(buf), final(buf)),
    {
        let ghost before = *buf;
        let answer = {
            proof {
                buf.head.sender.lemma_caches_left();
            }
            match &self.half {
                Some(half) => Sender { half: half.try_clone(buf) },
                None => Sender { half: None },
            }
        };
        proof {
            lemma_senders_follow::<S, R, T>(&before, buf);
            lemma_receivers_follow::<S, R, T>(&before, buf);
        }
        answer
    }
}

impl<S: Sequence, R: Sequence, T> Sender<S, R, T> {
    /// Whether the sender has a hold on its buffer.
    pub closed spec fn is_attached(&self) -> bool {
        self.half is Some
    }

    /// How many sends of other senders the sender can sit out and still
    /// fit the buffer. A send of its own, or a look at a full queue, brings
    /// it back to the leeway of its kind of sequence.
    pub closed spec fn slack(&self, buf: &Buffer<Head<S, R>, T>) -> int {
        match self.half {
            Some(half) => half.slack(buf),
            None => S::leeway(),
        }
    }
}

impl<S: Sequence, R: Sequence, T> Receiver<S, R, T> {
    /// The receiver has a hold on the buffer, which fits it.
    pub closed spec fn wf(&self, buf: &Buffer<Head<S, R>, T>) -> bool {
        match self.half {
            Some(half) => half.wf(buf),
            None => false,
        }
    }

    /// How many receives of other receivers the receiver can sit out and
    /// still fit the buffer. A receive of its own, or a look at an empty
    /// queue, brings it back to the leeway of its kind of sequence.
    pub closed spec fn slack(&self, buf: &Buffer<Head<S, R>, T>) -> int {
        match self.half {
            Some(half) => half.slack(buf),
            None => R::leeway(),
        }
    }

    /// Number of messages that the queue can hold.
    pub fn capacity(&self, buf: &Buffer<Head<S, R>, T>) -> (n: usize)
        ensures
            n == buf@.capacity,
    {
        buf.capacity()
    }

    /// Whether the queue is closed.
    pub fn is_closed(&mut self, buf: &Buffer<Head<S, R>, T>) -> (closed: bool)
        requires
            buf.wf(),
            old(self).wf(buf),
        ensures
            final(self).wf(buf),
            final(self).slack(buf) >= old(self).slack(buf),
            closed == buf@.closed,
    {
        match &mut self.half {
            Some(half) => half.is_closed(buf),
            None => true,
        }
    }

    /// Closes the queue: no message can be sent any more, and what the
    /// queue holds can still be received.
    pub fn close(&mut self, buf: &mut Buffer<Head<S, R>, T>)
        requires
            old(buf).wf(),
            old(self).wf(old(buf)),
        ensures
            final(buf).wf(),
            final(self).wf(final(buf)),
            final(self).slack(final(buf)) >= old(self).slack(old(buf)),
            final(buf)@ == old(buf)@.close(),
            final(buf).head.sender_count == old(buf).head.sender_count,
            final(buf).head.receiver_count == old(buf).head.receiver_count,
            senders_stay(old(buf), final(buf)),
            receivers_stay(old(buf), final(buf)),
    {
        let ghost before = *buf;
        match &mut self.half {
            Some(half) => half.close(buf),
            None => {},
        }
        proof {
            lemma_senders_follow::<S, R, T>(&before, buf);
            lemma_receivers_follow::<S, R, T>(&before, buf);
        }
    }

    /// Receives the oldest message, if the queue holds one.
    ///
    /// Where it holds none, the answer is `Ok(None)` if the queue is
    /// closed, and an error while it is open.
    pub fn try_recv(&mut self, buf: &mut Buffer<Head<S, R>, T>) -> (r: Result<
        Option<T>,
        RecvError,
    >)
        requires
            old(buf).wf(),
            old(self).wf(old(buf)),
        ensures
            final(buf).wf(),
            final(self).wf(final(buf)),
            final(self).slack(final(buf)) >= R::leeway(),
            (final(buf)@, r) == old(buf)@.recv(),
            receivers_last(old(buf), final(buf)),
            final(buf).head.sender == old(buf).head.sender,
            final(buf).head.sender_count == old(buf).head.sender_count,
            final(buf).head.receiver_count == old(buf).head.receiver_count,
            senders_stay(old(buf), final(buf)),
    {
        let ghost before = *buf;
        let answer = {
            if let Some(half) = &mut self.half {
                match half.try_advance(buf, ()) {
                    Ok(msg) => Ok(Some(msg)),
                    Err(AdvanceError::BufferFull(())) => Err(RecvError),
                    Err(AdvanceError::Closed(())) => Ok(None),
                }
            } else {
                Ok(None)
            }
        };
        proof {
            lemma_senders_follow::<S, R, T>(&before, buf);
            lemma_receivers_last::<S, R, T>(&before, buf);
        }
        answer
    }

    /// Gives the receiver up. The last receiver to go closes the queue.
    pub fn release(self, buf: &mut Buffer<Head<S, R>, T>)
        requires
            old(buf).wf(),
            self.wf(old(buf)),
        ensures
            final(buf).wf(),
            final(buf)@ == if old(buf).head.receiver_count == 1 {
                old(buf)@.close()
            } else {
                old(buf)@
            },
            final(buf).head.sender_count == old(buf).head.sender_count,
            old(buf).head.receiver_count >= 1 ==>
                final(buf).head.receiver_count == old(buf).head.receiver_count - 1,
            senders_stay(old(buf), final(buf)),
            receivers_stay(old(buf), final(buf)),
    {
        let ghost before = *buf;
        match self.half {
            Some(half) => half.release(buf),
            None => {},
        }
        proof {
            lemma_senders_follow::<S, R, T>(&before, buf);
            lemma_receivers_follow::<S, R, T>(&before, buf);
        }
    }
}

impl<S: Sequence, R: MultiCache, T> Receiver<S, R, T> {
    /// One more receiver on the same queue.
    pub fn try_clone(&self, buf: &mut Buffer<Head<S, R>, T>) -> (twin: Self)
        requires
            old(buf).wf(),
            self.wf(old(buf)),
            old(buf).head.receiver_count <= MAX_HALF_COUNT,
        ensures
            final(buf).wf(),
            self.wf(final(buf)),
            twin.wf(final(buf)),
            twin.slack(final(buf)) >= R::leeway(),
            final(buf)@ == old(buf)@,
            final(buf).head.sender_count == old(buf).head.sender_count,
            final(buf).head.receiver_count == old(buf).head.receiver_count + 1,
            senders_stay(old(buf), final(buf)),
            receivers_stay(old(buf), final(buf)),
    {
        let ghost before = *buf;
        let answer = {
            proof {
                buf.head.receiver.lemma_caches_left();
            }
            match &self.half {
                Some(half) => Receiver { half: half.try_clone(buf) },
                None => Receiver { half: None },
            }
        };
        proof {
            lemma_senders_follow::<S, R, T>(&before, buf);
            lemma_receivers_follow::<S, R, T>(&before, buf);
        }
        answer
    }
}

/// Every sender that fits the buffer `before` fits the buffer `after`,
/// with no less slack.
pub open spec fn senders_stay<S: Sequence, R: Sequence, T>(
    before: &Buffer<Head<S, R>, T>,
    after: &Buffer<Head<S, R>, T>,
) -> bool {
    forall|other: Sender<S, R, T>| #[trigger]
        other.wf(before) ==> other.wf(after) && other.slack(after) >= other.slack(before)
}

/// Every receiver that fits the buffer `before` fits the buffer `after`,
/// with no less slack.
pub open spec fn receivers_stay<S: Sequence, R: Sequence, T>(
    before: &Buffer<Head<S, R>, T>,
    after: &Buffer<Head<S, R>, T>,
) -> bool {
    forall|other: Receiver<S, R, T>| #[trigger]
        other.wf(before) ==> other.wf(after) && other.slack(after) >= other.slack(before)
}

/// Every sender that fits the buffer `before` and has a unit of slack fits
/// the buffer `after`, with at most one unit less.
pub open spec fn senders_last<S: Sequence, R: Sequence, T>(
    before: &Buffer<Head<S, R>, T>,
    after: &Buffer<Head<S, R>, T>,
) -> bool {
    forall|other: Sender<S, R, T>| #[trigger]
        other.wf(before) && other.slack(before) >= 1 ==> other.wf(after) && other.slack(after)
            >= other.slack(before) - 1
}

/// Every receiver that fits the buffer `before` and has a unit of slack
/// fits the buffer `after`, with at most one unit less.
pub open spec fn receivers_last<S: Sequence, R: Sequence, T>(
    before: &Buffer<Head<S, R>, T>,
    after: &Buffer<Head<S, R>, T>,
) -> bool {
    forall|other: Receiver<S, R, T>| #[trigger]
        other.wf(before) && other.slack(before) >= 1 ==> other.wf(after) && other.slack(after)
            >= other.slack(before) - 1
}

/// Senders that fit a buffer fit it after a step that has sent nothing
/// and has left the senders' sequence serving the same caches.
pub proof fn lemma_senders_follow<S: Sequence, R: Sequence, T>(
    before: &Buffer<Head<S, R>, T>,
    after: &Buffer<Head<S, R>, T>,
)
    requires
        before.wf(),
        after.wf(),
        after.size() == before.size(),
        after.head.sent() == before.head.sent(),
        before.head.is_closed() ==> after.head.is_closed(),
        keeps(&before.head.sender, &after.head.sender),
        after.head.received() == before.head.received() || after.head.received()
            == before.head.received().plus(1),
    ensures
        senders_stay(before, after),
{
    assert forall|other: Sender<S, R, T>| #[trigger] other.wf(before) implies other.wf(after)
        && other.slack(after) >= other.slack(before) by {
        match other.half {
            Some(half) => {
                half.lemma_wf_follows(before, after);
            },
            None => {},
        }
    }
}

/// Senders that fit a buffer with a unit of slack fit it after a send of
/// another sender, with at most one unit less.
pub proof fn lemma_senders_last<S: Sequence, R: Sequence, T>(
    before: &Buffer<Head<S, R>, T>,
    after: &Buffer<Head<S, R>, T>,
)
    requires
        after.size() == before.size(),
        after.head.received() == before.head.received(),
        before.head.is_closed() ==> after.head.is_closed(),
        spares(
            &before.head.sender,
            &after.head.sender,
            before.head.received().plus(before.size() as usize),
        ),
    ensures
        senders_last(before, after),
{
    assert forall|other: Sender<S, R, T>| #[trigger]
        other.wf(before) && other.slack(before) >= 1 implies other.wf(after) && other.slack(after)
        >= other.slack(before) - 1 by {
        match other.half {
            Some(half) => {
                half.lemma_wf_lasts(before, after);
            },
            None => {},
        }
    }
}

/// Receivers that fit a buffer fit it after a step that has received
/// nothing and has left the receivers' sequence serving the same caches.
pub proof fn lemma_receivers_follow<S: Sequence, R: Sequence, T>(
    before: &Buffer<Head<S, R>, T>,
    after: &Buffer<Head<S, R>, T>,
)
    requires
        before.wf(),
        after.wf(),
        after.size() == before.size(),
        after.head.received() == before.head.received(),
        before.head.is_closed() ==> after.head.is_closed(),
        keeps(&before.head.receiver, &after.head.receiver),
        after.head.sent() == before.head.sent() || after.head.sent() == before.head.sent().plus(
            1,
        ),
    ensures
        receivers_stay(before, after),
{
    assert forall|other: Receiver<S, R, T>| #[trigger] other.wf(before) implies other.wf(after)
        && other.slack(after) >= other.slack(before) by {
        match other.half {
            Some(half) => {
                half.lemma_wf_follows(before, after);
            },
            None => {},
        }
    }
}

/// Receivers that fit a buffer with a unit of slack fit it after a
/// receive of another receiver, with at most one unit less.
pub proof fn lemma_receivers_last<S: Sequence, R: Sequence, T>(
    before: &Buffer<Head<S, R>, T>,
    after: &Buffer<Head<S, R>, T>,
)
    requires
        after.head.sent() == before.head.sent(),
        before.head.is_closed() ==> after.head.is_closed(),
        spares(&before.head.receiver, &after.head.receiver, before.head.sent()),
    ensures
        receivers_last(before, after),
{
    assert forall|other: Receiver<S, R, T>| #[trigger]
        other.wf(before) && other.slack(before) >= 1 implies other.wf(after) && other.slack(after)
        >= other.slack(before) - 1 by {
        match other.half {
            Some(half) => {
                half.lemma_wf_lasts(before, after);
            },
            None => {},
        }
    }
}

/// One step of some endpoint on a queue.
pub enum Op<T> {
    Send(T),
    Recv,
    Close,
}

/// What a run of steps has made of a queue: the queue itself, the
/// messages that it accepted and those that it delivered, each in the
/// order of the steps.
pub struct Run<T> {
    pub channel: Channel<T>,
    pub accepted: Seq<T>,
    pub delivered: Seq<T>,
}

impl<T> Run<T> {
    /// The run of no steps on an empty open queue.
    pub open spec fn start(capacity: nat) -> Run<T> {
        Run { channel: Channel::empty(capacity), accepted: Seq::empty(), delivered: Seq::empty() }
    }

    /// The run after one more step.
    pub open spec fn step(self, op: Op<T>) -> Run<T> {
        match op {
            Op::Send(msg) => {
                let (channel, answer) = self.channel.send(msg);
                Run {
                    channel,
                    accepted: if answer is Ok {
                        self.accepted.push(msg)
                    } else {
                        self.accepted
                    },
                    delivered: self.delivered,
                }
            },
            Op::Recv => {
                let (channel, answer) = self.channel.recv();
                Run {
                    channel,
                    accepted: self.accepted,
                    delivered: match answer {
                        Ok(Some(msg)) => self.delivered.push(msg),
                        _ => self.delivered,
                    },
                }
            },
            Op::Close => Run {
                channel: self.channel.close(),
                accepted: self.accepted,
                delivered: self.delivered,
            },
        }
    }

    /// The run after the steps `ops`, in their order.
    pub open spec fn after(self, ops: Seq<Op<T>>) -> Run<T>
        decreases ops.len(),
    {
        if ops.len() == 0 {
            self
        } else {
            self.after(ops.drop_last()).step(ops.last())
        }
    }
}

/// Nothing is lost, doubled or reordered: in every run of sends, receives
/// and closes, however the steps of the endpoints alternate, the messages
/// that were accepted are those that were delivered followed by those
/// that the queue still holds. So the queue holds as many messages as
/// were accepted and not delivered, each once, which are the ones that go
/// with the buffer when it is given up. The queue never holds more than
/// its capacity.
pub proof fn lemma_run_keeps_order<T>(capacity: nat, ops: Seq<Op<T>>)
    ensures
        ({
            let run = Run::<T>::start(capacity).after(ops);
            &&& run.accepted == run.delivered + run.channel.queue
            &&& run.channel.queue.len() == run.accepted.len() - run.delivered.len()
            &&& run.delivered.is_prefix_of(run.accepted)
            &&& run.channel.queue.len() <= capacity
            &&& run.channel.capacity == capacity
        }),
    decreases ops.len(),
{
    let first = Run::<T>::start(capacity);
    if ops.len() == 0 {
        assert(first.accepted =~= first.delivered + first.channel.queue);
    } else {
        lemma_run_keeps_order::<T>(capacity, ops.drop_last());
        let before = first.after(ops.drop_last());
        let run = before.step(ops.last());
        assert(run.accepted =~= run.delivered + run.channel.queue);
    }
    let run = first.after(ops);
    assert(run.delivered =~= run.accepted.subrange(0, run.delivered.len() as int));
}

/// Once a run has drained its queue, whatever was accepted has been
/// delivered, each message once: as sequences, and so as multisets, which
/// makes every sum over them equal.
pub proof fn lemma_drained_run_conserves<T>(capacity: nat, ops: Seq<Op<T>>)
    requires
        Run::<T>::start(capacity).after(ops).channel.queue.len() == 0,
    ensures
        Run::<T>::start(capacity).after(ops).delivered == Run::<T>::start(capacity).after(
            ops,
        ).accepted,
        Run::<T>::start(capacity).after(ops).delivered.to_multiset() == Run::<T>::start(
            capacity,
        ).after(ops).accepted.to_multiset(),
{
    lemma_run_keeps_order::<T>(capacity, ops);
    let run = Run::<T>::start(capacity).after(ops);
    assert(run.accepted =~= run.delivered);
}

/// The messages of each producer are delivered in the order in which the
/// queue accepted them: of the messages that `from` picks out, those
/// delivered are the first of those accepted.
pub proof fn lemma_fifo_per_producer<T>(capacity: nat, ops: Seq<Op<T>>, from: spec_fn(T) -> bool)
    ensures
        ({
            let run = Run::<T>::start(capacity).after(ops);
            &&& run.accepted.filter(from) == run.delivered.filter(from) + run.channel.queue.filter(
                from,
            )
            &&& run.delivered.filter(from).is_prefix_of(run.accepted.filter(from))
        }),
{
    lemma_run_keeps_order::<T>(capacity, ops);
    let run = Run::<T>::start(capacity).after(ops);
    Seq::filter_distributes_over_add(run.delivered, run.channel.queue, from);
    let some = run.delivered.filter(from);
    let all = run.accepted.filter(from);
    assert(some =~= all.subrange(0, some.len() as int));
}

/// The senders are never more than the capacity ahead of the receivers:
/// the difference of the two published counts is the number of messages
/// that the buffer holds, which lies between nothing and the capacity.
pub proof fn lemma_capacity_bound<S: Sequence, R: Sequence, T>(buf: &Buffer<Head<S, R>, T>)
    requires
        buf.wf(),
    ensures
        buf.head.sent().distance(buf.head.received()) == buf@.queue.len(),
        0 <= buf@.queue.len() <= buf@.capacity,
        !buf.head.sent().precedes(buf.head.received()),
{
    lemma_capacity_divides_cycle(buf.size());
    buf.head.sender.lemma_inv();
    buf.head.receiver.lemma_inv();
    lemma_order_of_near(buf.head.received(), buf.head.sent());
}

} // verus!
