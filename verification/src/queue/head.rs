//! What the endpoints of one buffer share: the two sequences and the
//! numbers of live endpoints.
use vstd::prelude::*;

use std::marker::PhantomData;

use crate::buffer::BufRange;
use crate::counter::{Counter, CounterRange};
use crate::queue::half::HeadHalf;
use crate::role;
use crate::sequence::{keeps, Limit, Sequence};

verus! {

/// The sequences of the two sides, and how many endpoints each side has.
pub struct Head<S: Sequence, R: Sequence> {
    pub sender: S,
    pub receiver: R,
    pub sender_count: usize,
    pub receiver_count: usize,
}

/// The sending side's part of a head: how many slots its buffer has.
pub struct SenderHead<S: Sequence, R: Sequence, T> {
    pub capacity: usize,
    pub role: PhantomData<(S, R, role::Send<T>)>,
}

/// The receiving side's part of a head.
pub struct ReceiverHead<S: Sequence, R: Sequence, T> {
    pub role: PhantomData<(S, R, role::Receive<T>)>,
}

/// The limit of the senders: they may fill the slots up to one lap ahead
/// of what the receivers have taken.
pub struct SenderLimit<'a, R: Sequence> {
    pub capacity: usize,
    pub receiver: &'a R,
}

/// The limit of the receivers: they may take what the senders have
/// published.
pub struct ReceiverLimit<'a, S: Sequence> {
    pub sender: &'a S,
}

impl<S: Sequence, R: Sequence> Head<S, R> {
    /// The count that the senders have published.
    pub open spec fn sent(&self) -> Counter {
        self.sender.published().latest()
    }

    /// The count that the receivers have published.
    pub open spec fn received(&self) -> Counter {
        self.receiver.published().latest()
    }

    /// Whether the channel is closed: the senders' sequence is.
    pub open spec fn is_closed(&self) -> bool {
        self.sender.published().is_closed()
    }

    /// A head over the two sequences, with no endpoint yet.
    pub fn new(sender: S, receiver: R) -> (head: Self)
        ensures
            head.sender == sender,
            head.receiver == receiver,
            head.sender_count == 0,
            head.receiver_count == 0,
    {
        Head { sender, receiver, sender_count: 0, receiver_count: 0 }
    }

    /// Whether the channel is closed.
    pub fn closed(&self) -> (r: bool)
        requires
            self.sender.inv(),
        ensures
            r == self.is_closed(),
    {
        proof {
            self.sender.lemma_inv();
        }
        self.sender.counter().fetch().is_err()
    }

    /// Closes the channel.
    pub fn close(&mut self)
        requires
            old(self).sender.inv(),
        ensures
            final(self).sender.inv(),
            final(self).is_closed(),
            final(self).sent() == old(self).sent(),
            final(self).sender.cache_taken() == old(self).sender.cache_taken(),
            final(self).receiver == old(self).receiver,
            final(self).sender_count == old(self).sender_count,
            final(self).receiver_count == old(self).receiver_count,
            keeps(&old(self).sender, &final(self).sender),
    {
        self.sender.close();
    }
}

impl<S: Sequence, R: Sequence> BufRange for Head<S, R> {
    open spec fn bounds(&self) -> CounterRange {
        CounterRange { start: self.received(), end: self.sent() }
    }

    open spec fn in_order(&self) -> bool {
        &&& self.sender.inv()
        &&& self.receiver.inv()
        &&& !self.receiver.published().is_closed()
    }

    fn range(&self) -> (r: CounterRange) {
        let sender_last = self.sender.fetch_last();
        let receiver_last = self.receiver.fetch_last();
        Counter::range(receiver_last, sender_last)
    }

    proof fn lemma_bounds_open(&self) {
        self.sender.lemma_inv();
        self.receiver.lemma_inv();
    }
}

impl<S: Sequence, R: Sequence, T> SenderHead<S, R, T> {
    /// The sending side's part of the head of a buffer of `capacity`
    /// slots.
    pub fn new(capacity: usize) -> (h: Self)
        ensures
            h.capacity == capacity,
    {
        SenderHead { capacity, role: PhantomData }
    }

    /// The limit of the senders, given the receivers' sequence.
    pub fn limit<'a>(&self, receiver: &'a R) -> (l: SenderLimit<'a, R>)
        ensures
            l.capacity == self.capacity,
            *l.receiver == *receiver,
    {
        SenderLimit { capacity: self.capacity, receiver }
    }
}

impl<S: Sequence, R: Sequence, T> HeadHalf for SenderHead<S, R, T> {
    type Seq = S;

    type Role = role::Send<T>;
}

impl<S: Sequence, R: Sequence, T> Clone for SenderHead<S, R, T> {
    fn clone(&self) -> (h: Self)
        ensures
            h.capacity == self.capacity,
    {
        SenderHead { capacity: self.capacity, role: PhantomData }
    }
}

impl<'a, R: Sequence> Limit for SenderLimit<'a, R> {
    open spec fn limit(&self) -> Counter {
        self.receiver.published().latest().plus(self.capacity)
    }

    open spec fn valid(&self) -> bool {
        self.receiver.inv()
    }

    fn count(&self) -> (c: Counter) {
        self.receiver.fetch_last() + self.capacity
    }
}

impl<S: Sequence, R: Sequence, T> ReceiverHead<S, R, T> {
    /// The receiving side's part of a head.
    pub fn new() -> (h: Self) {
        ReceiverHead { role: PhantomData }
    }

    /// The limit of the receivers, given the senders' sequence.
    pub fn limit<'a>(&self, sender: &'a S) -> (l: ReceiverLimit<'a, S>)
        ensures
            *l.sender == *sender,
    {
        ReceiverLimit { sender }
    }
}

impl<S: Sequence, R: Sequence, T> HeadHalf for ReceiverHead<S, R, T> {
    type Seq = R;

    type Role = role::Receive<T>;
}

impl<S: Sequence, R: Sequence, T> Clone for ReceiverHead<S, R, T> {
    fn clone(&self) -> (h: Self) {
        ReceiverHead { role: PhantomData }
    }
}

impl<'a, S: Sequence> Limit for ReceiverLimit<'a, S> {
    open spec fn limit(&self) -> Counter {
        self.sender.published().latest()
    }

    open spec fn valid(&self) -> bool {
        self.sender.inv()
    }

    fn count(&self) -> (c: Counter) {
        self.sender.fetch_last()
    }
}

} // verus!
