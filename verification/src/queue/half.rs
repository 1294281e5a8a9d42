//! One endpoint's hold on a buffer.
use vstd::prelude::*;

use crate::buffer::{
    lemma_capacity_divides_cycle, lemma_filled_pop, lemma_filled_push, lemma_free_slot, BufRange,
    Buffer,
};
use crate::counter::{lemma_room, lemma_stretch, lemma_within, Counter, COUNTER_VALID_RANGE};
use crate::queue::head::{Head, ReceiverHead, SenderHead};
use crate::role::{Receive, Role, Send};
use crate::sequence::{keeps, spares, CacheError, Sequence};

verus! {

/// The part of a head that belongs to one side.
pub trait HeadHalf {
    /// The sequence of the side.
    type Seq: Sequence;

    /// The role of the side.
    type Role: Role;
}

/// One endpoint: its side's part of the head, its cache, and whether it
/// has seen the channel closed.
pub struct Half<H: HeadHalf> {
    head: H,
    cache: <H::Seq as Sequence>::Cache,
    closed_cache: bool,
}

/// Why an endpoint could not advance; each variant hands the input back.
#[derive(Debug, PartialEq, Eq)]
pub enum AdvanceError<T> {
    BufferFull(T),
    Closed(T),
}

impl<T> AdvanceError<T> {
    /// The input that was handed back.
    pub open spec fn inner(self) -> T {
        match self {
            AdvanceError::BufferFull(v) => v,
            AdvanceError::Closed(v) => v,
        }
    }

    /// The input that was handed back.
    pub fn into_inner(self) -> (v: T)
        ensures
            v == self.inner(),
    {
        match self {
            AdvanceError::BufferFull(v) => v,
            AdvanceError::Closed(v) => v,
        }
    }
}

/// Half count per head is limited to half of valid counter range.
pub const MAX_HALF_COUNT: usize = COUNTER_VALID_RANGE / 2;

impl<S: Sequence, R: Sequence, T> Half<SenderHead<S, R, T>> {
    /// Whether the endpoint has seen the channel closed.
    pub closed spec fn sees_closed(&self) -> bool {
        self.closed_cache
    }

    /// The endpoint fits the buffer: it knows the buffer's capacity, and
    /// its cache can claim against the buffer's limit, unless it has seen
    /// the channel closed, which then is closed.
    pub closed spec fn wf(&self, buf: &Buffer<Head<S, R>, T>) -> bool {
        &&& self.head.capacity == buf.size()
        &&& if self.closed_cache {
            buf.head.is_closed()
        } else {
            buf.head.sender.usable(&self.cache, buf.head.received().plus(self.head.capacity))
        }
    }

    /// How many sends of other endpoints the endpoint can sit out and
    /// still fit the buffer.
    pub closed spec fn slack(&self, buf: &Buffer<Head<S, R>, T>) -> int {
        if self.closed_cache {
            S::leeway()
        } else {
            buf.head.sender.slack(&self.cache, buf.head.received().plus(self.head.capacity))
        }
    }

    /// An endpoint that fits a buffer fits every buffer of the same size
    /// with the same senders' sequence and the same count of the
    /// receivers.
    pub proof fn lemma_wf_carries(
        &self,
        before: &Buffer<Head<S, R>, T>,
        after: &Buffer<Head<S, R>, T>,
    )
        requires
            self.wf(before),
            after.size() == before.size(),
            after.head.sender == before.head.sender,
            after.head.received() == before.head.received(),
        ensures
            self.wf(after),
            self.slack(after) == self.slack(before),
    {
    }

    /// An endpoint that fits a buffer fits the buffer after a step of
    /// another endpoint which has sent nothing: the buffer has its size,
    /// the senders' sequence serves the same caches and has published the
    /// same count, and the receivers have taken one message or none.
    pub proof fn lemma_wf_follows(
        &self,
        before: &Buffer<Head<S, R>, T>,
        after: &Buffer<Head<S, R>, T>,
    )
        requires
            self.wf(before),
            before.wf(),
            after.wf(),
            after.size() == before.size(),
            after.head.sent() == before.head.sent(),
            before.head.is_closed() ==> after.head.is_closed(),
            keeps(&before.head.sender, &after.head.sender),
            after.head.received() == before.head.received() || after.head.received()
                == before.head.received().plus(1),
        ensures
            self.wf(after),
            self.slack(after) >= self.slack(before),
    {
        before.head.lemma_bounds_open();
        after.head.lemma_bounds_open();
        lemma_capacity_divides_cycle(before.size());
        lemma_room(before.head.received(), before.head.sent(), before.size());
        lemma_room(after.head.received(), after.head.sent(), after.size());
        lemma_stretch(before.head.received(), before.head.sent());
        if !self.closed_cache {
            after.head.sender.lemma_limit_moves(
                &self.cache,
                before.head.received().plus(before.size() as usize),
                after.head.received().plus(after.size() as usize),
            );
        }
    }

    /// No endpoint has more slack than the leeway of its side.
    pub proof fn lemma_slack_bound(&self, buf: &Buffer<Head<S, R>, T>)
        ensures
            self.slack(buf) <= S::leeway(),
    {
        buf.head.sender.lemma_slack_bound(
            &self.cache,
            buf.head.received().plus(self.head.capacity),
        );
    }

    /// An endpoint that fits a buffer and has a unit of slack fits the
    /// buffer after a step of another sender, with at most one unit less.
    pub proof fn lemma_wf_lasts(
        &self,
        before: &Buffer<Head<S, R>, T>,
        after: &Buffer<Head<S, R>, T>,
    )
        requires
            self.wf(before),
            self.slack(before) >= 1,
            after.size() == before.size(),
            after.head.received() == before.head.received(),
            before.head.is_closed() ==> after.head.is_closed(),
            spares(
                &before.head.sender,
                &after.head.sender,
                before.head.received().plus(before.size() as usize),
            ),
        ensures
            self.wf(after),
            self.slack(after) >= self.slack(before) - 1,
    {
    }

    /// A new sending endpoint on `buf`.
    ///
    /// The endpoint is counted on the head whether or not it gets a
    /// cache.
    pub fn new(buf: &mut Buffer<Head<S, R>, T>, head: SenderHead<S, R, T>) -> (r: Result<
        Self,
        CacheError,
    >)
        requires
            old(buf).wf(),
            head.capacity == old(buf).size(),
            old(buf).head.sender_count <= MAX_HALF_COUNT,
        ensures
            final(buf).wf(),
            final(buf).body == old(buf).body,
            final(buf).head.sender.published() == old(buf).head.sender.published(),
            final(buf).head.receiver == old(buf).head.receiver,
            final(buf).head.receiver_count == old(buf).head.receiver_count,
            final(buf).head.sender_count == old(buf).head.sender_count + 1,
            r matches Ok(half) ==> half.wf(final(buf)) && !half.sees_closed() && half.slack(
                final(buf),
            ) >= S::leeway(),
            r is Ok <==> !old(buf).head.sender.cache_taken() && !old(buf).head.is_closed(),
            r
                == Err::<Self, CacheError>(CacheError::NotAvailable)
                <==> old(buf).head.sender.cache_taken(),
            keeps(&old(buf).head.sender, &final(buf).head.sender),
    {
        proof {
            buf.head.lemma_bounds_open();
            lemma_capacity_divides_cycle(buf.size());
            lemma_room(buf.head.received(), buf.head.sent(), buf.size());
        }
        buf.head.sender_count = buf.head.sender_count + 1;
        let limit = head.limit(&buf.head.receiver);
        match buf.head.sender.cache(&limit) {
            Ok(cache) => Ok(Half { head, cache, closed_cache: false }),
            Err(e) => Err(e),
        }
    }

    /// Another sending endpoint on the same buffer, if the sequence gives
    /// one more cache.
    pub fn try_clone(&self, buf: &mut Buffer<Head<S, R>, T>) -> (r: Option<Self>)
        requires
            old(buf).wf(),
            self.wf(old(buf)),
            old(buf).head.sender_count <= MAX_HALF_COUNT,
        ensures
            final(buf).wf(),
            self.wf(final(buf)),
            final(buf).body == old(buf).body,
            final(buf).head.sender.published() == old(buf).head.sender.published(),
            final(buf).head.receiver == old(buf).head.receiver,
            final(buf).head.receiver_count == old(buf).head.receiver_count,
            final(buf).head.sender_count == old(buf).head.sender_count + 1,
            r matches Some(half) ==> half.wf(final(buf)) && !half.sees_closed() && half.slack(
                final(buf),
            ) >= S::leeway(),
            r is Some <==> !old(buf).head.sender.cache_taken() && !old(buf).head.is_closed(),
            keeps(&old(buf).head.sender, &final(buf).head.sender),
    {
        match Self::new(buf, self.head.clone()) {
            Ok(half) => Some(half),
            Err(_) => None,
        }
    }

    /// Whether the channel is closed.
    pub fn is_closed(&mut self, buf: &Buffer<Head<S, R>, T>) -> (closed: bool)
        requires
            buf.wf(),
            old(self).wf(buf),
        ensures
            final(self).wf(buf),
            final(self).slack(buf) >= old(self).slack(buf),
            closed == buf.head.is_closed(),
            final(self).sees_closed() == closed,
    {
        if self.closed_cache {
            return true;
        }
        proof {
            buf.head.sender.lemma_inv();
        }
        if buf.head.sender.counter().fetch().is_err() {
            proof {
                buf.head.sender.lemma_slack_bound(
                    &self.cache,
                    buf.head.received().plus(self.head.capacity),
                );
            }
            self.closed_cache = true;
            return true;
        }
        false
    }

    /// Closes the channel.
    pub fn close(&mut self, buf: &mut Buffer<Head<S, R>, T>)
        requires
            old(buf).wf(),
            old(self).wf(old(buf)),
        ensures
            final(buf).wf(),
            final(self).wf(final(buf)),
            final(self).slack(final(buf)) >= old(self).slack(old(buf)),
            final(self).sees_closed(),
            final(buf).head.is_closed(),
            final(buf).contents() == old(buf).contents(),
            final(buf).size() == old(buf).size(),
            final(buf).head.sent() == old(buf).head.sent(),
            final(buf).head.received() == old(buf).head.received(),
            final(buf).head.sender_count == old(buf).head.sender_count,
            final(buf).head.receiver_count == old(buf).head.receiver_count,
            final(buf).head.receiver == old(buf).head.receiver,
            keeps(&old(buf).head.sender, &final(buf).head.sender),
    {
        if self.closed_cache {
            return ;
        }
        proof {
            buf.head.sender.lemma_slack_bound(
                &self.cache,
                buf.head.received().plus(self.head.capacity),
            );
        }
        self.closed_cache = true;
        buf.head.close();
    }

    /// Hands `input` to the next free slot and publishes it.
    ///
    /// Fails with `Closed` where the channel is closed and with
    /// `BufferFull` where every slot is occupied; both hand `input` back
    /// and leave what the buffer holds as it was.
    pub fn try_advance(&mut self, buf: &mut Buffer<Head<S, R>, T>, input: T) -> (r: Result<
        (),
        AdvanceError<T>,
    >)
        requires
            old(buf).wf(),
            old(self).wf(old(buf)),
        ensures
            final(buf).wf(),
            final(self).wf(final(buf)),
            final(self).slack(final(buf)) >= S::leeway(),
            spares(
                &old(buf).head.sender,
                &final(buf).head.sender,
                old(buf).head.received().plus(old(buf).size() as usize),
            ),
            final(buf).size() == old(buf).size(),
            final(buf).head.receiver == old(buf).head.receiver,
            final(buf).head.is_closed() == old(buf).head.is_closed(),
            final(buf).head.sender_count == old(buf).head.sender_count,
            final(buf).head.receiver_count == old(buf).head.receiver_count,
            r is Ok <==> !old(buf).head.is_closed() && old(buf).len() < old(buf).size(),
            r is Ok ==> final(buf).contents() == old(buf).contents().push(input)
                && final(buf).head.sent() == old(buf).head.sent().plus(1),
            r is Err ==> final(buf).contents() == old(buf).contents() && final(buf).head.sent()
                == old(buf).head.sent(),
            r is Err ==> r == Err::<(), AdvanceError<T>>(
                if old(buf).head.is_closed() {
                    AdvanceError::Closed(input)
                } else {
                    AdvanceError::BufferFull(input)
                },
            ),
    {
        if self.closed_cache {
            return Err(AdvanceError::Closed(input));
        }
        let ghost start = buf.head.received();
        let ghost sent = buf.head.sent();
        let ghost len = buf.len();
        let ghost size = buf.size();
        let ghost slots = buf.body@;
        let ghost senders = buf.head.sender;
        proof {
            buf.head.lemma_bounds_open();
            buf.head.sender.lemma_inv();
            lemma_capacity_divides_cycle(size);
            lemma_room(start, sent, size);
            lemma_stretch(sent, start.plus(size as usize));
            assert forall|other: S::Cache| #[trigger]
                senders.slack(&other, start.plus(size as usize)) >= 1 implies S::leeway() >= 1 by {
                senders.lemma_slack_bound(&other, start.plus(size as usize));
            }
        }
        let limit = self.head.limit(&buf.head.receiver);
        match buf.head.sender.claim(&mut self.cache, &limit) {
            None => {
                if buf.head.sender.counter().fetch().is_err() {
                    Err(AdvanceError::Closed(input))
                } else {
                    Err(AdvanceError::BufferFull(input))
                }
            },
            Some(count) => {
                proof {
                    lemma_within(start, sent, count, size);
                    lemma_free_slot(slots, start, len, len + sent.ahead(count));
                }
                let slot = buf.get(count);
                Send::<T>::interact(slot, input);
                match buf.head.sender.commit(&mut self.cache, count) {
                    Ok(()) => {
                        proof {
                            lemma_stretch(start, sent);
                            lemma_stretch(sent, sent);
                            lemma_filled_push(slots, start, len, input);
                        }
                        Ok(())
                    },
                    Err(_) => {
                        self.closed_cache = true;
                        let slot = buf.get(count);
                        let input = Receive::<T>::interact(slot, ());
                        proof {
                            assert(buf.body@ =~= slots);
                        }
                        Err(AdvanceError::Closed(input))
                    },
                }
            },
        }
    }

    /// Gives the endpoint up. The last endpoint of its side to go closes
    /// the channel.
    pub fn release(self, buf: &mut Buffer<Head<S, R>, T>)
        requires
            old(buf).wf(),
            self.wf(old(buf)),
        ensures
            final(buf).wf(),
            final(buf).contents() == old(buf).contents(),
            final(buf).size() == old(buf).size(),
            final(buf).head.sent() == old(buf).head.sent(),
            final(buf).head.received() == old(buf).head.received(),
            final(buf).head.receiver_count == old(buf).head.receiver_count,
            final(buf).head.sender_count == if old(buf).head.sender_count == 0 {
                usize::MAX
            } else {
                (old(buf).head.sender_count - 1) as usize
            },
            final(buf).head.is_closed()
                == (old(buf).head.is_closed() || old(buf).head.sender_count == 1),
            final(buf).head.receiver == old(buf).head.receiver,
            keeps(&old(buf).head.sender, &final(buf).head.sender),
    {
        let mut this = self;
        let ref_count = buf.head.sender_count;
        buf.head.sender_count = ref_count.wrapping_sub(1);
        if ref_count == 1 {
            this.close(buf);
        }
    }
}

impl<S: Sequence, R: Sequence, T> Half<ReceiverHead<S, R, T>> {
    /// Whether the endpoint has seen the channel closed.
    pub closed spec fn sees_closed(&self) -> bool {
        self.closed_cache
    }

    /// The endpoint fits the buffer: its cache can claim against what the
    /// senders have published, and if it has seen the channel closed, the
    /// channel is closed.
    pub closed spec fn wf(&self, buf: &Buffer<Head<S, R>, T>) -> bool {
        &&& self.closed_cache ==> buf.head.is_closed()
        &&& buf.head.receiver.usable(&self.cache, buf.head.sent())
    }

    /// How many receives of other endpoints the endpoint can sit out and
    /// still fit the buffer.
    pub closed spec fn slack(&self, buf: &Buffer<Head<S, R>, T>) -> int {
        buf.head.receiver.slack(&self.cache, buf.head.sent())
    }

    /// An endpoint that fits a buffer fits the buffer after a step of
    /// another endpoint which has received nothing: the receivers'
    /// sequence serves the same caches and has published the same count,
    /// and the senders have sent one message or none.
    pub proof fn lemma_wf_follows(
        &self,
        before: &Buffer<Head<S, R>, T>,
        after: &Buffer<Head<S, R>, T>,
    )
        requires
            self.wf(before),
            before.wf(),
            after.wf(),
            after.size() == before.size(),
            after.head.received() == before.head.received(),
            before.head.is_closed() ==> after.head.is_closed(),
            keeps(&before.head.receiver, &after.head.receiver),
            after.head.sent() == before.head.sent() || after.head.sent()
                == before.head.sent().plus(1),
        ensures
            self.wf(after),
            self.slack(after) >= self.slack(before),
    {
        before.head.lemma_bounds_open();
        after.head.lemma_bounds_open();
        lemma_capacity_divides_cycle(before.size());
        lemma_stretch(before.head.received(), before.head.sent());
        after.head.receiver.lemma_limit_moves(&self.cache, before.head.sent(), after.head.sent());
    }

    /// No endpoint has more slack than the leeway of its side.
    pub proof fn lemma_slack_bound(&self, buf: &Buffer<Head<S, R>, T>)
        ensures
            self.slack(buf) <= R::leeway(),
    {
        buf.head.receiver.lemma_slack_bound(&self.cache, buf.head.sent());
    }

    /// An endpoint that fits a buffer and has a unit of slack fits the
    /// buffer after a step of another receiver, with at most one unit
    /// less.
    pub proof fn lemma_wf_lasts(
        &self,
        before: &Buffer<Head<S, R>, T>,
        after: &Buffer<Head<S, R>, T>,
    )
        requires
            self.wf(before),
            self.slack(before) >= 1,
            after.head.sent() == before.head.sent(),
            before.head.is_closed() ==> after.head.is_closed(),
            spares(&before.head.receiver, &after.head.receiver, before.head.sent()),
        ensures
            self.wf(after),
            self.slack(after) >= self.slack(before) - 1,
    {
    }

    /// A new receiving endpoint on `buf`.
    ///
    /// The endpoint is counted on the head whether or not it gets a
    /// cache.
    pub fn new(buf: &mut Buffer<Head<S, R>, T>, head: ReceiverHead<S, R, T>) -> (r: Result<
        Self,
        CacheError,
    >)
        requires
            old(buf).wf(),
            old(buf).head.receiver_count <= MAX_HALF_COUNT,
        ensures
            final(buf).wf(),
            final(buf).body == old(buf).body,
            final(buf).head.receiver.published() == old(buf).head.receiver.published(),
            final(buf).head.sender == old(buf).head.sender,
            final(buf).head.sender_count == old(buf).head.sender_count,
            final(buf).head.receiver_count == old(buf).head.receiver_count + 1,
            r matches Ok(half) ==> half.wf(final(buf)) && !half.sees_closed() && half.slack(
                final(buf),
            ) >= R::leeway(),
            r is Ok <==> !old(buf).head.receiver.cache_taken(),
            r is Err ==> r == Err::<Self, CacheError>(CacheError::NotAvailable),
            keeps(&old(buf).head.receiver, &final(buf).head.receiver),
    {
        proof {
            buf.head.lemma_bounds_open();
            lemma_capacity_divides_cycle(buf.size());
        }
        buf.head.receiver_count = buf.head.receiver_count + 1;
        let limit = head.limit(&buf.head.sender);
        match buf.head.receiver.cache(&limit) {
            Ok(cache) => Ok(Half { head, cache, closed_cache: false }),
            Err(e) => Err(e),
        }
    }

    /// Another receiving endpoint on the same buffer, if the sequence
    /// gives one more cache.
    pub fn try_clone(&self, buf: &mut Buffer<Head<S, R>, T>) -> (r: Option<Self>)
        requires
            old(buf).wf(),
            self.wf(old(buf)),
            old(buf).head.receiver_count <= MAX_HALF_COUNT,
        ensures
            final(buf).wf(),
            self.wf(final(buf)),
            final(buf).body == old(buf).body,
            final(buf).head.receiver.published() == old(buf).head.receiver.published(),
            final(buf).head.sender == old(buf).head.sender,
            final(buf).head.sender_count == old(buf).head.sender_count,
            final(buf).head.receiver_count == old(buf).head.receiver_count + 1,
            r matches Some(half) ==> half.wf(final(buf)) && !half.sees_closed() && half.slack(
                final(buf),
            ) >= R::leeway(),
            r is Some <==> !old(buf).head.receiver.cache_taken(),
            keeps(&old(buf).head.receiver, &final(buf).head.receiver),
    {
        match Self::new(buf, self.head.clone()) {
            Ok(half) => Some(half),
            Err(_) => None,
        }
    }

    /// Whether the channel is closed.
    pub fn is_closed(&mut self, buf: &Buffer<Head<S, R>, T>) -> (closed: bool)
        requires
            buf.wf(),
            old(self).wf(buf),
        ensures
            final(self).wf(buf),
            final(self).slack(buf) >= old(self).slack(buf),
            closed == buf.head.is_closed(),
            final(self).sees_closed() == closed,
    {
        if self.closed_cache {
            return true;
        }
        proof {
            buf.head.sender.lemma_inv();
        }
        if buf.head.sender.counter().fetch().is_err() {
            self.closed_cache = true;
            return true;
        }
        false
    }

    /// Closes the channel.
    pub fn close(&mut self, buf: &mut Buffer<Head<S, R>, T>)
        requires
            old(buf).wf(),
            old(self).wf(old(buf)),
        ensures
            final(buf).wf(),
            final(self).wf(final(buf)),
            final(self).slack(final(buf)) >= old(self).slack(old(buf)),
            final(self).sees_closed(),
            final(buf).head.is_closed(),
            final(buf).contents() == old(buf).contents(),
            final(buf).size() == old(buf).size(),
            final(buf).head.sent() == old(buf).head.sent(),
            final(buf).head.received() == old(buf).head.received(),
            final(buf).head.sender_count == old(buf).head.sender_count,
            final(buf).head.receiver_count == old(buf).head.receiver_count,
            final(buf).head.receiver == old(buf).head.receiver,
            keeps(&old(buf).head.sender, &final(buf).head.sender),
    {
        if self.closed_cache {
            return ;
        }
        self.closed_cache = true;
        buf.head.close();
    }

    /// Takes the value of the oldest occupied slot and publishes that the
    /// slot is free.
    ///
    /// Fails where no slot is occupied: with `Closed` where the channel
    /// is closed, with `BufferFull` where it is open.
    pub fn try_advance(&mut self, buf: &mut Buffer<Head<S, R>, T>, input: ()) -> (r: Result<
        T,
        AdvanceError<()>,
    >)
        requires
            old(buf).wf(),
            old(self).wf(old(buf)),
        ensures
            final(buf).wf(),
            final(self).wf(final(buf)),
            final(self).slack(final(buf)) >= R::leeway(),
            spares(&old(buf).head.receiver, &final(buf).head.receiver, old(buf).head.sent()),
            final(buf).size() == old(buf).size(),
            final(buf).head.sender == old(buf).head.sender,
            final(buf).head.sender_count == old(buf).head.sender_count,
            final(buf).head.receiver_count == old(buf).head.receiver_count,
            r is Ok <==> old(buf).len() > 0,
            r matches Ok(v) ==> v == old(buf).contents()[0]
                && final(buf).contents() == old(buf).contents().drop_first()
                && final(buf).head.received() == old(buf).head.received().plus(1),
            r is Err ==> final(buf).contents() == old(buf).contents()
                && final(buf).head.received() == old(buf).head.received(),
            r is Err ==> r == Err::<T, AdvanceError<()>>(
                if old(buf).head.is_closed() {
                    AdvanceError::Closed(())
                } else {
                    AdvanceError::BufferFull(())
                },
            ),
    {
        let ghost start = buf.head.received();
        let ghost sent = buf.head.sent();
        let ghost len = buf.len();
        let ghost size = buf.size();
        let ghost slots = buf.body@;
        let ghost receivers = buf.head.receiver;
        proof {
            buf.head.lemma_bounds_open();
            buf.head.sender.lemma_inv();
            lemma_capacity_divides_cycle(size);
            lemma_stretch(start, sent);
            assert forall|other: R::Cache| #[trigger]
                receivers.slack(&other, sent) >= 1 implies R::leeway() >= 1 by {
                receivers.lemma_slack_bound(&other, sent);
            }
        }
        let limit = self.head.limit(&buf.head.sender);
        match buf.head.receiver.claim(&mut self.cache, &limit) {
            None => {
                if buf.head.sender.counter().fetch().is_err() {
                    self.closed_cache = true;
                    Err(AdvanceError::Closed(()))
                } else {
                    Err(AdvanceError::BufferFull(()))
                }
            },
            Some(count) => {
                proof {
                    lemma_stretch(start, start);
                    lemma_filled_pop(slots, start, len);
                }
                let slot = buf.get(count);
                let res = Receive::<T>::interact(slot, ());
                match buf.head.receiver.commit(&mut self.cache, count) {
                    Ok(()) => Ok(res),
                    Err(_) => {
                        // The receivers' sequence is never closed.
                        self.closed_cache = true;
                        let slot = buf.get(count);
                        Send::<T>::interact(slot, res);
                        proof {
                            assert(buf.body@ =~= slots);
                        }
                        Err(AdvanceError::Closed(()))
                    },
                }
            },
        }
    }

    /// Gives the endpoint up. The last endpoint of its side to go closes
    /// the channel.
    pub fn release(self, buf: &mut Buffer<Head<S, R>, T>)
        requires
            old(buf).wf(),
            self.wf(old(buf)),
        ensures
            final(buf).wf(),
            final(buf).contents() == old(buf).contents(),
            final(buf).size() == old(buf).size(),
            final(buf).head.sent() == old(buf).head.sent(),
            final(buf).head.received() == old(buf).head.received(),
            final(buf).head.sender_count == old(buf).head.sender_count,
            final(buf).head.receiver_count == if old(buf).head.receiver_count == 0 {
                usize::MAX
            } else {
                (old(buf).head.receiver_count - 1) as usize
            },
            final(buf).head.is_closed()
                == (old(buf).head.is_closed() || old(buf).head.receiver_count == 1),
            final(buf).head.receiver == old(buf).head.receiver,
            keeps(&old(buf).head.sender, &final(buf).head.sender),
    {
        let mut this = self;
        let ref_count = buf.head.receiver_count;
        buf.head.receiver_count = ref_count.wrapping_sub(1);
        if ref_count == 1 {
            this.close(buf);
        }
    }
}

} // verus!
