//! Blocking `send` and `recv` on the bounded queue.
//!
//! Nothing in this module parks anyone. One step of `send` or `recv` tries
//! the plain operation and then tells its host what to do: wake the party
//! that the step took from the queue of parked parties, park the caller,
//! which the step has put into that queue, or try again. A host parks with
//! a primitive that returns at once where the wake came first.
use vstd::prelude::*;

use crate::buffer::Buffer;
use crate::queue::bounded::{
    receivers_last, receivers_stay, senders_last, senders_stay, Channel, Receiver, RecvError,
    SendError, Sender,
};
use crate::queue::head::Head;
use crate::role::{Kind, Receive, Send};
use crate::scheduler::{Notify, Queue, Scheduler, Waiter};
use crate::sequence::Sequence;

verus! {

/// What the endpoints of a blocking queue share besides the buffer: the
/// queue of parked parties.
#[derive(Debug)]
pub struct Blocking {
    pub queue: Queue,
}

/// What one step of `send` tells its host.
#[derive(Debug, PartialEq, Eq)]
pub enum SendStep<T> {
    /// The message is sent; wake the receiver that the handle names.
    Sent(Option<Notify>),
    /// The queue is full and the sender is parked: park, then send the
    /// message again.
    Parked(T),
    /// The queue is full, and receivers are parked: send the message
    /// again without parking.
    Retry(T),
    /// The queue is closed.
    Closed(T),
}

/// What one step of `recv` tells its host.
#[derive(Debug, PartialEq, Eq)]
pub enum RecvStep<T> {
    /// A message; wake the sender that the handle names.
    Received(T, Option<Notify>),
    /// The queue is empty and the receiver is parked: park, then receive
    /// again.
    Parked,
    /// The queue is empty, and senders are parked: receive again without
    /// parking.
    Retry,
    /// The queue is closed and drained.
    Ended,
}

/// A blocking queue as its users see it: the queue and the parked
/// parties, the one that parked first in front.
pub struct Parking<T> {
    pub channel: Channel<T>,
    pub waiting: Seq<Waiter>,
}

/// Whether a party of `role` is refused by the parked parties `waiting`.
pub open spec fn refused(waiting: Seq<Waiter>, role: Kind) -> bool {
    waiting.len() > 0 && waiting.last().role != role
}

/// The parked parties after the first one was taken, if it has `role`,
/// and the handle of the one taken.
pub open spec fn taken(waiting: Seq<Waiter>, role: Kind) -> (Seq<Waiter>, Option<Notify>) {
    if waiting.len() > 0 && waiting[0].role == role {
        (waiting.drop_first(), Some(waiting[0].notify))
    } else {
        (waiting, None)
    }
}

/// The handles of the parked parties `waiting`, in their order.
pub open spec fn handles(waiting: Seq<Waiter>) -> Seq<Notify> {
    Seq::new(waiting.len(), |i: int| waiting[i].notify)
}

/// The parked parties after all were taken, if they have `role`, and the
/// handles of those taken, the one that parked first in front. Parties of
/// the other role stay.
pub open spec fn taken_all(waiting: Seq<Waiter>, role: Kind) -> (Seq<Waiter>, Seq<Notify>) {
    if waiting.len() > 0 && waiting[0].role == role {
        (Seq::empty(), handles(waiting))
    } else {
        (waiting, Seq::empty())
    }
}

impl<T> Parking<T> {
    /// What one step of `send` makes of the queue and the parked parties,
    /// and what it tells its host.
    pub open spec fn send(self, msg: T, notify: Notify) -> (Parking<T>, SendStep<T>) {
        let (channel, answer) = self.channel.send(msg);
        match answer {
            Ok(()) => {
                let (waiting, woken) = taken(self.waiting, Kind::Receive);
                (Parking { channel, waiting }, SendStep::Sent(woken))
            },
            Err(SendError::Closed(back)) => (self, SendStep::Closed(back)),
            Err(SendError::BufferFull(back)) => if refused(self.waiting, Kind::Send) {
                (self, SendStep::Retry(back))
            } else {
                (
                    Parking {
                        channel,
                        waiting: self.waiting.push(Waiter { role: Kind::Send, notify }),
                    },
                    SendStep::Parked(back),
                )
            },
        }
    }

    /// What one step of `recv` makes of the queue and the parked parties,
    /// and what it tells its host.
    pub open spec fn recv(self, notify: Notify) -> (Parking<T>, RecvStep<T>) {
        let (channel, answer) = self.channel.recv();
        match answer {
            Ok(Some(msg)) => {
                let (waiting, woken) = taken(self.waiting, Kind::Send);
                (Parking { channel, waiting }, RecvStep::Received(msg, woken))
            },
            Ok(None) => (self, RecvStep::Ended),
            Err(RecvError) => if refused(self.waiting, Kind::Receive) {
                (self, RecvStep::Retry)
            } else {
                (
                    Parking {
                        channel,
                        waiting: self.waiting.push(Waiter { role: Kind::Receive, notify }),
                    },
                    RecvStep::Parked,
                )
            },
        }
    }
}

impl<T> Parking<T> {
    /// What closing makes of the queue and the parked parties, and whom
    /// it tells its host to wake: every parked party, the one that parked
    /// first in front.
    pub open spec fn close(self) -> (Parking<T>, Seq<Notify>) {
        (
            Parking { channel: self.channel.close(), waiting: Seq::empty() },
            handles(self.waiting),
        )
    }
}

impl Blocking {
    /// The shared part of a blocking queue, and a scheduler for its first
    /// sender and for its first receiver.
    pub fn create_triple() -> (t: (Blocking, Scheduler, Scheduler))
        ensures
            t.0.queue.wf(),
            t.0.queue@ == Seq::<Waiter>::empty(),
            t.1.is_restored(),
            t.2.is_restored(),
    {
        (Blocking { queue: Queue::new() }, Scheduler::new(), Scheduler::new())
    }

    /// Takes every parked party of `role` from the queue, and gives the
    /// handles that wake them, the one that parked first in front.
    pub fn wake_all(&mut self, role: Kind) -> (woken: Vec<Notify>)
        requires
            old(self).queue.wf(),
        ensures
            final(self).queue.wf(),
            (final(self).queue@, woken@) == taken_all(old(self).queue@, role),
    {
        let mut woken: Vec<Notify> = Vec::new();
        let ghost all = self.queue@;
        proof {
            self.queue.lemma_one_role();
            assert(all.len() > 0 && all[0].role == role ==> forall|i: int|
                0 <= i < all.len() ==> (#[trigger] all[i]).role == role);
        }
        loop
            invariant
                self.queue.wf(),
                all == old(self).queue@,
                woken@.len() + self.queue@.len() == all.len(),
                self.queue@ =~= all.subrange(woken@.len() as int, all.len() as int),
                forall|i: int| 0 <= i < woken@.len() ==> woken@[i] == (#[trigger] all[i]).notify,
                woken@.len() > 0 ==> all[0].role == role,
                all.len() > 0 && all[0].role == role ==> forall|i: int|
                    0 <= i < all.len() ==> (#[trigger] all[i]).role == role,
            ensures
                self.queue.wf(),
                woken@.len() + self.queue@.len() == all.len(),
                self.queue@ =~= all.subrange(woken@.len() as int, all.len() as int),
                forall|i: int| 0 <= i < woken@.len() ==> woken@[i] == (#[trigger] all[i]).notify,
                woken@.len() > 0 ==> all[0].role == role,
                !(self.queue@.len() > 0 && self.queue@[0].role == role),
            decreases self.queue@.len(),
        {
            match self.queue.pop(role) {
                Some(notify) => {
                    woken.push(notify);
                },
                None => {
                    break ;
                },
            }
        }
        proof {
            if all.len() > 0 && all[0].role == role {
                assert(woken@ =~= handles(all));
                assert(self.queue@ =~= Seq::<Waiter>::empty());
            } else {
                assert(woken@ =~= Seq::<Notify>::empty());
                assert(self.queue@ =~= all);
            }
        }
        woken
    }

    /// Takes every parked party from the queue, whatever its role, and
    /// gives the handles that wake them, the one that parked first in
    /// front.
    pub fn wake_everyone(&mut self) -> (woken: Vec<Notify>)
        requires
            old(self).queue.wf(),
        ensures
            final(self).queue.wf(),
            final(self).queue@ == Seq::<Waiter>::empty(),
            woken@ == handles(old(self).queue@),
    {
        let ghost all = self.queue@;
        let mut woken = self.wake_all(Kind::Send);
        let mut more = self.wake_all(Kind::Receive);
        woken.append(&mut more);
        proof {
            assert(woken@ =~= handles(all));
        }
        woken
    }
}

impl<S: Sequence, R: Sequence, T> Sender<S, R, T> {
    /// One step of a blocking send: sends `msg` if the queue takes it, and
    /// takes a parked receiver to wake; else parks the sender under
    /// `notify`, unless receivers are parked or the queue is closed.
    pub fn send(
        &mut self,
        buf: &mut Buffer<Head<S, R>, T>,
        ext: &mut Blocking,
        scheduler: &mut Scheduler,
        msg: T,
        notify: Notify,
    ) -> (step: SendStep<T>)
        requires
            old(buf).wf(),
            old(self).wf(old(buf)),
            old(ext).queue.wf(),
            old(scheduler).is_restored(),
        ensures
            final(buf).wf(),
            final(self).wf(final(buf)),
            final(self).slack(final(buf)) >= S::leeway(),
            final(self).is_attached() == old(self).is_attached(),
            final(ext).queue.wf(),
            (Parking { channel: final(buf)@, waiting: final(ext).queue@ }, step) == (Parking {
                channel: old(buf)@,
                waiting: old(ext).queue@,
            }).send(msg, notify),
            final(scheduler).is_restored() == !(step is Parked),
            final(buf).head.sender_count == old(buf).head.sender_count,
            final(buf).head.receiver_count == old(buf).head.receiver_count,
            senders_last(old(buf), final(buf)),
            receivers_stay(old(buf), final(buf)),
    {
        match self.try_send(buf, msg) {
            Ok(()) => SendStep::Sent(scheduler.pop_blocked::<Send<T>>(&mut ext.queue)),
            Err(SendError::Closed(back)) => SendStep::Closed(back),
            Err(SendError::BufferFull(back)) => {
                if scheduler.register::<Send<T>>(&mut ext.queue, notify) {
                    SendStep::Parked(back)
                } else {
                    SendStep::Retry(back)
                }
            },
        }
    }

    /// Closes the queue, and gives the handles of the parties to wake:
    /// every parked party.
    pub fn shut(&mut self, buf: &mut Buffer<Head<S, R>, T>, ext: &mut Blocking) -> (woken: Vec<
        Notify,
    >)
        requires
            old(buf).wf(),
            old(self).wf(old(buf)),
            old(ext).queue.wf(),
        ensures
            final(buf).wf(),
            final(self).wf(final(buf)),
            final(self).slack(final(buf)) >= old(self).slack(old(buf)),
            final(self).is_attached() == old(self).is_attached(),
            final(ext).queue.wf(),
            (Parking { channel: final(buf)@, waiting: final(ext).queue@ }, woken@) == (Parking {
                channel: old(buf)@,
                waiting: old(ext).queue@,
            }).close(),
            final(buf).head.sender_count == old(buf).head.sender_count,
            final(buf).head.receiver_count == old(buf).head.receiver_count,
            senders_stay(old(buf), final(buf)),
            receivers_stay(old(buf), final(buf)),
    {
        self.close(buf);
        ext.wake_everyone()
    }

    /// Gives the sender up, and gives the handles of the parties to wake:
    /// the last sender to go closes the queue and wakes every parked
    /// receiver.
    pub fn leave(self, buf: &mut Buffer<Head<S, R>, T>, ext: &mut Blocking) -> (woken: Vec<Notify>)
        requires
            old(buf).wf(),
            self.wf(old(buf)),
            old(ext).queue.wf(),
        ensures
            final(buf).wf(),
            final(ext).queue.wf(),
            final(buf)@.queue == old(buf)@.queue,
            final(buf)@.capacity == old(buf)@.capacity,
            final(buf)@.closed
                == (old(buf)@.closed || (self.is_attached() && old(buf).head.sender_count == 1)),
            (final(ext).queue@, woken@) == if final(buf)@.closed {
                taken_all(old(ext).queue@, Kind::Receive)
            } else {
                (old(ext).queue@, Seq::<Notify>::empty())
            },
            senders_stay(old(buf), final(buf)),
            receivers_stay(old(buf), final(buf)),
    {
        self.release(buf);
        if buf.head.closed() {
            ext.wake_all(Kind::Receive)
        } else {
            Vec::new()
        }
    }
}

impl<S: Sequence, R: Sequence, T> Receiver<S, R, T> {
    /// One step of a blocking receive: takes the oldest message, and a
    /// parked sender to wake; where there is no message, ends if the queue
    /// is closed, and else parks the receiver under `notify`, unless
    /// senders are parked.
    pub fn recv(
        &mut self,
        buf: &mut Buffer<Head<S, R>, T>,
        ext: &mut Blocking,
        scheduler: &mut Scheduler,
        notify: Notify,
    ) -> (step: RecvStep<T>)
        requires
            old(buf).wf(),
            old(self).wf(old(buf)),
            old(ext).queue.wf(),
            old(scheduler).is_restored(),
        ensures
            final(buf).wf(),
            final(self).wf(final(buf)),
            final(self).slack(final(buf)) >= R::leeway(),
            final(ext).queue.wf(),
            (Parking { channel: final(buf)@, waiting: final(ext).queue@ }, step) == (Parking {
                channel: old(buf)@,
                waiting: old(ext).queue@,
            }).recv(notify),
            final(scheduler).is_restored() == !(step is Parked),
            final(buf).head.sender_count == old(buf).head.sender_count,
            final(buf).head.receiver_count == old(buf).head.receiver_count,
            senders_stay(old(buf), final(buf)),
            receivers_last(old(buf), final(buf)),
    {
        match self.try_recv(buf) {
            Ok(Some(msg)) => RecvStep::Received(
                msg,
                scheduler.pop_blocked::<Receive<T>>(&mut ext.queue),
            ),
            Ok(None) => RecvStep::Ended,
            Err(_) => {
                if scheduler.register::<Receive<T>>(&mut ext.queue, notify) {
                    RecvStep::Parked
                } else {
                    RecvStep::Retry
                }
            },
        }
    }

    /// Closes the queue, and gives the handles of the parties to wake:
    /// every parked party.
    pub fn shut(&mut self, buf: &mut Buffer<Head<S, R>, T>, ext: &mut Blocking) -> (woken: Vec<
        Notify,
    >)
        requires
            old(buf).wf(),
            old(self).wf(old(buf)),
            old(ext).queue.wf(),
        ensures
            final(buf).wf(),
            final(self).wf(final(buf)),
            final(self).slack(final(buf)) >= old(self).slack(old(buf)),
            final(ext).queue.wf(),
            (Parking { channel: final(buf)@, waiting: final(ext).queue@ }, woken@) == (Parking {
                channel: old(buf)@,
                waiting: old(ext).queue@,
            }).close(),
            final(buf).head.sender_count == old(buf).head.sender_count,
            final(buf).head.receiver_count == old(buf).head.receiver_count,
            senders_stay(old(buf), final(buf)),
            receivers_stay(old(buf), final(buf)),
    {
        self.close(buf);
        ext.wake_everyone()
    }

    /// Gives the receiver up, and gives the handles of the parties to
    /// wake: the last receiver to go closes the queue and wakes every
    /// parked sender.
    pub fn leave(self, buf: &mut Buffer<Head<S, R>, T>, ext: &mut Blocking) -> (woken: Vec<Notify>)
        requires
            old(buf).wf(),
            self.wf(old(buf)),
            old(ext).queue.wf(),
        ensures
            final(buf).wf(),
            final(ext).queue.wf(),
            final(buf)@.queue == old(buf)@.queue,
            final(buf)@.capacity == old(buf)@.capacity,
            final(buf)@.closed == (old(buf)@.closed || old(buf).head.receiver_count == 1),
            (final(ext).queue@, woken@) == if final(buf)@.closed {
                taken_all(old(ext).queue@, Kind::Send)
            } else {
                (old(ext).queue@, Seq::<Notify>::empty())
            },
            senders_stay(old(buf), final(buf)),
            receivers_stay(old(buf), final(buf)),
    {
        self.release(buf);
        if buf.head.closed() {
            ext.wake_all(Kind::Send)
        } else {
            Vec::new()
        }
    }
}

/// No wake is lost: on an empty open queue with nobody parked, a send and
/// a receive lead to the message being received, whichever step comes
/// first. If the receiver comes first it parks, the send takes it from
/// the parked parties and names it to be woken, and its next step
/// receives the message.
pub proof fn lemma_no_lost_wakeup<T>(start: Parking<T>, msg: T, sender: Notify, receiver: Notify)
    requires
        start.channel.queue.len() == 0,
        !start.channel.closed,
        start.channel.capacity > 0,
        start.waiting.len() == 0,
    ensures
        ({
            let (parked, first) = start.recv(receiver);
            let (sent, second) = parked.send(msg, sender);
            let (done, third) = sent.recv(receiver);
            &&& first == RecvStep::<T>::Parked
            &&& second == SendStep::<T>::Sent(Some(receiver))
            &&& third == RecvStep::Received(msg, None)
            &&& done.waiting.len() == 0
            &&& done.channel.queue.len() == 0
        }),
        ({
            let (sent, first) = start.send(msg, sender);
            let (done, second) = sent.recv(receiver);
            &&& first == SendStep::<T>::Sent(None)
            &&& second == RecvStep::Received(msg, None)
            &&& done.waiting.len() == 0
            &&& done.channel.queue.len() == 0
        }),
{
    let (parked, first) = start.recv(receiver);
    assert(parked.waiting =~= seq![Waiter { role: Kind::Receive, notify: receiver }]);
    let (sent, second) = parked.send(msg, sender);
    assert(sent.channel.queue =~= seq![msg]);
    assert(sent.waiting =~= Seq::<Waiter>::empty());
    let (done, third) = sent.recv(receiver);
    assert(done.channel.queue =~= Seq::<T>::empty());
    let (sent2, first2) = start.send(msg, sender);
    assert(sent2.channel.queue =~= seq![msg]);
    let (done2, second2) = sent2.recv(receiver);
    assert(done2.channel.queue =~= Seq::<T>::empty());
}

/// Closing wakes all: it leaves nobody parked, hands out the handle of
/// every party that was, and leaves a closed queue with the messages
/// that it held.
pub proof fn lemma_close_wakes_all<T>(state: Parking<T>)
    ensures
        state.close().0.waiting.len() == 0,
        state.close().0.channel.closed,
        state.close().0.channel.queue == state.channel.queue,
        state.close().1.len() == state.waiting.len(),
        forall|i: int|
            0 <= i < state.waiting.len() ==> state.close().1[i] == (#[trigger] state.waiting[i])
                .notify,
{
}

/// On a closed queue nobody parks: a send is told that the queue is
/// closed, and a receive gets a message or, once the queue is drained, is
/// told that it has ended. So a party that was woken because the queue
/// was closed comes back within as many steps as the queue holds
/// messages, and one more.
pub proof fn lemma_closed_never_parks<T>(state: Parking<T>, msg: T, notify: Notify)
    requires
        state.channel.closed,
    ensures
        state.send(msg, notify).1 == SendStep::Closed(msg),
        state.send(msg, notify).0 == state,
        state.recv(notify).1 is Received || state.recv(notify).1 is Ended,
        state.recv(notify).1 is Ended <==> state.channel.queue.len() == 0,
        state.recv(notify).0.channel.closed,
        state.recv(notify).1 is Received ==> state.recv(notify).0.channel.queue.len()
            == state.channel.queue.len() - 1,
{
}

} // verus!
