//! Blocking `send` and `recv` for parties that park themselves.
//!
//! A step tries the plain operation, wakes the parties of the other side
//! if they are parked, and where the operation made no progress puts the
//! caller on the list of its side, unless parties of the other side are
//! parked or being woken. It hands its host the parties to wake and tells
//! it whether to park. The lists are lock-free queues.
use vstd::prelude::*;

use crossbeam::sync::MsQueue;

use crate::blocker::state::{AtomicState, State};
use crate::buffer::Buffer;
use crate::queue::bounded::{
    receivers_last, receivers_stay, senders_last, senders_stay, Receiver, RecvError, SendError,
    Sender,
};
use crate::queue::head::Head;
use crate::sequence::Sequence;

verus! {

/// The lock-free queue in which a side lists its parked parties.
#[verifier::external_type_specification]
#[verifier::external_body]
#[verifier::reject_recursive_types(T)]
pub struct ExMsQueue<T>(MsQueue<T>);

/// The parties that a list holds, the one that was pushed first in front.
pub uninterp spec fn queued(list: MsQueue<usize>) -> Seq<usize>;

/// `MsQueue::new`: a list that holds nobody.
#[verifier::external_body]
fn list_new() -> (list: MsQueue<usize>)
    ensures
        queued(list) == Seq::<usize>::empty(),
{
    MsQueue::new()
}

/// `MsQueue::push`: the party is added at the back of the list. Nobody
/// blocks on these lists, so a push hands its value to no one.
#[verifier::external_body]
fn list_push(list: &mut MsQueue<usize>, party: usize)
    ensures
        queued(*final(list)) == queued(*old(list)).push(party),
{
    list.push(party)
}

/// `MsQueue::try_pop`: the party at the front leaves the list and is
/// returned; an empty list returns nothing and stays as it is.
#[verifier::external_body]
fn list_try_pop(list: &mut MsQueue<usize>) -> (party: Option<usize>)
    ensures
        queued(*old(list)).len() == 0 ==> party is None && queued(*final(list)) == queued(
            *old(list),
        ),
        queued(*old(list)).len() > 0 ==> party == Some(queued(*old(list))[0]) && queued(
            *final(list),
        ) == queued(*old(list)).drop_first(),
{
    list.try_pop()
}

/// What the parties of a blocking channel share besides the buffer.
pub struct Blocker {
    senders: MsQueue<usize>,
    receivers: MsQueue<usize>,
    state: AtomicState,
}

/// What a step tells its host to do after it has woken the parties that
/// the step names.
#[derive(Debug, PartialEq, Eq)]
pub enum Outcome<T, U> {
    /// The operation is done; this is its result.
    Done(U),
    /// The caller is on the list of its side: park, then try again with
    /// what comes back.
    Park(T),
    /// Try again at once with what comes back.
    Retry(T),
    /// The channel is closed; nothing more will be done.
    Closed(T),
}

impl Blocker {
    /// The shared state.
    pub closed spec fn state(&self) -> State {
        self.state@
    }

    /// The parked senders, the one that parked first in front.
    pub closed spec fn senders(&self) -> Seq<usize> {
        queued(self.senders)
    }

    /// The parked receivers, the one that parked first in front.
    pub closed spec fn receivers(&self) -> Seq<usize> {
        queued(self.receivers)
    }

    /// Between two steps the state is never locked.
    pub open spec fn wf(&self) -> bool {
        self.state() != State::Locked
    }

    /// A blocker with nobody parked.
    pub fn new() -> (blocker: Self)
        ensures
            blocker.wf(),
            blocker.state() == State::Neutral,
            blocker.senders() == Seq::<usize>::empty(),
            blocker.receivers() == Seq::<usize>::empty(),
    {
        Blocker { senders: list_new(), receivers: list_new(), state: AtomicState::new() }
    }
    /// Wakes the parked receivers, if the state says that receivers are
    /// parked: takes them all from their list, the one that parked first
    /// in front, and leaves the state neutral.
    fn wake_receivers(&mut self) -> (woken: Vec<usize>)
        requires
            old(self).wf(),
        ensures
            final(self).wf(),
            final(self).senders() == old(self).senders(),
            old(self).state() == State::BlockReceiver ==> woken@ == old(self).receivers()
                && final(self).receivers() == Seq::<usize>::empty()
                && final(self).state() == State::Neutral,
            old(self).state() != State::BlockReceiver ==> woken@ == Seq::<usize>::empty()
                && final(self).receivers() == old(self).receivers()
                && final(self).state() == old(self).state(),
    {
        let mut woken: Vec<usize> = Vec::new();
        let mut next_cond = State::BlockReceiver;
        let mut next_target = State::WakeReceiver;
        loop
            invariant_except_break
                self.wf(),
                next_cond == State::BlockReceiver || next_cond == State::WakeReceiver,
                next_cond == State::BlockReceiver ==> next_target == State::WakeReceiver
                    && self.state() == old(self).state() && woken@ == Seq::<usize>::empty()
                    && self.receivers() == old(self).receivers(),
                next_cond == State::WakeReceiver ==> next_target == State::Neutral && self.state()
                    == State::WakeReceiver && old(self).state() == State::BlockReceiver && woken@
                    == old(self).receivers() && self.receivers() == Seq::<usize>::empty(),
            invariant
                self.senders() == old(self).senders(),
            ensures
                self.wf(),
                self.senders() == old(self).senders(),
                old(self).state() == State::BlockReceiver ==> woken@ == old(self).receivers()
                    && self.receivers() == Seq::<usize>::empty() && self.state() == State::Neutral,
                old(self).state() != State::BlockReceiver ==> woken@ == Seq::<usize>::empty()
                    && self.receivers() == old(self).receivers()
                        && self.state() == old(self).state(),
            decreases
                    (if next_cond == State::BlockReceiver {
                        1int
                    } else {
                        0int
                    }),
        {
            let prev = self.state.transit(next_cond, next_target);
            match (next_cond, prev) {
                (State::BlockReceiver, State::BlockReceiver) => {
                    let ghost parked = self.receivers();
                    loop
                        invariant
                            woken@ + self.receivers() == parked,
                            self.state() == State::WakeReceiver,
                            self.senders() == old(self).senders(),
                        ensures
                            woken@ =~= parked,
                            self.receivers() =~= Seq::<usize>::empty(),
                            self.state() == State::WakeReceiver,
                            self.senders() == old(self).senders(),
                        decreases self.receivers().len(),
                    {
                        let ghost rest = self.receivers();
                        let ghost sofar = woken@;
                        match list_try_pop(&mut self.receivers) {
                            Some(blocked) => {
                                woken.push(blocked);
                                proof {
                                    assert(woken@ + self.receivers() =~= sofar + rest);
                                }
                            },
                            None => {
                                proof {
                                    assert(sofar + rest =~= sofar);
                                }
                                break ;
                            },
                        }
                    }
                    next_cond = State::WakeReceiver;
                    next_target = State::Neutral;
                },
                _ => {
                    break ;
                },
            }
        }
        woken
    }

    /// Puts the sender `me` on the list of parked senders, unless receivers
    /// are parked or being woken, and tells whether it did.
    fn park_sender(&mut self, me: usize) -> (parked: bool)
        requires
            old(self).wf(),
        ensures
            final(self).wf(),
            final(self).receivers() == old(self).receivers(),
            parked == !(old(self).state() == State::BlockReceiver || old(self).state()
                == State::WakeReceiver),
            parked ==> final(self).state() == State::BlockSender
                && final(self).senders() == old(self).senders().push(me),
            !parked ==> final(self).state() == old(self).state()
                && final(self).senders() == old(self).senders(),
    {
        let mut next_cond = State::Neutral;
        loop
            invariant
                self.wf(),
                self.state() == old(self).state(),
                self.senders() == old(self).senders(),
                self.receivers() == old(self).receivers(),
                next_cond == State::Neutral || next_cond == self.state(),
                next_cond == State::Neutral || next_cond == State::BlockSender || next_cond
                    == State::WakeSender,
            decreases
                    (if next_cond == self.state() {
                        0int
                    } else {
                        1int
                    }),
        {
            let prev = self.state.transit(next_cond, State::Locked);
            match prev {
                State::BlockReceiver | State::WakeReceiver => {
                    return false;
                },
                State::Locked => {
                    return false;
                },
                _ => {
                    if prev == next_cond {
                        list_push(&mut self.senders, me);
                        let locked = self.state.transit(State::Locked, State::BlockSender);
                        return true;
                    }
                    next_cond = prev;
                },
            }
        }
    }

    /// Wakes the parked senders, if the state says that senders are
    /// parked: takes them all from their list, the one that parked first
    /// in front, and leaves the state neutral.
    fn wake_senders(&mut self) -> (woken: Vec<usize>)
        requires
            old(self).wf(),
        ensures
            final(self).wf(),
            final(self).receivers() == old(self).receivers(),
            old(self).state() == State::BlockSender ==> woken@ == old(self).senders()
                && final(self).senders() == Seq::<usize>::empty()
                && final(self).state() == State::Neutral,
            old(self).state() != State::BlockSender ==> woken@ == Seq::<usize>::empty()
                && final(self).senders() == old(self).senders()
                && final(self).state() == old(self).state(),
    {
        let mut woken: Vec<usize> = Vec::new();
        let mut next_cond = State::BlockSender;
        let mut next_target = State::WakeSender;
        loop
            invariant_except_break
                self.wf(),
                next_cond == State::BlockSender || next_cond == State::WakeSender,
                next_cond == State::BlockSender ==> next_target == State::WakeSender
                    && self.state() == old(self).state() && woken@ == Seq::<usize>::empty()
                    && self.senders() == old(self).senders(),
                next_cond == State::WakeSender ==> next_target == State::Neutral && self.state()
                    == State::WakeSender && old(self).state() == State::BlockSender && woken@
                    == old(self).senders() && self.senders() == Seq::<usize>::empty(),
            invariant
                self.receivers() == old(self).receivers(),
            ensures
                self.wf(),
                self.receivers() == old(self).receivers(),
                old(self).state() == State::BlockSender ==> woken@ == old(self).senders()
                    && self.senders() == Seq::<usize>::empty() && self.state() == State::Neutral,
                old(self).state() != State::BlockSender ==> woken@ == Seq::<usize>::empty()
                    && self.senders() == old(self).senders() && self.state() == old(self).state(),
            decreases
                    (if next_cond == State::BlockSender {
                        1int
                    } else {
                        0int
                    }),
        {
            let prev = self.state.transit(next_cond, next_target);
            match (next_cond, prev) {
                (State::BlockSender, State::BlockSender) => {
                    let ghost parked = self.senders();
                    loop
                        invariant
                            woken@ + self.senders() == parked,
                            self.state() == State::WakeSender,
                            self.receivers() == old(self).receivers(),
                        ensures
                            woken@ =~= parked,
                            self.senders() =~= Seq::<usize>::empty(),
                            self.state() == State::WakeSender,
                            self.receivers() == old(self).receivers(),
                        decreases self.senders().len(),
                    {
                        let ghost rest = self.senders();
                        let ghost sofar = woken@;
                        match list_try_pop(&mut self.senders) {
                            Some(blocked) => {
                                woken.push(blocked);
                                proof {
                                    assert(woken@ + self.senders() =~= sofar + rest);
                                }
                            },
                            None => {
                                proof {
                                    assert(sofar + rest =~= sofar);
                                }
                                break ;
                            },
                        }
                    }
                    next_cond = State::WakeSender;
                    next_target = State::Neutral;
                },
                _ => {
                    break ;
                },
            }
        }
        woken
    }

    /// Puts the receiver `me` on the list of parked receivers, unless senders
    /// are parked or being woken, and tells whether it did.
    fn park_receiver(&mut self, me: usize) -> (parked: bool)
        requires
            old(self).wf(),
        ensures
            final(self).wf(),
            final(self).senders() == old(self).senders(),
            parked == !(old(self).state() == State::BlockSender || old(self).state()
                == State::WakeSender),
            parked ==> final(self).state() == State::BlockReceiver
                && final(self).receivers() == old(self).receivers().push(me),
            !parked ==> final(self).state() == old(self).state()
                && final(self).receivers() == old(self).receivers(),
    {
        let mut next_cond = State::Neutral;
        loop
            invariant
                self.wf(),
                self.state() == old(self).state(),
                self.receivers() == old(self).receivers(),
                self.senders() == old(self).senders(),
                next_cond == State::Neutral || next_cond == self.state(),
                next_cond == State::Neutral || next_cond == State::BlockReceiver || next_cond
                    == State::WakeReceiver,
            decreases
                    (if next_cond == self.state() {
                        0int
                    } else {
                        1int
                    }),
        {
            let prev = self.state.transit(next_cond, State::Locked);
            match prev {
                State::BlockSender | State::WakeSender => {
                    return false;
                },
                State::Locked => {
                    return false;
                },
                _ => {
                    if prev == next_cond {
                        list_push(&mut self.receivers, me);
                        let locked = self.state.transit(State::Locked, State::BlockReceiver);
                        return true;
                    }
                    next_cond = prev;
                },
            }
        }
    }

    /// One step of a blocking send by the party `me`.
    ///
    /// The step sends `msg` if the queue takes it. Whether or not it did,
    /// it wakes every parked receiver, which its host is told to wake. A
    /// message that a full queue did not take comes back: with the sender
    /// on the list of parked senders, or, where receivers are being
    /// woken, to be sent again at once.
    pub fn send<S: Sequence, R: Sequence, T>(
        &mut self,
        sender: &mut Sender<S, R, T>,
        buf: &mut Buffer<Head<S, R>, T>,
        msg: T,
        me: usize,
    ) -> (r: (Vec<usize>, Outcome<T, ()>))
        requires
            old(self).wf(),
            old(buf).wf(),
            old(sender).wf(old(buf)),
        ensures
            final(self).wf(),
            final(buf).wf(),
            final(sender).wf(final(buf)),
            final(sender).slack(final(buf)) >= S::leeway(),
            final(sender).is_attached() == old(sender).is_attached(),
            final(buf)@ == old(buf)@.send(msg).0,
            r.0@ == if old(self).state() == State::BlockReceiver {
                old(self).receivers()
            } else {
                Seq::<usize>::empty()
            },
            final(self).receivers() == if old(self).state() == State::BlockReceiver {
                Seq::<usize>::empty()
            } else {
                old(self).receivers()
            },
            r.1 == match old(buf)@.send(msg).1 {
                Ok(()) => Outcome::<T, ()>::Done(()),
                Err(SendError::Closed(back)) => Outcome::Closed(back),
                Err(SendError::BufferFull(back)) => if old(self).state() == State::WakeReceiver {
                    Outcome::Retry(back)
                } else {
                    Outcome::Park(back)
                },
            },
            final(self).senders() == if r.1 is Park {
                old(self).senders().push(me)
            } else {
                old(self).senders()
            },
            final(self).state() == if r.1 is Park {
                State::BlockSender
            } else if old(self).state() == State::BlockReceiver {
                State::Neutral
            } else {
                old(self).state()
            },
            senders_last(old(buf), final(buf)),
            receivers_stay(old(buf), final(buf)),
    {
        let res = sender.try_send(buf, msg);
        let woken = self.wake_receivers();
        match res {
            Ok(()) => (woken, Outcome::Done(())),
            Err(SendError::Closed(back)) => (woken, Outcome::Closed(back)),
            Err(SendError::BufferFull(back)) => {
                if self.park_sender(me) {
                    (woken, Outcome::Park(back))
                } else {
                    (woken, Outcome::Retry(back))
                }
            },
        }
    }

    /// One step of a blocking receive by the party `me`.
    ///
    /// The step takes the oldest message if there is one. Whether or not
    /// there was, it wakes every parked sender, which its host is told to
    /// wake. Where the queue held nothing and is open, the receiver is put
    /// on the list of parked receivers, or, where senders are being woken,
    /// told to receive again at once.
    pub fn recv<S: Sequence, R: Sequence, T>(
        &mut self,
        receiver: &mut Receiver<S, R, T>,
        buf: &mut Buffer<Head<S, R>, T>,
        me: usize,
    ) -> (r: (Vec<usize>, Outcome<(), T>))
        requires
            old(self).wf(),
            old(buf).wf(),
            old(receiver).wf(old(buf)),
        ensures
            final(self).wf(),
            final(buf).wf(),
            final(receiver).wf(final(buf)),
            final(receiver).slack(final(buf)) >= R::leeway(),
            final(buf)@ == old(buf)@.recv().0,
            r.0@ == if old(self).state() == State::BlockSender {
                old(self).senders()
            } else {
                Seq::<usize>::empty()
            },
            final(self).senders() == if old(self).state() == State::BlockSender {
                Seq::<usize>::empty()
            } else {
                old(self).senders()
            },
            r.1 == match old(buf)@.recv().1 {
                Ok(Some(msg)) => Outcome::<(), T>::Done(msg),
                Ok(None) => Outcome::Closed(()),
                Err(RecvError) => if old(self).state() == State::WakeSender {
                    Outcome::Retry(())
                } else {
                    Outcome::Park(())
                },
            },
            final(self).receivers() == if r.1 is Park {
                old(self).receivers().push(me)
            } else {
                old(self).receivers()
            },
            final(self).state() == if r.1 is Park {
                State::BlockReceiver
            } else if old(self).state() == State::BlockSender {
                State::Neutral
            } else {
                old(self).state()
            },
            senders_stay(old(buf), final(buf)),
            receivers_last(old(buf), final(buf)),
    {
        let res = receiver.try_recv(buf);
        let woken = self.wake_senders();
        match res {
            Ok(Some(msg)) => (woken, Outcome::Done(msg)),
            Ok(None) => (woken, Outcome::Closed(())),
            Err(_) => {
                if self.park_receiver(me) {
                    (woken, Outcome::Park(()))
                } else {
                    (woken, Outcome::Retry(()))
                }
            },
        }
    }
}

} // verus!
