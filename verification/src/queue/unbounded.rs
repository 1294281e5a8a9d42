//! The unbounded queue: a chain of segments that grows as it fills.
//!
//! A sender works on the last segment of the chain. Where that segment is
//! full it adds one of twice the capacity and goes on there; a segment
//! that its last sender has left is closed. A receiver drains the
//! segments in their order, and moves on from one that is empty and
//! closed.
//!
//! A send never fails on an open queue. A receive gets the oldest message
//! of the queue, or finds the receiver waiting at a segment: one that is
//! empty and still open, while a sender that has not moved on holds it,
//! or one on which it got no hold. Neither happens on a chain that is
//! [settled](Segments::settled) to a receiver that is
//! [unhindered](Receiver::unhindered), and then a receive fails only on
//! an open queue that holds nothing. A chain stays settled while a
//! [sole](Sender::sole) sender sends on it, and a receiver stays
//! unhindered while it alone receives.
use vstd::prelude::*;

use crate::buffer::Buffer;
use crate::counter::Counter;
use crate::queue::chain::{kept_for_receivers, kept_for_senders, pair, Chain, Segments};
use crate::queue::half::{AdvanceError, Half, MAX_HALF_COUNT};
use crate::queue::head::{Head, ReceiverHead, SenderHead};
use crate::role::Kind;
use crate::sequence::{keeps, spares, MultiCache, Sequence};

verus! {

/// The sending end of an unbounded queue.
pub struct Sender<S: Sequence, R: Sequence, T> {
    chain: Chain,
    half: Option<Half<SenderHead<S, R, T>>>,
}

/// The receiving end of an unbounded queue.
pub struct Receiver<S: Sequence, R: Sequence, T> {
    chain: Chain,
    half: Option<Half<ReceiverHead<S, R, T>>>,
}

/// The queue is closed; the message comes back.
#[derive(Debug, PartialEq, Eq)]
pub struct SendError<T>(pub T);

/// Nothing to receive yet, and the queue is still open.
#[derive(Debug, PartialEq, Eq, Structural)]
pub struct RecvError;

/// Creates an unbounded queue: its chain, one sender and one receiver.
/// The first segment is made by the first send.
pub fn queue<S: Sequence, R: Sequence, T>() -> (q: (
    Segments<S, R, T>,
    Sender<S, R, T>,
    Receiver<S, R, T>,
))
    ensures
        q.0.wf(),
        q.0.len() == 1,
        !q.0.is_closed(),
        q.0.contents() == Seq::<T>::empty(),
        q.0.sender_live == 1,
        q.0.receiver_live == 1,
        q.0.settled(),
        q.1.wf(&q.0),
        q.1.slack(&q.0) >= S::leeway(),
        q.1.sole(&q.0),
        q.2.wf(&q.0),
        q.2.slack(&q.0) >= R::leeway(),
        q.2.unhindered(&q.0),
{
    let (store, sender, receiver) = pair();
    proof {
        assert(store.queues() =~= Seq::<Seq<T>>::empty());
    }
    (store, Sender { chain: sender, half: None }, Receiver { chain: receiver, half: None })
}

/// Every segment of `after` is the segment of `before` as far as its
/// senders can tell, and the chain has the same nodes and is closed if it
/// was.
pub open spec fn senders_kept<S: Sequence, R: Sequence, T>(
    before: &Segments<S, R, T>,
    after: &Segments<S, R, T>,
) -> bool {
    &&& after.len() == before.len()
    &&& before.is_closed() ==> after.is_closed()
    &&& forall|i: int|
        1 <= i < before.len() ==> kept_for_senders(
            before.nodes@[i].buf->Some_0,
            (#[trigger] after.nodes@[i]).buf->Some_0,
        )
}

/// Every segment of `before` is in `after`, as far as its receivers can
/// tell, and the chain is closed if it was.
pub open spec fn receivers_kept<S: Sequence, R: Sequence, T>(
    before: &Segments<S, R, T>,
    after: &Segments<S, R, T>,
) -> bool {
    &&& after.len() >= before.len()
    &&& before.is_closed() ==> after.is_closed()
    &&& forall|i: int|
        1 <= i < before.len() ==> kept_for_receivers(
            before.nodes@[i].buf->Some_0,
            (#[trigger] after.nodes@[i]).buf->Some_0,
        )
}

/// The buffer `after` is the buffer `before` after one message was
/// received from it, as far as its senders can tell.
pub open spec fn taken_for_senders<S: Sequence, R: Sequence, T>(
    before: Buffer<Head<S, R>, T>,
    after: Buffer<Head<S, R>, T>,
) -> bool {
    &&& after.wf()
    &&& after.size() == before.size()
    &&& after.head.sent() == before.head.sent()
    &&& after.head.received() == before.head.received().plus(1)
    &&& before.head.is_closed() ==> after.head.is_closed()
    &&& keeps(&before.head.sender, &after.head.sender)
}

/// The chain `after` is the chain `before` after a step of a receiver:
/// each segment is as it was or has one message less, as far as its
/// senders can tell.
pub open spec fn senders_follow<S: Sequence, R: Sequence, T>(
    before: &Segments<S, R, T>,
    after: &Segments<S, R, T>,
) -> bool {
    &&& after.len() == before.len()
    &&& before.is_closed() ==> after.is_closed()
    &&& forall|i: int|
        1 <= i < before.len() ==> {
            ||| kept_for_senders(
                before.nodes@[i].buf->Some_0,
                (#[trigger] after.nodes@[i]).buf->Some_0,
            )
            ||| taken_for_senders(before.nodes@[i].buf->Some_0, after.nodes@[i].buf->Some_0)
        }
}

/// The buffer `after` is the buffer `before` after one message was sent
/// to it, as far as its receivers can tell.
pub open spec fn given_for_receivers<S: Sequence, R: Sequence, T>(
    before: Buffer<Head<S, R>, T>,
    after: Buffer<Head<S, R>, T>,
) -> bool {
    &&& after.wf()
    &&& after.size() == before.size()
    &&& after.head.sent() == before.head.sent().plus(1)
    &&& after.head.received() == before.head.received()
    &&& before.head.is_closed() ==> after.head.is_closed()
    &&& keeps(&before.head.receiver, &after.head.receiver)
}

/// The chain `after` is the chain `before` after a step of a sender:
/// each segment is as it was, except that the last one may have one
/// message more, as far as its receivers can tell; and segments may have
/// been added.
pub open spec fn receivers_follow<S: Sequence, R: Sequence, T>(
    before: &Segments<S, R, T>,
    after: &Segments<S, R, T>,
) -> bool {
    &&& after.len() >= before.len()
    &&& before.is_closed() ==> after.is_closed()
    &&& forall|i: int|
        1 <= i < before.len() ==> {
            ||| kept_for_receivers(
                before.nodes@[i].buf->Some_0,
                (#[trigger] after.nodes@[i]).buf->Some_0,
            )
            ||| i == before.len() - 1 && given_for_receivers(
                before.nodes@[i].buf->Some_0,
                after.nodes@[i].buf->Some_0,
            )
        }
}

/// The buffer `after` is the buffer `before` after a step of a sender,
/// as far as its other senders can tell: it is in order, with the same
/// size and as much received; it is closed if `before` is; and its
/// senders' sequence spares their caches.
pub open spec fn sent_for_senders<S: Sequence, R: Sequence, T>(
    before: Buffer<Head<S, R>, T>,
    after: Buffer<Head<S, R>, T>,
) -> bool {
    &&& after.wf()
    &&& after.size() == before.size()
    &&& after.head.received() == before.head.received()
    &&& before.head.is_closed() ==> after.head.is_closed()
    &&& spares(
        &before.head.sender,
        &after.head.sender,
        before.head.received().plus(before.size() as usize),
    )
}

/// The chain `after` is the chain `before` after a step of a sender, as
/// far as the other senders can tell; segments may have been added.
pub open spec fn senders_spared<S: Sequence, R: Sequence, T>(
    before: &Segments<S, R, T>,
    after: &Segments<S, R, T>,
) -> bool {
    &&& after.len() >= before.len()
    &&& before.is_closed() ==> after.is_closed()
    &&& forall|i: int|
        1 <= i < before.len() ==> sent_for_senders(
            before.nodes@[i].buf->Some_0,
            (#[trigger] after.nodes@[i]).buf->Some_0,
        )
}

/// The buffer `after` is the buffer `before` after a step of a receiver,
/// as far as its other receivers can tell: it is in order, with as much
/// sent; it is closed if `before` is, and empty if `before` is; and its
/// receivers' sequence spares their caches.
pub open spec fn received_for_receivers<S: Sequence, R: Sequence, T>(
    before: Buffer<Head<S, R>, T>,
    after: Buffer<Head<S, R>, T>,
) -> bool {
    &&& after.wf()
    &&& after.head.sent() == before.head.sent()
    &&& before.head.is_closed() ==> after.head.is_closed()
    &&& before@.queue.len() == 0 ==> after@.queue.len() == 0
    &&& spares(&before.head.receiver, &after.head.receiver, before.head.sent())
}

/// The chain `after` is the chain `before` after a step of a receiver,
/// as far as the other receivers can tell.
pub open spec fn receivers_spared<S: Sequence, R: Sequence, T>(
    before: &Segments<S, R, T>,
    after: &Segments<S, R, T>,
) -> bool {
    &&& after.len() == before.len()
    &&& before.is_closed() ==> after.is_closed()
    &&& forall|i: int|
        1 <= i < before.len() ==> received_for_receivers(
            before.nodes@[i].buf->Some_0,
            (#[trigger] after.nodes@[i]).buf->Some_0,
        )
}

/// Every sender that fits the chain `before` and has a unit of slack fits
/// the chain `after`, with at most one unit less.
pub open spec fn senders_last<S: Sequence, R: Sequence, T>(
    before: &Segments<S, R, T>,
    after: &Segments<S, R, T>,
) -> bool {
    forall|other: Sender<S, R, T>| #[trigger]
        other.wf(before) && other.slack(before) >= 1 ==> other.wf(after) && other.slack(after)
            >= other.slack(before) - 1
}

/// Every receiver that fits the chain `before` and has a unit of slack
/// fits the chain `after`, with at most one unit less.
pub open spec fn receivers_last<S: Sequence, R: Sequence, T>(
    before: &Segments<S, R, T>,
    after: &Segments<S, R, T>,
) -> bool {
    forall|other: Receiver<S, R, T>| #[trigger]
        other.wf(before) && other.slack(before) >= 1 ==> other.wf(after) && other.slack(after)
            >= other.slack(before) - 1
}

/// Senders with a unit of slack last through a step of another sender.
pub proof fn lemma_senders_last<S: Sequence, R: Sequence, T>(
    before: &Segments<S, R, T>,
    after: &Segments<S, R, T>,
)
    requires
        before.wf(),
        after.wf(),
        senders_spared(before, after),
    ensures
        senders_last(before, after),
{
    assert forall|other: Sender<S, R, T>| #[trigger]
        other.wf(before) && other.slack(before) >= 1 implies other.wf(after) && other.slack(after)
        >= other.slack(before) - 1 by {
        other.lemma_wf_lasts(before, after);
    }
}

/// Receivers with a unit of slack last through a step of another
/// receiver.
pub proof fn lemma_receivers_last<S: Sequence, R: Sequence, T>(
    before: &Segments<S, R, T>,
    after: &Segments<S, R, T>,
)
    requires
        before.wf(),
        after.wf(),
        receivers_spared(before, after),
    ensures
        receivers_last(before, after),
{
    assert forall|other: Receiver<S, R, T>| #[trigger]
        other.wf(before) && other.slack(before) >= 1 implies other.wf(after) && other.slack(after)
        >= other.slack(before) - 1 by {
        other.lemma_wf_lasts(before, after);
    }
}

/// Every sender that fits the chain `before` fits the chain `after`, with
/// no less slack.
pub open spec fn senders_stay<S: Sequence, R: Sequence, T>(
    before: &Segments<S, R, T>,
    after: &Segments<S, R, T>,
) -> bool {
    forall|other: Sender<S, R, T>| #[trigger]
        other.wf(before) ==> other.wf(after) && other.slack(after) >= other.slack(before)
}

/// Every receiver that fits the chain `before` fits the chain `after`,
/// with no less slack.
pub open spec fn receivers_stay<S: Sequence, R: Sequence, T>(
    before: &Segments<S, R, T>,
    after: &Segments<S, R, T>,
) -> bool {
    forall|other: Receiver<S, R, T>| #[trigger]
        other.wf(before) ==> other.wf(after) && other.slack(after) >= other.slack(before)
}

/// Senders stay through a step of a receiver.
pub proof fn lemma_senders_stay<S: Sequence, R: Sequence, T>(
    before: &Segments<S, R, T>,
    after: &Segments<S, R, T>,
)
    requires
        before.wf(),
        after.wf(),
        senders_follow(before, after),
    ensures
        senders_stay(before, after),
{
    assert forall|other: Sender<S, R, T>| #[trigger] other.wf(before) implies other.wf(after)
        && other.slack(after) >= other.slack(before) by {
        other.lemma_wf_follows(before, after);
    }
}

/// Receivers stay through a step of a sender.
pub proof fn lemma_receivers_stay<S: Sequence, R: Sequence, T>(
    before: &Segments<S, R, T>,
    after: &Segments<S, R, T>,
)
    requires
        before.wf(),
        after.wf(),
        receivers_follow(before, after),
    ensures
        receivers_stay(before, after),
{
    assert forall|other: Receiver<S, R, T>| #[trigger] other.wf(before) implies other.wf(after)
        && other.slack(after) >= other.slack(before) by {
        other.lemma_wf_follows(before, after);
    }
}

/// The segment has a hold to give to a receiver.
pub open spec fn free_to_hold<S: Sequence, R: Sequence, T>(seg: Buffer<Head<S, R>, T>) -> bool {
    seg.head.receiver_count <= MAX_HALF_COUNT && !seg.head.receiver.cache_taken()
}

/// The segment `after` has as many receivers as the segment `before`, and
/// a hold to give to one more if `before` has.
pub open spec fn holds_as_many<S: Sequence, R: Sequence, T>(
    before: Buffer<Head<S, R>, T>,
    after: Buffer<Head<S, R>, T>,
) -> bool {
    &&& after.head.receiver_count == before.head.receiver_count
    &&& after.head.receiver.cache_taken() == before.head.receiver.cache_taken()
}

/// A step of a sender leaves the receivers' side of every segment as it
/// was, and a segment that it adds has had no receiver yet.
pub open spec fn receivers_counted<S: Sequence, R: Sequence, T>(
    before: &Segments<S, R, T>,
    after: &Segments<S, R, T>,
) -> bool {
    &&& after.len() >= before.len()
    &&& forall|i: int|
        1 <= i < before.len() ==> holds_as_many(
            before.nodes@[i].buf->Some_0,
            (#[trigger] after.nodes@[i]).buf->Some_0,
        )
    &&& forall|i: int|
        before.len() <= i < after.len() ==> free_to_hold(
            (#[trigger] after.nodes@[i]).buf->Some_0,
        ) && after.nodes@[i].buf->Some_0.head.receiver_count == 0
}

/// A step of a receiver leaves the number of senders of every segment as
/// it was.
pub open spec fn senders_counted<S: Sequence, R: Sequence, T>(
    before: &Segments<S, R, T>,
    after: &Segments<S, R, T>,
) -> bool {
    &&& after.len() == before.len()
    &&& forall|i: int|
        1 <= i < after.len() ==> (#[trigger] after.nodes@[i]).buf->Some_0.head.sender_count
            == before.nodes@[i].buf->Some_0.head.sender_count
}

/// Every sender that is the sole one on the chain `before` is the sole
/// one on the chain `after`.
pub open spec fn sole_stays<S: Sequence, R: Sequence, T>(
    before: &Segments<S, R, T>,
    after: &Segments<S, R, T>,
) -> bool {
    forall|other: Sender<S, R, T>| #[trigger]
        other.sole(before) && other.wf(before) ==> other.sole(after)
}

/// Every receiver that is unhindered on the chain `before` is unhindered
/// on the chain `after`.
pub open spec fn unhindered_stay<S: Sequence, R: Sequence, T>(
    before: &Segments<S, R, T>,
    after: &Segments<S, R, T>,
) -> bool {
    forall|other: Receiver<S, R, T>| #[trigger]
        other.unhindered(before) && other.wf(before) ==> other.unhindered(after)
}

/// A sole sender stays one through a step of a receiver.
pub proof fn lemma_sole_stays<S: Sequence, R: Sequence, T>(
    before: &Segments<S, R, T>,
    after: &Segments<S, R, T>,
)
    requires
        senders_counted(before, after),
    ensures
        sole_stays(before, after),
{
    assert forall|other: Sender<S, R, T>| #[trigger]
        other.sole(before) && other.wf(before) implies other.sole(after) by {
        other.lemma_sole_follows(before, after);
    }
}

/// An unhindered receiver stays so through a step of a sender.
pub proof fn lemma_unhindered_stay<S: Sequence, R: Sequence, T>(
    before: &Segments<S, R, T>,
    after: &Segments<S, R, T>,
)
    requires
        receivers_counted(before, after),
    ensures
        unhindered_stay(before, after),
{
    assert forall|other: Receiver<S, R, T>| #[trigger]
        other.unhindered(before) && other.wf(before) implies other.unhindered(after) by {
        other.lemma_unhindered_follows(before, after);
    }
}

/// The chains differ in the node `at` alone.
pub open spec fn only_moved<S: Sequence, R: Sequence, T>(
    before: &Segments<S, R, T>,
    after: &Segments<S, R, T>,
    at: int,
) -> bool {
    &&& after.len() == before.len()
    &&& forall|i: int|
        0 <= i < before.len() && i != at ==> (#[trigger] after.nodes@[i]) == before.nodes@[i]
}

/// A step that changes the segment of one node, and nothing else, leaves
/// the chain in order: the other segments are what they were, and the
/// chain holds what it held, but for what that segment holds now.
proof fn lemma_one_segment_moved<S: Sequence, R: Sequence, T>(
    before: &Segments<S, R, T>,
    after: &Segments<S, R, T>,
    at: int,
)
    requires
        before.wf(),
        1 <= at < before.len(),
        after.nodes@.len() == before.nodes@.len(),
        forall|i: int|
            0 <= i < before.len() && i != at ==> (#[trigger] after.nodes@[i]) == before.nodes@[i],
        after.nodes@[at].next == before.nodes@[at].next,
        after.nodes@[at].buf is Some,
        after.nodes@[at].buf->Some_0.wf(),
    ensures
        after.wf(),
        after.is_closed() == before.is_closed(),
        after.queues() == before.queues().update(at - 1, after.nodes@[at].buf->Some_0@.queue),
        forall|i: int|
            1 <= i < before.len() && i != at ==> kept_for_senders(
                before.nodes@[i].buf->Some_0,
                (#[trigger] after.nodes@[i]).buf->Some_0,
            ) && kept_for_receivers(before.nodes@[i].buf->Some_0, after.nodes@[i].buf->Some_0),
{
    assert forall|i: int| 0 <= i < after.len() - 1 implies (#[trigger] after.nodes@[i]).next@
        is Holds && after.nodes@[i].next@->Holds_0 == i + 1 by {
        assert(before.nodes@[i].next@ is Holds);
    }
    assert forall|i: int| 1 <= i < after.len() implies (#[trigger] after.nodes@[i]).buf is Some
        && after.nodes@[i].buf->Some_0.wf() by {
        assert(before.nodes@[i].buf is Some);
    }
    assert(after.queues() =~= before.queues().update(at - 1, after.nodes@[at].buf->Some_0@.queue));
    assert forall|i: int| 1 <= i < before.len() && i != at implies kept_for_senders(
        before.nodes@[i].buf->Some_0,
        (#[trigger] after.nodes@[i]).buf->Some_0,
    ) && kept_for_receivers(before.nodes@[i].buf->Some_0, after.nodes@[i].buf->Some_0) by {
        assert(before.nodes@[i].buf is Some);
    }
}

/// A message added to the last segment is a message added to what the
/// chain holds.
pub proof fn lemma_push_last<T>(queues: Seq<Seq<T>>, msg: T)
    requires
        queues.len() > 0,
    ensures
        queues.update(queues.len() - 1, queues.last().push(msg)).flatten()
            == queues.flatten().push(msg),
{
    let grown = queues.update(queues.len() - 1, queues.last().push(msg));
    queues.lemma_flatten_and_flatten_alt_are_equivalent();
    grown.lemma_flatten_and_flatten_alt_are_equivalent();
    assert(grown.drop_last() =~= queues.drop_last());
    assert(grown.flatten_alt() =~= queues.flatten_alt().push(msg));
}

/// A message taken from the first segment that holds any is the first
/// message taken from what the chain holds.
pub proof fn lemma_pop_first<T>(queues: Seq<Seq<T>>, j: int)
    requires
        0 <= j < queues.len(),
        forall|i: int| 0 <= i < j ==> (#[trigger] queues[i]).len() == 0,
        queues[j].len() > 0,
    ensures
        queues.flatten().len() > 0,
        queues.flatten()[0] == queues[j][0],
        queues.update(j, queues[j].drop_first()).flatten() == queues.flatten().drop_first(),
    decreases j,
{
    let taken = queues.update(j, queues[j].drop_first());
    if j == 0 {
        assert(taken.drop_first() =~= queues.drop_first());
        assert(taken.flatten() =~= queues.flatten().drop_first());
    } else {
        let rest = queues.drop_first();
        assert forall|i: int| 0 <= i < j - 1 implies (#[trigger] rest[i]).len() == 0 by {
            assert(rest[i] == queues[i + 1]);
        }
        lemma_pop_first(rest, j - 1);
        assert(taken.drop_first() =~= rest.update(j - 1, rest[j - 1].drop_first()));
        assert(queues.flatten() =~= rest.flatten());
        assert(taken.flatten() =~= taken.drop_first().flatten());
    }
}

/// Segments that hold nothing make a chain that holds nothing.
pub proof fn lemma_all_drained<T>(queues: Seq<Seq<T>>)
    requires
        forall|i: int| 0 <= i < queues.len() ==> (#[trigger] queues[i]).len() == 0,
    ensures
        queues.flatten().len() == 0,
    decreases queues.len(),
{
    if queues.len() > 0 {
        let rest = queues.drop_first();
        assert forall|i: int| 0 <= i < rest.len() implies (#[trigger] rest[i]).len() == 0 by {
            assert(rest[i] == queues[i + 1]);
        }
        lemma_all_drained(rest);
    }
}

impl<S: Sequence, R: Sequence, T> Sender<S, R, T> {
    /// The sender stands in the chain, and where it has a hold on a
    /// segment, it is the segment at its node, which fits it.
    pub closed spec fn wf(&self, store: &Segments<S, R, T>) -> bool {
        &&& self.chain.wf(store)
        &&& self.chain.side() == Kind::Send
        &&& match self.half {
            Some(half) => self.chain.at() >= 1 && half.wf(
                &store.nodes@[self.chain.at()].buf->Some_0,
            ),
            None => true,
        }
    }

    /// How many sends of other senders the sender can sit out and still
    /// fit the chain.
    pub closed spec fn slack(&self, store: &Segments<S, R, T>) -> int {
        match self.half {
            Some(half) => half.slack(&store.nodes@[self.chain.at()].buf->Some_0),
            None => S::leeway(),
        }
    }

    /// The sender is the only one that has sent so far: it has the only
    /// hold on the last segment, or the chain has no segment yet.
    pub closed spec fn sole(&self, store: &Segments<S, R, T>) -> bool {
        ||| self.half is None && self.chain.at() == 0 && store.len() == 1
        ||| self.half is Some && self.chain.at() == store.len() - 1
            && store.nodes@[self.chain.at()].buf->Some_0.head.sender_count == 1
    }

    /// A sole sender is a sole sender after a step of a receiver.
    pub proof fn lemma_sole_follows(&self, before: &Segments<S, R, T>, after: &Segments<S, R, T>)
        requires
            self.wf(before),
            self.sole(before),
            senders_counted(before, after),
        ensures
            self.sole(after),
    {
        if self.half is Some {
            assert(after.nodes@[self.chain.at()].buf->Some_0.head.sender_count == 1);
        }
    }

    /// A sender that fits a chain fits it after a step of a receiver.
    pub proof fn lemma_wf_follows(&self, before: &Segments<S, R, T>, after: &Segments<S, R, T>)
        requires
            self.wf(before),
            before.wf(),
            after.wf(),
            senders_follow(before, after),
        ensures
            self.wf(after),
            self.slack(after) >= self.slack(before),
    {
        match self.half {
            Some(half) => {
                let at = self.chain.at();
                assert(before.nodes@[at].buf is Some);
                assert(after.nodes@[at].buf is Some);
                half.lemma_wf_follows(
                    &before.nodes@[at].buf->Some_0,
                    &after.nodes@[at].buf->Some_0,
                );
            },
            None => {},
        }
    }

    /// A sender that fits a chain and has a unit of slack fits it after a
    /// step of another sender, with at most one unit less.
    pub proof fn lemma_wf_lasts(&self, before: &Segments<S, R, T>, after: &Segments<S, R, T>)
        requires
            self.wf(before),
            self.slack(before) >= 1,
            before.wf(),
            after.wf(),
            senders_spared(before, after),
        ensures
            self.wf(after),
            self.slack(after) >= self.slack(before) - 1,
    {
        match self.half {
            Some(half) => {
                let at = self.chain.at();
                assert(before.nodes@[at].buf is Some);
                assert(after.nodes@[at].buf is Some);
                half.lemma_wf_lasts(
                    &before.nodes@[at].buf->Some_0,
                    &after.nodes@[at].buf->Some_0,
                );
            },
            None => {},
        }
    }

    /// Gives up the hold on the segment at which the sender stands.
    fn detach(&mut self, store: &mut Segments<S, R, T>)
        requires
            old(store).wf(),
            old(self).wf(old(store)),
        ensures
            final(store).wf(),
            final(self).wf(final(store)),
            final(self).half is None,
            final(self).slack(final(store)) >= old(self).slack(old(store)),
            only_moved(old(store), final(store), old(self).chain.at()),
            senders_kept(old(store), final(store)),
            receivers_kept(old(store), final(store)),
            receivers_counted(old(store), final(store)),
            old(self).half is Some ==> {
                let before = old(store).nodes@[old(self).chain.at()].buf->Some_0;
                let after = final(store).nodes@[old(self).chain.at()].buf->Some_0;
                after@.closed == (before@.closed || before.head.sender_count == 1)
            },
            final(self).chain == old(self).chain,
            final(store).len() == old(store).len(),
            final(store).queues() == old(store).queues(),
            final(store).is_closed() == old(store).is_closed(),
            final(store).sender_live == old(store).sender_live,
            final(store).receiver_live == old(store).receiver_live,
    {
        let at = self.chain.place();
        let ghost before = *store;
        if let Some(half) = self.half.take() {
            proof {
                half.lemma_slack_bound(&before.nodes@[at as int].buf->Some_0);
            }
            let node = &mut store.nodes[at];
            if let Some(seg) = &mut node.buf {
                half.release(seg);
            }
            proof {
                lemma_one_segment_moved(&before, store, at as int);
            }
        }
    }

    /// Hands `msg` to the segment on which the sender has a hold.
    fn offer(&mut self, store: &mut Segments<S, R, T>, msg: T) -> (r: Result<(), T>)
        requires
            old(store).wf(),
            old(self).wf(old(store)),
            old(self).half is Some,
        ensures
            final(store).wf(),
            final(self).wf(final(store)),
            final(self).half is Some,
            final(self).slack(final(store)) >= S::leeway(),
            only_moved(old(store), final(store), old(self).chain.at()),
            sent_for_senders(
                old(store).nodes@[old(self).chain.at()].buf->Some_0,
                final(store).nodes@[old(self).chain.at()].buf->Some_0,
            ),
            receivers_counted(old(store), final(store)),
            ({
                let before = old(store).nodes@[old(self).chain.at()].buf->Some_0;
                let after = final(store).nodes@[old(self).chain.at()].buf->Some_0;
                after@.closed == before@.closed && after.head.sender_count
                    == before.head.sender_count
            }),
            final(self).chain == old(self).chain,
            final(store).len() == old(store).len(),
            final(store).is_closed() == old(store).is_closed(),
            final(store).sender_live == old(store).sender_live,
            final(store).receiver_live == old(store).receiver_live,
            r is Ok <==> {
                let seg = old(store).nodes@[old(self).chain.at()].buf->Some_0;
                !seg@.closed && seg@.queue.len() < seg@.capacity
            },
            r is Ok ==> final(store).queues() == old(store).queues().update(
                old(self).chain.at() - 1,
                old(store).queues()[old(self).chain.at() - 1].push(msg),
            ),
            r matches Err(back) ==> back == msg && final(store).queues() == old(store).queues(),
            r is Err ==> receivers_kept(old(store), final(store)),
            forall|i: int|
                1 <= i < old(store).len() && i != old(self).chain.at() ==> kept_for_receivers(
                    old(store).nodes@[i].buf->Some_0,
                    (#[trigger] final(store).nodes@[i]).buf->Some_0,
                ),
            r is Ok ==> given_for_receivers(
                old(store).nodes@[old(self).chain.at()].buf->Some_0,
                final(store).nodes@[old(self).chain.at()].buf->Some_0,
            ),
    {
        let at = self.chain.place();
        let ghost before = *store;
        let mut answer: Result<(), T> = Err(msg);
        if let Some(mut half) = self.half.take() {
            let node = &mut store.nodes[at];
            if let Some(seg) = &mut node.buf {
                answer = match answer {
                    Err(msg) => match half.try_advance(seg, msg) {
                        Ok(()) => Ok(()),
                        Err(e) => Err(e.into_inner()),
                    },
                    Ok(()) => Ok(()),
                };
            }
            self.half = Some(half);
            proof {
                lemma_one_segment_moved(&before, store, at as int);
            }
        }
        answer
    }

    /// Takes a hold on the segment at which the sender stands, if the
    /// segment gives one.
    fn attach(&mut self, store: &mut Segments<S, R, T>) -> (ok: bool)
        requires
            old(store).wf(),
            old(self).wf(old(store)),
            old(self).half is None,
            old(self).chain.at() >= 1,
        ensures
            final(store).wf(),
            final(self).wf(final(store)),
            ok == final(self).half is Some,
            final(self).slack(final(store)) >= S::leeway(),
            only_moved(old(store), final(store), old(self).chain.at()),
            senders_kept(old(store), final(store)),
            receivers_kept(old(store), final(store)),
            receivers_counted(old(store), final(store)),
            ({
                let before = old(store).nodes@[old(self).chain.at()].buf->Some_0;
                let after = final(store).nodes@[old(self).chain.at()].buf->Some_0;
                after@.closed == before@.closed && (ok ==> after.head.sender_count
                    == before.head.sender_count + 1)
            }),
            final(self).chain == old(self).chain,
            final(store).len() == old(store).len(),
            final(store).is_closed() == old(store).is_closed(),
            final(store).sender_live == old(store).sender_live,
            final(store).receiver_live == old(store).receiver_live,
            final(store).queues() == old(store).queues(),
            final(store).nodes@[old(self).chain.at()].buf->Some_0@
                == old(store).nodes@[old(self).chain.at()].buf->Some_0@,
            ({
                let seg = old(store).nodes@[old(self).chain.at()].buf->Some_0;
                seg.head.sender_count <= MAX_HALF_COUNT && !seg.head.sender.cache_taken()
                    && !seg@.closed ==> ok
            }),
    {
        let at = self.chain.place();
        let ghost before = *store;
        let node = &mut store.nodes[at];
        if let Some(seg) = &mut node.buf {
            if seg.head.sender_count <= MAX_HALF_COUNT {
                let head = SenderHead::new(seg.capacity());
                match Half::<SenderHead<S, R, T>>::new(seg, head) {
                    Ok(half) => {
                        self.half = Some(half);
                    },
                    Err(_) => {},
                }
            }
        }
        proof {
            lemma_one_segment_moved(&before, store, at as int);
        }
        self.half.is_some()
    }

    /// Whether the queue is closed.
    pub fn is_closed(&mut self, store: &Segments<S, R, T>) -> (closed: bool)
        requires
            store.wf(),
            old(self).wf(store),
        ensures
            final(self).wf(store),
            final(self).slack(store) >= old(self).slack(store),
            closed == store.is_closed(),
            final(self).sole(store) == old(self).sole(store),
    {
        self.chain.is_closed(store)
    }
}

impl<S: Sequence, R: Sequence, T> Sender<S, R, T> {
    /// Sends `msg` unless the queue is closed.
    ///
    /// The sender works on the last segment, and goes on in a new one
    /// where the last one is full, is closed or gives it no hold.
    pub fn try_send(&mut self, store: &mut Segments<S, R, T>, msg: T) -> (r: Result<
        (),
        SendError<T>,
    >)
        requires
            old(store).wf(),
            old(self).wf(old(store)),
        ensures
            final(store).wf(),
            final(self).wf(final(store)),
            final(store).is_closed() == old(store).is_closed(),
            final(store).sender_live == old(store).sender_live,
            final(store).receiver_live == old(store).receiver_live,
            r matches Err(e) ==> e.0 == msg && final(store).contents() == old(store).contents(),
            r is Ok ==> final(store).contents() == old(store).contents().push(msg),
            r is Ok <==> !old(store).is_closed(),
            r is Ok ==> final(self).slack(final(store)) >= S::leeway(),
            r is Err ==> final(self).slack(final(store)) >= old(self).slack(old(store)),
            receivers_stay(old(store), final(store)),
            unhindered_stay(old(store), final(store)),
            senders_last(old(store), final(store)),
            old(self).sole(old(store)) ==> final(self).sole(final(store)),
            old(self).sole(old(store)) && old(store).settled() ==> final(store).settled(),
    {
        let ghost before = *store;
        let answer = self.deliver(store, msg);
        proof {
            lemma_receivers_stay(&before, store);
            lemma_unhindered_stay(&before, store);
            lemma_senders_last(&before, store);
        }
        answer
    }

    /// Sends `msg` unless the queue is closed: the steps of `try_send`.
    fn deliver(&mut self, store: &mut Segments<S, R, T>, msg: T) -> (r: Result<(), SendError<T>>)
        requires
            old(store).wf(),
            old(self).wf(old(store)),
        ensures
            final(store).wf(),
            final(self).wf(final(store)),
            final(store).is_closed() == old(store).is_closed(),
            final(store).sender_live == old(store).sender_live,
            final(store).receiver_live == old(store).receiver_live,
            r matches Err(e) ==> e.0 == msg && final(store).contents() == old(store).contents(),
            r is Ok ==> final(store).contents() == old(store).contents().push(msg),
            r is Ok <==> !old(store).is_closed(),
            r is Ok ==> final(self).slack(final(store)) >= S::leeway(),
            r is Err ==> final(self).slack(final(store)) >= old(self).slack(old(store)),
            receivers_follow(old(store), final(store)),
            receivers_counted(old(store), final(store)),
            senders_spared(old(store), final(store)),
            old(self).sole(old(store)) ==> final(self).sole(final(store)),
            old(self).sole(old(store)) && old(store).settled() ==> final(store).settled(),
    {
        // Sender should operate on the last segment of the chain.
        // If segment is changed, invalidate previous half.
        if self.chain.has_next(store) {
            self.detach(store);
            self.chain.goto_last(store);
        }
        if self.chain.is_closed(store) {
            return Err(SendError(msg));
        }
        let mut msg = msg;
        let mut grow = self.chain.place() == 0;
        // A segment that gives no hold is closed or has no cache to give:
        // the sender goes on in a new one.
        if !grow && self.half.is_none() && !self.attach(store) {
            grow = true;
        }
        let ghost start = *store;
        if self.half.is_some() {
            match self.offer(store, msg) {
                Ok(()) => {
                    proof {
                        lemma_push_last(start.queues(), msg);
                    }
                    return Ok(());
                },
                Err(back) => {
                    // Advance can fail in two reasons: segment closed or
                    // buffer full. Either way the sender goes on in a new
                    // segment.
                    msg = back;
                    self.detach(store);
                    grow = true;
                },
            }
        }
        let ghost tried = *store;
        // Initialize buffer if it's empty.
        if grow {
            self.chain.grow(store);
            proof {
                assert(store.queues() =~= tried.queues().push(Seq::<T>::empty()));
                tried.queues().lemma_flatten_push(Seq::<T>::empty());
                assert(tried.queues().flatten() + Seq::<T>::empty() =~= tried.queues().flatten());
            }
        }
        if self.chain.place() >= 1 && self.attach(store) {
            let ghost attached = *store;
            match self.offer(store, msg) {
                Ok(()) => {
                    proof {
                        lemma_push_last(attached.queues(), msg);
                    }
                    Ok(())
                },
                Err(back) => Err(SendError(back)),
            }
        } else {
            Err(SendError(msg))
        }
    }
}

impl<S: Sequence, R: Sequence, T> Sender<S, R, T> {
    /// Closes the queue: nothing more can be sent, and what the queue
    /// holds can still be received.
    pub fn close(&mut self, store: &mut Segments<S, R, T>)
        requires
            old(store).wf(),
            old(self).wf(old(store)),
        ensures
            final(store).wf(),
            final(self).wf(final(store)),
            final(self).slack(final(store)) >= old(self).slack(old(store)),
            final(store).is_closed(),
            final(store).len() == old(store).len(),
            final(store).contents() == old(store).contents(),
            final(store).sender_live == old(store).sender_live,
            final(store).receiver_live == old(store).receiver_live,
            receivers_stay(old(store), final(store)),
            senders_stay(old(store), final(store)),
            unhindered_stay(old(store), final(store)),
            old(store).settled() ==> final(store).settled(),
    {
        let ghost start = *store;
        self.detach(store);
        let ghost before = *store;
        self.chain.close(store);
        proof {
            assert(store.queues() =~= before.queues());
            assert(receivers_follow(&start, store));
            lemma_receivers_stay(&start, store);
            assert(senders_follow(&start, store));
            lemma_senders_stay(&start, store);
            lemma_unhindered_stay(&start, store);
        }
    }

    /// Gives the sender up. The last sender to go closes the queue.
    pub fn release(self, store: &mut Segments<S, R, T>)
        requires
            old(store).wf(),
            self.wf(old(store)),
        ensures
            final(store).wf(),
            final(store).len() == old(store).len(),
            final(store).contents() == old(store).contents(),
            final(store).is_closed() == (old(store).is_closed() || old(store).sender_live == 1),
            final(store).receiver_live == old(store).receiver_live,
            old(store).sender_live >= 1 ==> final(store).sender_live == old(store).sender_live
                - 1,
            receivers_stay(old(store), final(store)),
            senders_stay(old(store), final(store)),
            unhindered_stay(old(store), final(store)),
            old(store).settled() ==> final(store).settled(),
    {
        let ghost start = *store;
        let mut this = self;
        this.detach(store);
        let ghost before = *store;
        this.chain.release(store);
        proof {
            assert(store.queues() =~= before.queues());
            assert(receivers_follow(&start, store));
            lemma_receivers_stay(&start, store);
            assert(senders_follow(&start, store));
            lemma_senders_stay(&start, store);
            lemma_unhindered_stay(&start, store);
        }
    }
}

impl<S: MultiCache, R: Sequence, T> Sender<S, R, T> {
    /// One more sender on the same queue. It takes its hold on a segment
    /// with its first send.
    pub fn try_clone(&self, store: &mut Segments<S, R, T>) -> (twin: Self)
        requires
            old(store).wf(),
            self.wf(old(store)),
            old(store).sender_live <= isize::MAX,
        ensures
            final(store).wf(),
            self.wf(final(store)),
            twin.wf(final(store)),
            twin.slack(final(store)) >= S::leeway(),
            final(store).nodes == old(store).nodes,
            final(store).sender_live == old(store).sender_live + 1,
            final(store).receiver_live == old(store).receiver_live,
            senders_stay(old(store), final(store)),
            receivers_stay(old(store), final(store)),
            unhindered_stay(old(store), final(store)),
            sole_stays(old(store), final(store)),
    {
        let ghost start = *store;
        let answer = {
            Sender { chain: self.chain.duplicate(store), half: None }
        };
        proof {
            assert(senders_follow(&start, store));
            lemma_senders_stay(&start, store);
            assert(receivers_follow(&start, store));
            lemma_receivers_stay(&start, store);
            lemma_unhindered_stay(&start, store);
            lemma_sole_stays(&start, store);
        }
        answer
    }
}

impl<S: Sequence, R: Sequence, T> Receiver<S, R, T> {
    /// The receiver stands in the chain; the segments before its node are
    /// drained and closed; and where it has a hold on a segment, it is the
    /// segment at its node, which fits it.
    pub closed spec fn wf(&self, store: &Segments<S, R, T>) -> bool {
        &&& self.chain.wf(store)
        &&& self.chain.side() == Kind::Receive
        &&& forall|i: int|
            1 <= i < self.chain.at() ==> (#[trigger] store.nodes@[i]).buf->Some_0@.queue.len() == 0
                && store.nodes@[i].buf->Some_0@.closed
        &&& match self.half {
            Some(half) => self.chain.at() >= 1 && half.wf(
                &store.nodes@[self.chain.at()].buf->Some_0,
            ),
            None => true,
        }
    }

    /// A receiver that fits a chain fits it after a step of a sender.
    pub proof fn lemma_wf_follows(&self, before: &Segments<S, R, T>, after: &Segments<S, R, T>)
        requires
            self.wf(before),
            before.wf(),
            after.wf(),
            receivers_follow(before, after),
        ensures
            self.wf(after),
            self.slack(after) >= self.slack(before),
    {
        let at = self.chain.at();
        assert forall|i: int| 1 <= i < at implies (
        #[trigger] after.nodes@[i]).buf->Some_0@.queue.len() == 0
            && after.nodes@[i].buf->Some_0@.closed by {
            assert(before.nodes@[i].buf->Some_0@.queue.len() == 0);
        }
        match self.half {
            Some(half) => {
                assert(before.nodes@[at].buf is Some);
                assert(after.nodes@[at].buf is Some);
                half.lemma_wf_follows(
                    &before.nodes@[at].buf->Some_0,
                    &after.nodes@[at].buf->Some_0,
                );
            },
            None => {},
        }
    }

    /// No other receiver is in this one's way: each segment from its node
    /// on, on which it has no hold yet, has a hold to give.
    pub closed spec fn unhindered(&self, store: &Segments<S, R, T>) -> bool {
        forall|i: int|
            1 <= i < store.len() && self.chain.at() <= i && (i > self.chain.at() || self.half
                is None) ==> free_to_hold((#[trigger] store.nodes@[i]).buf->Some_0)
    }

    /// An unhindered receiver is unhindered after a step of a sender.
    pub proof fn lemma_unhindered_follows(
        &self,
        before: &Segments<S, R, T>,
        after: &Segments<S, R, T>,
    )
        requires
            self.wf(before),
            self.unhindered(before),
            receivers_counted(before, after),
        ensures
            self.unhindered(after),
    {
        assert forall|i: int|
            1 <= i < after.len() && self.chain.at() <= i && (i > self.chain.at() || self.half
                is None) implies free_to_hold((#[trigger] after.nodes@[i]).buf->Some_0) by {
            if i < before.len() {
                assert(free_to_hold(before.nodes@[i].buf->Some_0));
            }
        }
    }

    /// A receiver that fits a chain and has a unit of slack fits it after
    /// a step of another receiver, with at most one unit less.
    pub proof fn lemma_wf_lasts(&self, before: &Segments<S, R, T>, after: &Segments<S, R, T>)
        requires
            self.wf(before),
            self.slack(before) >= 1,
            before.wf(),
            after.wf(),
            receivers_spared(before, after),
        ensures
            self.wf(after),
            self.slack(after) >= self.slack(before) - 1,
    {
        let at = self.chain.at();
        assert forall|i: int| 1 <= i < at implies (
        #[trigger] after.nodes@[i]).buf->Some_0@.queue.len() == 0
            && after.nodes@[i].buf->Some_0@.closed by {
            assert(before.nodes@[i].buf->Some_0@.queue.len() == 0);
        }
        match self.half {
            Some(half) => {
                assert(before.nodes@[at].buf is Some);
                assert(after.nodes@[at].buf is Some);
                half.lemma_wf_lasts(
                    &before.nodes@[at].buf->Some_0,
                    &after.nodes@[at].buf->Some_0,
                );
            },
            None => {},
        }
    }

    /// Gives up the hold on the segment at which the receiver stands.
    fn detach(&mut self, store: &mut Segments<S, R, T>)
        requires
            old(store).wf(),
            old(self).wf(old(store)),
        ensures
            final(store).wf(),
            final(self).wf(final(store)),
            final(self).chain == old(self).chain,
            final(store).len() == old(store).len(),
            final(store).is_closed() == old(store).is_closed(),
            final(store).sender_live == old(store).sender_live,
            final(store).receiver_live == old(store).receiver_live,
            final(self).half is None,
            final(self).slack(final(store)) >= old(self).slack(old(store)),
            only_moved(old(store), final(store), old(self).chain.at()),
            senders_counted(old(store), final(store)),
            final(store).queues() == old(store).queues(),
            receivers_kept(old(store), final(store)),
            senders_kept(old(store), final(store)),
            old(self).chain.at() >= 1 ==> final(store).nodes@[old(self).chain.at()].buf->Some_0@
                == old(store).nodes@[old(self).chain.at()].buf->Some_0@.close()
                || final(store).nodes@[old(self).chain.at()].buf->Some_0@
                    == old(store).nodes@[old(self).chain.at()].buf->Some_0@,
    {
        let at = self.chain.place();
        let ghost before = *store;
        if let Some(half) = self.half.take() {
            proof {
                half.lemma_slack_bound(&before.nodes@[at as int].buf->Some_0);
            }
            let node = &mut store.nodes[at];
            if let Some(seg) = &mut node.buf {
                half.release(seg);
            }
            proof {
                lemma_one_segment_moved(&before, store, at as int);
            }
        }
    }

    /// Takes a hold on the segment at which the receiver stands, if the
    /// segment gives one.
    fn attach(&mut self, store: &mut Segments<S, R, T>) -> (ok: bool)
        requires
            old(store).wf(),
            old(self).wf(old(store)),
            old(self).half is None,
            old(self).chain.at() >= 1,
        ensures
            final(store).wf(),
            final(self).wf(final(store)),
            final(self).chain == old(self).chain,
            final(store).len() == old(store).len(),
            final(store).is_closed() == old(store).is_closed(),
            final(store).sender_live == old(store).sender_live,
            final(store).receiver_live == old(store).receiver_live,
            ok == final(self).half is Some,
            final(self).slack(final(store)) >= R::leeway(),
            only_moved(old(store), final(store), old(self).chain.at()),
            senders_counted(old(store), final(store)),
            receivers_kept(old(store), final(store)),
            final(store).queues() == old(store).queues(),
            senders_kept(old(store), final(store)),
            final(store).nodes@[old(self).chain.at()].buf->Some_0@
                == old(store).nodes@[old(self).chain.at()].buf->Some_0@,
            ({
                let seg = old(store).nodes@[old(self).chain.at()].buf->Some_0;
                seg.head.receiver_count <= MAX_HALF_COUNT && !seg.head.receiver.cache_taken()
                    ==> ok
            }),
    {
        let at = self.chain.place();
        let ghost before = *store;
        let node = &mut store.nodes[at];
        if let Some(seg) = &mut node.buf {
            if seg.head.receiver_count <= MAX_HALF_COUNT {
                match Half::<ReceiverHead<S, R, T>>::new(seg, ReceiverHead::new()) {
                    Ok(half) => {
                        self.half = Some(half);
                    },
                    Err(_) => {},
                }
            }
        }
        proof {
            lemma_one_segment_moved(&before, store, at as int);
        }
        self.half.is_some()
    }

    /// Takes the oldest message of the segment on which the receiver has
    /// a hold.
    fn take(&mut self, store: &mut Segments<S, R, T>) -> (r: Result<T, AdvanceError<()>>)
        requires
            old(store).wf(),
            old(self).wf(old(store)),
            old(self).half is Some,
        ensures
            final(store).wf(),
            final(self).wf(final(store)),
            final(self).chain == old(self).chain,
            final(store).len() == old(store).len(),
            final(store).is_closed() == old(store).is_closed(),
            final(store).sender_live == old(store).sender_live,
            final(store).receiver_live == old(store).receiver_live,
            final(self).half is Some,
            final(self).slack(final(store)) >= R::leeway(),
            only_moved(old(store), final(store), old(self).chain.at()),
            senders_counted(old(store), final(store)),
            received_for_receivers(
                old(store).nodes@[old(self).chain.at()].buf->Some_0,
                final(store).nodes@[old(self).chain.at()].buf->Some_0,
            ),
            r is Err ==> senders_kept(old(store), final(store)),
            forall|i: int|
                1 <= i < old(store).len() && i != old(self).chain.at() ==> kept_for_senders(
                    old(store).nodes@[i].buf->Some_0,
                    (#[trigger] final(store).nodes@[i]).buf->Some_0,
                ),
            r is Ok ==> {
                let before = old(store).nodes@[old(self).chain.at()].buf->Some_0;
                let after = final(store).nodes@[old(self).chain.at()].buf->Some_0;
                &&& after.size() == before.size()
                &&& after.head.sender == before.head.sender
                &&& after.head.received() == before.head.received().plus(1)
            },
            r is Ok <==> old(store).queues()[old(self).chain.at() - 1].len() > 0,
            r matches Ok(msg) ==> msg == old(store).queues()[old(self).chain.at() - 1][0]
                && final(store).queues() == old(store).queues().update(
                old(self).chain.at() - 1,
                old(store).queues()[old(self).chain.at() - 1].drop_first(),
            ),
            r is Err ==> final(store).queues() == old(store).queues() && r == Err::<
                T,
                AdvanceError<()>,
            >(
                if old(store).nodes@[old(self).chain.at()].buf->Some_0@.closed {
                    AdvanceError::Closed(())
                } else {
                    AdvanceError::BufferFull(())
                },
            ),
            final(store).nodes@[old(self).chain.at()].buf->Some_0@.closed
                == old(store).nodes@[old(self).chain.at()].buf->Some_0@.closed,
    {
        let at = self.chain.place();
        let ghost before = *store;
        let mut answer: Result<T, AdvanceError<()>> = Err(AdvanceError::BufferFull(()));
        if let Some(mut half) = self.half.take() {
            let node = &mut store.nodes[at];
            if let Some(seg) = &mut node.buf {
                answer = half.try_advance(seg, ());
            }
            self.half = Some(half);
            proof {
                lemma_one_segment_moved(&before, store, at as int);
            }
        }
        answer
    }

    /// Whether the queue is closed.
    pub fn is_closed(&mut self, store: &Segments<S, R, T>) -> (closed: bool)
        requires
            store.wf(),
            old(self).wf(store),
        ensures
            final(self).wf(store),
            final(self).slack(store) >= old(self).slack(store),
            closed == store.is_closed(),
            final(self).unhindered(store) == old(self).unhindered(store),
    {
        self.chain.is_closed(store)
    }
}

impl<S: Sequence, R: Sequence, T> Receiver<S, R, T> {
    /// Whether the receiver has a hold on a segment.
    pub closed spec fn is_attached(&self) -> bool {
        self.half is Some
    }

    /// How many receives of other receivers the receiver can sit out and
    /// still fit the chain.
    pub closed spec fn slack(&self, store: &Segments<S, R, T>) -> int {
        match self.half {
            Some(half) => half.slack(&store.nodes@[self.chain.at()].buf->Some_0),
            None => R::leeway(),
        }
    }

    /// The node at which the receiver stands.
    pub closed spec fn at(&self) -> int {
        self.chain.at()
    }

    /// Why the receiver got nothing from an open or undrained queue: no
    /// segment has been made yet; or the segment at which it stands gave
    /// it no hold; or that segment holds nothing, and is open or has no
    /// successor yet.
    pub open spec fn waits(&self, store: &Segments<S, R, T>) -> bool {
        ||| self.at() == 0 && store.len() == 1 && !store.is_closed()
        ||| self.at() >= 1 && !self.is_attached()
        ||| self.at() >= 1 && self.is_attached() && store.queues()[self.at() - 1].len() == 0 && (
        !store.nodes@[self.at()].buf->Some_0@.closed || (self.at() == store.len() - 1
            && !store.is_closed()))
    }

    /// Receives the oldest message of the queue.
    ///
    /// Segments that are drained and closed are left behind. `Ok(None)`
    /// is the answer of a closed queue that holds nothing more. An error
    /// says that the receiver waits; on a settled chain an unhindered
    /// receiver waits only while the queue is open and holds nothing.
    pub fn try_recv(&mut self, store: &mut Segments<S, R, T>) -> (r: Result<Option<T>, RecvError>)
        requires
            old(store).wf(),
            old(self).wf(old(store)),
        ensures
            final(store).wf(),
            final(self).wf(final(store)),
            final(store).len() == old(store).len(),
            final(store).is_closed() == old(store).is_closed(),
            final(store).sender_live == old(store).sender_live,
            final(store).receiver_live == old(store).receiver_live,
            r matches Ok(Some(msg)) ==> old(store).contents().len() > 0
                && msg == old(store).contents()[0]
                && final(store).contents() == old(store).contents().drop_first(),
            r matches Ok(None) ==> old(store).is_closed() && old(store).contents().len() == 0,
            !(r matches Ok(Some(_))) ==> final(store).contents() == old(store).contents(),
            r is Err ==> final(self).waits(final(store)),
            old(self).unhindered(old(store)) && old(store).settled() && r is Err
                ==> old(store).contents().len() == 0 && !old(store).is_closed(),
            old(self).unhindered(old(store)) ==> final(self).unhindered(final(store)),
            old(store).settled() ==> final(store).settled(),
            final(self).slack(final(store)) >= R::leeway(),
            senders_stay(old(store), final(store)),
            sole_stays(old(store), final(store)),
            receivers_last(old(store), final(store)),
    {
        let ghost before = *store;
        let answer = self.receive(store);
        proof {
            lemma_senders_stay(&before, store);
            lemma_sole_stays(&before, store);
            lemma_receivers_last(&before, store);
        }
        answer
    }

    /// Where the receiver stands at the last segment, which holds nothing,
    /// the chain holds nothing.
    proof fn lemma_nothing_left(&self, store: &Segments<S, R, T>)
        requires
            store.wf(),
            self.wf(store),
            1 <= self.chain.at() == store.len() - 1,
            store.nodes@[self.chain.at()].buf->Some_0@.queue.len() == 0,
        ensures
            store.contents().len() == 0,
    {
        assert forall|i: int| 0 <= i < store.queues().len() implies (
        #[trigger] store.queues()[i]).len() == 0 by {
            assert(store.nodes@[i + 1].buf->Some_0@.queue.len() == 0);
        }
        lemma_all_drained(store.queues());
    }

    /// Receives the oldest message of the queue: the steps of `try_recv`.
    fn receive(&mut self, store: &mut Segments<S, R, T>) -> (r: Result<Option<T>, RecvError>)
        requires
            old(store).wf(),
            old(self).wf(old(store)),
        ensures
            final(store).wf(),
            final(self).wf(final(store)),
            final(store).len() == old(store).len(),
            final(store).is_closed() == old(store).is_closed(),
            final(store).sender_live == old(store).sender_live,
            final(store).receiver_live == old(store).receiver_live,
            r matches Ok(Some(msg)) ==> old(store).contents().len() > 0
                && msg == old(store).contents()[0]
                && final(store).contents() == old(store).contents().drop_first(),
            r matches Ok(None) ==> old(store).is_closed() && old(store).contents().len() == 0,
            !(r matches Ok(Some(_))) ==> final(store).contents() == old(store).contents(),
            r is Err ==> final(self).waits(final(store)),
            final(self).slack(final(store)) >= R::leeway(),
            senders_follow(old(store), final(store)),
            senders_counted(old(store), final(store)),
            receivers_spared(old(store), final(store)),
            old(store).settled() ==> final(store).settled(),
            old(self).unhindered(old(store)) ==> final(self).unhindered(final(store)),
            old(self).unhindered(old(store)) && old(store).settled() && r is Err
                ==> old(store).contents().len() == 0 && !old(store).is_closed(),
    {
        loop
            invariant
                store.wf(),
                self.wf(store),
                store.len() == old(store).len(),
                store.is_closed() == old(store).is_closed(),
                store.sender_live == old(store).sender_live,
                store.receiver_live == old(store).receiver_live,
                store.queues() == old(store).queues(),
                senders_kept(old(store), store),
                receivers_spared(old(store), store),
                senders_counted(old(store), store),
                old(store).settled() ==> store.settled(),
                forall|i: int|
                    self.chain.at() <= i < store.len() ==> old(store).nodes@[i]
                        == #[trigger] store.nodes@[i],
                self.chain.at() >= old(self).chain.at(),
                self.half is None ==> self.chain.at() > old(self).chain.at() || old(self).half
                    is None,
            decreases store.len() - self.chain.at(),
        {
            if self.chain.place() == 0 {
                // Nothing ever sent from this channel
                if !self.chain.goto_next(store) {
                    proof {
                        assert(store.queues() =~= Seq::<Seq<T>>::empty());
                    }
                    return if self.chain.is_closed(store) {
                        Ok(None)
                    } else {
                        Err(RecvError)
                    };
                }
            }
            if self.half.is_none() && !self.attach(store) {
                return Err(RecvError);
            }
            let ghost before = *store;
            let ghost at = self.chain.at();
            proof {
                assert forall|i: int| 0 <= i < at - 1 implies (#[trigger] store.queues()[i]).len()
                    == 0 by {
                    assert(store.nodes@[i + 1].buf->Some_0@.queue.len() == 0);
                }
            }
            match self.take(store) {
                Ok(msg) => {
                    proof {
                        lemma_pop_first(before.queues(), at - 1);
                    }
                    return Ok(Some(msg));
                },
                Err(AdvanceError::BufferFull(())) => {
                    // The segment is empty but still open
                    proof {
                        if store.settled() {
                            // An open segment of a settled chain is the
                            // last one, and the chain is open.
                            assert(!store.nodes@[at].buf->Some_0@.closed);
                            self.lemma_nothing_left(store);
                        }
                    }
                    return Err(RecvError);
                },
                Err(AdvanceError::Closed(())) => {
                    if self.chain.has_next(store) {
                        // Now the queue is moved to next segment
                        self.detach(store);
                        let _ = self.chain.goto_next(store);
                    } else if self.chain.is_closed(store) {
                        proof {
                            self.lemma_nothing_left(store);
                        }
                        return Ok(None);
                    } else {
                        proof {
                            self.lemma_nothing_left(store);
                        }
                        return Err(RecvError);
                    }
                },
            }
        }
    }

    /// Closes the queue: nothing more can be sent, and what the queue
    /// holds can still be received.
    pub fn close(&mut self, store: &mut Segments<S, R, T>)
        requires
            old(store).wf(),
            old(self).wf(old(store)),
        ensures
            final(store).wf(),
            final(self).wf(final(store)),
            final(self).slack(final(store)) >= old(self).slack(old(store)),
            final(store).is_closed(),
            final(store).len() == old(store).len(),
            final(store).contents() == old(store).contents(),
            final(store).sender_live == old(store).sender_live,
            final(store).receiver_live == old(store).receiver_live,
            senders_stay(old(store), final(store)),
            receivers_stay(old(store), final(store)),
            old(self).unhindered(old(store)) ==> final(self).unhindered(final(store)),
            sole_stays(old(store), final(store)),
            old(store).settled() ==> final(store).settled(),
    {
        let ghost start = *store;
        let ghost before = *store;
        self.chain.close(store);
        proof {
            assert(store.queues() =~= before.queues());
            assert(senders_follow(&start, store));
            lemma_senders_stay(&start, store);
            assert(receivers_follow(&start, store));
            lemma_receivers_stay(&start, store);
            lemma_sole_stays(&start, store);
        }
    }

    /// Gives the receiver up. The last receiver to go closes the queue.
    pub fn release(self, store: &mut Segments<S, R, T>)
        requires
            old(store).wf(),
            self.wf(old(store)),
        ensures
            final(store).wf(),
            final(store).len() == old(store).len(),
            final(store).contents() == old(store).contents(),
            final(store).is_closed() == (old(store).is_closed() || old(store).receiver_live == 1),
            final(store).sender_live == old(store).sender_live,
            old(store).receiver_live >= 1 ==>
                final(store).receiver_live == old(store).receiver_live - 1,
            senders_stay(old(store), final(store)),
            receivers_stay(old(store), final(store)),
            sole_stays(old(store), final(store)),
            old(store).settled() ==> final(store).settled(),
    {
        let ghost start = *store;
        let mut this = self;
        this.detach(store);
        let ghost before = *store;
        this.chain.release(store);
        proof {
            assert(store.queues() =~= before.queues());
            assert(senders_follow(&start, store));
            lemma_senders_stay(&start, store);
            assert(receivers_follow(&start, store));
            lemma_receivers_stay(&start, store);
            lemma_sole_stays(&start, store);
        }
    }
}

impl<S: Sequence, R: MultiCache, T> Receiver<S, R, T> {
    /// One more receiver on the same queue. It takes its hold on a
    /// segment with its first receive.
    pub fn try_clone(&self, store: &mut Segments<S, R, T>) -> (twin: Self)
        requires
            old(store).wf(),
            self.wf(old(store)),
            old(store).receiver_live <= isize::MAX,
        ensures
            final(store).wf(),
            self.wf(final(store)),
            twin.wf(final(store)),
            twin.slack(final(store)) >= R::leeway(),
            final(store).nodes == old(store).nodes,
            final(store).sender_live == old(store).sender_live,
            final(store).receiver_live == old(store).receiver_live + 1,
            senders_stay(old(store), final(store)),
            receivers_stay(old(store), final(store)),
            unhindered_stay(old(store), final(store)),
            sole_stays(old(store), final(store)),
    {
        let ghost start = *store;
        let answer = {
            Receiver { chain: self.chain.duplicate(store), half: None }
        };
        proof {
            assert(senders_follow(&start, store));
            lemma_senders_stay(&start, store);
            assert(receivers_follow(&start, store));
            lemma_receivers_stay(&start, store);
            lemma_unhindered_stay(&start, store);
            lemma_sole_stays(&start, store);
        }
        answer
    }
}

} // verus!
