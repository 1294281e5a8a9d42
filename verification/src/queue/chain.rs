//! The chain of segments of an unbounded queue.
//!
//! The chain starts with a node that has no buffer. Every further node
//! holds one buffer, a segment. A node's link leads to the next node, or
//! is closed: then no node will follow. The endpoints hold places in the
//! chain, and move forward only.
use vstd::prelude::*;

use crate::buffer::{capacity_ok, valid_capacity, Buffer};
use crate::counter::Counter;
use crate::queue::bounded::segment;
use crate::queue::atomic::{AtomicArc, AtomicState};
use crate::queue::head::Head;
use crate::role::Kind;
use crate::sequence::{keeps, Sequence};

verus! {

/// The buffer `after` is the buffer `before` as far as its senders can
/// tell: it is in order, with the same size and the same counts; it is
/// closed if `before` is; and its senders' sequence serves the same
/// caches.
pub open spec fn kept_for_senders<S: Sequence, R: Sequence, T>(
    before: Buffer<Head<S, R>, T>,
    after: Buffer<Head<S, R>, T>,
) -> bool {
    &&& after.wf()
    &&& after.size() == before.size()
    &&& after.head.sent() == before.head.sent()
    &&& after.head.received() == before.head.received()
    &&& before.head.is_closed() ==> after.head.is_closed()
    &&& keeps(&before.head.sender, &after.head.sender)
}

/// The buffer `after` is the buffer `before` as far as its receivers can
/// tell: it is in order, with the same size, the same counts and the
/// same messages; it is closed if `before` is; and its receivers'
/// sequence serves the same caches.
pub open spec fn kept_for_receivers<S: Sequence, R: Sequence, T>(
    before: Buffer<Head<S, R>, T>,
    after: Buffer<Head<S, R>, T>,
) -> bool {
    &&& after.wf()
    &&& after.size() == before.size()
    &&& after.head.sent() == before.head.sent()
    &&& after.head.received() == before.head.received()
    &&& after@.queue == before@.queue
    &&& before.head.is_closed() ==> after.head.is_closed()
    &&& keeps(&before.head.receiver, &after.head.receiver)
}

/// One node of a chain: its segment, if it is not the first node, and the
/// link to the next node.
pub struct Inner<S: Sequence, R: Sequence, T> {
    pub buf: Option<Buffer<Head<S, R>, T>>,
    pub next: AtomicArc,
}

/// The nodes of a chain, in their order, and the numbers of live
/// endpoints on each side.
pub struct Segments<S: Sequence, R: Sequence, T> {
    pub nodes: Vec<Inner<S, R, T>>,
    pub sender_live: usize,
    pub receiver_live: usize,
}

/// An endpoint's place in a chain.
#[derive(Debug)]
pub struct Chain {
    inner: usize,
    kind: Kind,
    cache_closed: bool,
}

impl<S: Sequence, R: Sequence, T> Segments<S, R, T> {
    /// The number of nodes.
    pub open spec fn len(&self) -> int {
        self.nodes@.len() as int
    }

    /// Whether the chain is closed: its last link is.
    pub open spec fn is_closed(&self) -> bool {
        self.nodes@.last().next@ == AtomicState::Closed
    }

    /// What the segments hold, segment by segment.
    pub open spec fn queues(&self) -> Seq<Seq<T>> {
        Seq::new((self.len() - 1) as nat, |i: int| self.nodes@[i + 1].buf->Some_0@.queue)
    }

    /// What the chain holds: the messages of its segments, in the order
    /// of the segments.
    pub open spec fn contents(&self) -> Seq<T> {
        self.queues().flatten()
    }

    /// Every segment that will get no more messages is closed: each but
    /// the last, and the last too where the chain is closed. Then a
    /// receiver finds the oldest message behind closed and drained
    /// segments only.
    pub open spec fn settled(&self) -> bool {
        forall|i: int|
            1 <= i < self.len() && (i < self.len() - 1 || self.is_closed()) ==> (
            #[trigger] self.nodes@[i]).buf->Some_0@.closed
    }

    /// The first node has no buffer and every other node has one, in
    /// order; each link but the last leads to the next node, and the last
    /// one leads nowhere.
    pub open spec fn wf(&self) -> bool {
        &&& self.len() >= 1
        &&& self.nodes@[0].buf is None
        &&& forall|i: int|
            1 <= i < self.len() ==> (#[trigger] self.nodes@[i]).buf is Some
                && self.nodes@[i].buf->Some_0.wf()
        &&& forall|i: int|
            0 <= i < self.len() - 1 ==> (#[trigger] self.nodes@[i]).next@ is Holds
                && self.nodes@[i].next@->Holds_0 == i + 1
        &&& !(self.nodes@.last().next@ is Holds)
    }
}

/// A new chain, of one node without a buffer, and a place in it for the
/// first sender and for the first receiver.
pub fn pair<S: Sequence, R: Sequence, T>() -> (p: (Segments<S, R, T>, Chain, Chain))
    ensures
        p.0.wf(),
        p.0.len() == 1,
        !p.0.is_closed(),
        p.0.sender_live == 1,
        p.0.receiver_live == 1,
        p.1.at() == 0,
        p.2.at() == 0,
        p.1.side() == Kind::Send,
        p.2.side() == Kind::Receive,
        !p.1.sees_closed(),
        !p.2.sees_closed(),
{
    let mut nodes: Vec<Inner<S, R, T>> = Vec::new();
    nodes.push(Inner { buf: None, next: AtomicArc::new() });
    let store = Segments { nodes, sender_live: 1, receiver_live: 1 };
    let sender = Chain { inner: 0, kind: Kind::Send, cache_closed: false };
    let receiver = Chain { inner: 0, kind: Kind::Receive, cache_closed: false };
    (store, sender, receiver)
}

impl Chain {
    /// The node at which the endpoint stands.
    pub closed spec fn at(&self) -> int {
        self.inner as int
    }

    /// The side of the endpoint.
    pub closed spec fn side(&self) -> Kind {
        self.kind
    }

    /// Whether the endpoint has seen the chain closed.
    pub closed spec fn sees_closed(&self) -> bool {
        self.cache_closed
    }

    /// The endpoint stands at a node of the chain, and if it has seen the
    /// chain closed, the chain is closed.
    pub open spec fn wf<S: Sequence, R: Sequence, T>(&self, store: &Segments<S, R, T>) -> bool {
        &&& 0 <= self.at() < store.len()
        &&& self.sees_closed() ==> store.is_closed()
    }

    /// The node at which the endpoint stands.
    pub fn place(&self) -> (at: usize)
        ensures
            at == self.at(),
    {
        self.inner
    }

    /// Whether the chain is closed.
    pub fn is_closed<S: Sequence, R: Sequence, T>(&mut self, store: &Segments<S, R, T>) -> (closed:
        bool)
        requires
            store.wf(),
            old(self).wf(store),
        ensures
            final(self).wf(store),
            final(self).at() == old(self).at(),
            final(self).side() == old(self).side(),
            closed == store.is_closed(),
            final(self).sees_closed() == closed,
    {
        if self.cache_closed {
            return true;
        }
        let mut inner = self.inner;
        loop
            invariant
                store.wf(),
                0 <= inner < store.len(),
                0 <= self.inner < store.len(),
                self.inner == old(self).inner,
                self.kind == old(self).kind,
                !self.cache_closed,
            decreases store.len() - inner,
        {
            proof {
                if inner < store.len() - 1 {
                    assert(store.nodes@[inner as int].next@ is Holds);
                }
            }
            match store.nodes[inner].next.fetch() {
                AtomicState::Empty => {
                    return false;
                },
                AtomicState::Holds(next) => {
                    inner = next;
                },
                AtomicState::Closed => {
                    self.cache_closed = true;
                    return true;
                },
            }
        }
    }

    /// The segment at which the endpoint stands, if it does not stand at
    /// the first node.
    pub fn buf<'a, S: Sequence, R: Sequence, T>(&self, store: &'a Segments<S, R, T>) -> (b: Option<
        &'a Buffer<Head<S, R>, T>,
    >)
        requires
            store.wf(),
            self.wf(store),
        ensures
            b is Some <==> self.at() >= 1,
            b matches Some(buf) ==> store.nodes@[self.at()].buf == Some(*buf),
    {
        store.nodes[self.inner].buf.as_ref()
    }

    /// Whether a node follows the one at which the endpoint stands.
    pub fn has_next<S: Sequence, R: Sequence, T>(&self, store: &Segments<S, R, T>) -> (follows:
        bool)
        requires
            store.wf(),
            self.wf(store),
        ensures
            follows == (self.at() < store.len() - 1),
    {
        proof {
            if self.inner < store.len() - 1 {
                assert(store.nodes@[self.inner as int].next@ is Holds);
            }
        }
        match store.nodes[self.inner].next.fetch() {
            AtomicState::Empty | AtomicState::Closed => false,
            AtomicState::Holds(_) => true,
        }
    }

    /// Moves the endpoint to the next node, if there is one, and tells
    /// whether it has moved.
    pub fn goto_next<S: Sequence, R: Sequence, T>(&mut self, store: &Segments<S, R, T>) -> (moved:
        bool)
        requires
            store.wf(),
            old(self).wf(store),
        ensures
            final(self).wf(store),
            final(self).side() == old(self).side(),
            final(self).sees_closed() == old(self).sees_closed(),
            moved == (old(self).at() < store.len() - 1),
            final(self).at() == if moved {
                old(self).at() + 1
            } else {
                old(self).at()
            },
    {
        proof {
            if self.inner < store.len() - 1 {
                assert(store.nodes@[self.inner as int].next@ is Holds);
            }
        }
        match store.nodes[self.inner].next.fetch() {
            AtomicState::Empty | AtomicState::Closed => false,
            AtomicState::Holds(next) => {
                self.inner = next;
                true
            },
        }
    }

    /// Moves the endpoint to the last node.
    pub fn goto_last<S: Sequence, R: Sequence, T>(&mut self, store: &Segments<S, R, T>)
        requires
            store.wf(),
            old(self).wf(store),
        ensures
            final(self).wf(store),
            final(self).side() == old(self).side(),
            final(self).sees_closed() == old(self).sees_closed(),
            final(self).at() == store.len() - 1,
    {
        while self.goto_next(store)
            invariant
                store.wf(),
                self.wf(store),
                self.side() == old(self).side(),
                self.sees_closed() == old(self).sees_closed(),
            decreases store.len() - self.at(),
        {
        }
    }

    /// Closes the chain: no segment will follow the last one, and the
    /// last segment takes no more messages.
    pub fn close<S: Sequence, R: Sequence, T>(&mut self, store: &mut Segments<S, R, T>)
        requires
            old(store).wf(),
            old(self).wf(old(store)),
        ensures
            final(store).wf(),
            final(self).wf(final(store)),
            final(self).at() == old(self).at(),
            final(self).side() == old(self).side(),
            final(self).sees_closed(),
            final(store).len() == old(store).len(),
            old(self).sees_closed() ==> *final(store) == *old(store),
            !old(self).sees_closed() ==> final(store).is_closed(),
            final(store).sender_live == old(store).sender_live,
            final(store).receiver_live == old(store).receiver_live,
            forall|i: int|
                0 <= i < old(store).len() - 1 ==>
                    (#[trigger] final(store).nodes@[i]) == old(store).nodes@[i],
            old(store).len() > 1 ==> {
                let before = old(store).nodes@.last().buf->Some_0;
                let after = final(store).nodes@.last().buf->Some_0;
                &&& after@.queue == before@.queue
                &&& after@.capacity == before@.capacity
                &&& after.head.sent() == before.head.sent()
                &&& after.head.receiver == before.head.receiver
                &&& after.head.sender_count == before.head.sender_count
                &&& after.head.receiver_count == before.head.receiver_count
                &&& !old(self).sees_closed() ==> after@.closed
                &&& keeps(&before.head.sender, &after.head.sender)
            },
            forall|i: int|
                1 <= i < old(store).len() ==> kept_for_senders(
                    old(store).nodes@[i].buf->Some_0,
                    (#[trigger] final(store).nodes@[i]).buf->Some_0,
                ) && kept_for_receivers(
                    old(store).nodes@[i].buf->Some_0,
                    final(store).nodes@[i].buf->Some_0,
                ),
    {
        if self.cache_closed {
            return ;
        }
        self.cache_closed = true;
        let last = store.nodes.len() - 1;
        let node = &mut store.nodes[last];
        let _ = node.next.close();
        if let Some(buf) = &mut node.buf {
            buf.head.close();
        }
    }

    /// Adds a segment after the endpoint's node, of twice the capacity of
    /// the endpoint's segment, and moves the endpoint to it. Where a node
    /// follows already, the endpoint moves to that one; where the chain
    /// is closed, nothing happens.
    pub fn grow<S: Sequence, R: Sequence, T>(&mut self, store: &mut Segments<S, R, T>)
        requires
            old(store).wf(),
            old(self).wf(old(store)),
        ensures
            final(store).wf(),
            final(self).wf(final(store)),
            final(self).side() == old(self).side(),
            final(self).sees_closed() == old(self).sees_closed(),
            final(store).sender_live == old(store).sender_live,
            final(store).receiver_live == old(store).receiver_live,
            final(store).is_closed() == old(store).is_closed(),
            forall|i: int|
                0 <= i < old(store).len() ==>
                    (#[trigger] final(store).nodes@[i]).buf == old(store).nodes@[i].buf,
            old(self).at() < old(store).len() - 1 ==> final(store).len() == old(store).len()
                && final(self).at() == old(self).at() + 1,
            old(self).at() == old(store).len() - 1 && old(store).is_closed() ==>
                final(store).len() == old(store).len()
                && final(self).at() == old(self).at(),
            old(self).at() == old(store).len() - 1 && !old(store).is_closed() ==> {
                let added = final(store).nodes@.last().buf->Some_0;
                &&& final(store).len() == old(store).len() + 1
                &&& final(self).at() == old(self).at() + 1
                &&& added@.queue == Seq::<T>::empty()
                &&& !added@.closed
                &&& added.size() == if old(self).at() == 0 {
                    1
                } else {
                    let capacity = old(store).nodes@[old(self).at()].buf->Some_0.size();
                    if capacity_ok(2 * capacity) {
                        2 * capacity
                    } else {
                        capacity
                    }
                }
                &&& added.head.sender_count == 0
                &&& added.head.receiver_count == 0
                &&& !added.head.sender.cache_taken()
                &&& !added.head.receiver.cache_taken()
            },
    {
        let capacity = match self.buf(store) {
            None => 1,
            Some(buf) => {
                let twice = buf.capacity() * 2;
                // The capacity stops doubling where no buffer can be
                // larger.
                if valid_capacity(twice) {
                    twice
                } else {
                    buf.capacity()
                }
            },
        };
        proof {
            assert(capacity_ok(1)) by {
                assert(crate::buffer::MAX_BUF_CAPACITY > 1);
            }
        }
        let buf = segment::<S, R, T>(capacity);
        let inner = Inner { buf: Some(buf), next: AtomicArc::new() };
        let place = store.nodes.len();
        let at = self.inner;
        proof {
            if at < store.len() - 1 {
                assert(store.nodes@[at as int].next@ is Holds);
            }
        }
        let ghost before = *store;
        let prev = &mut store.nodes[at];
        match prev.next.init(place) {
            AtomicState::Closed => {},
            AtomicState::Empty => {
                store.nodes.push(inner);
                self.inner = place;
                proof {
                    assert forall|i: int| 0 <= i < store.len() - 1 implies (
                    #[trigger] store.nodes@[i]).next@ is Holds && store.nodes@[i].next@->Holds_0
                        == i + 1 by {
                        if i < at {
                            assert(before.nodes@[i].next@ is Holds);
                        }
                    }
                    assert forall|i: int| 1 <= i < store.len() implies (
                    #[trigger] store.nodes@[i]).buf is Some && store.nodes@[i].buf->Some_0.wf() by {
                        if i < place {
                            assert(before.nodes@[i].buf is Some);
                        }
                    }
                }
            },
            AtomicState::Holds(next) => {
                self.inner = next;
                proof {
                    assert forall|i: int| 0 <= i < store.len() - 1 implies (
                    #[trigger] store.nodes@[i]).next@ is Holds && store.nodes@[i].next@->Holds_0
                        == i + 1 by {
                        assert(before.nodes@[i].next@ is Holds);
                    }
                    assert forall|i: int| 1 <= i < store.len() implies (
                    #[trigger] store.nodes@[i]).buf is Some && store.nodes@[i].buf->Some_0.wf() by {
                        assert(before.nodes@[i].buf is Some);
                    }
                }
            },
        }
    }

    /// The number of live endpoints on the endpoint's side.
    pub open spec fn live<S: Sequence, R: Sequence, T>(&self, store: &Segments<S, R, T>) -> usize {
        match self.side() {
            Kind::Send => store.sender_live,
            Kind::Receive => store.receiver_live,
        }
    }

    /// One more endpoint on the same side, at the same node.
    pub fn duplicate<S: Sequence, R: Sequence, T>(&self, store: &mut Segments<S, R, T>) -> (other:
        Chain)
        requires
            old(store).wf(),
            self.wf(old(store)),
            self.live(old(store)) <= isize::MAX,
        ensures
            final(store).wf(),
            self.wf(final(store)),
            other.wf(final(store)),
            other.at() == self.at(),
            other.side() == self.side(),
            !other.sees_closed(),
            final(store).nodes == old(store).nodes,
            self.live(final(store)) == self.live(old(store)) + 1,
            self.side() == Kind::Send ==> final(store).receiver_live == old(store).receiver_live,
            self.side() == Kind::Receive ==> final(store).sender_live == old(store).sender_live,
    {
        match self.kind {
            Kind::Send => {
                store.sender_live = store.sender_live + 1;
            },
            Kind::Receive => {
                store.receiver_live = store.receiver_live + 1;
            },
        }
        Chain { inner: self.inner, kind: self.kind, cache_closed: false }
    }

    /// Gives the endpoint up. The last endpoint of a side to go closes the
    /// chain.
    pub fn release<S: Sequence, R: Sequence, T>(self, store: &mut Segments<S, R, T>)
        requires
            old(store).wf(),
            self.wf(old(store)),
        ensures
            final(store).wf(),
            final(store).len() == old(store).len(),
            self.live(old(store)) == 1 ==> final(store).is_closed(),
            self.live(old(store)) != 1 ==> final(store).nodes == old(store).nodes,
            self.live(final(store)) == if self.live(old(store)) == 0 {
                usize::MAX
            } else {
                (self.live(old(store)) - 1) as usize
            },
            self.side() == Kind::Send ==> final(store).receiver_live == old(store).receiver_live,
            self.side() == Kind::Receive ==> final(store).sender_live == old(store).sender_live,
            forall|i: int|
                0 <= i < old(store).len() - 1 ==>
                    (#[trigger] final(store).nodes@[i]) == old(store).nodes@[i],
            old(store).len() > 1 ==> {
                let before = old(store).nodes@.last().buf->Some_0;
                let after = final(store).nodes@.last().buf->Some_0;
                &&& after@.queue == before@.queue
                &&& after.head.receiver == before.head.receiver
                &&& after.head.sender_count == before.head.sender_count
                &&& after.head.receiver_count == before.head.receiver_count
                &&& self.live(old(store)) == 1 && !self.sees_closed() ==> after@.closed
            },
            forall|i: int|
                1 <= i < old(store).len() ==> kept_for_senders(
                    old(store).nodes@[i].buf->Some_0,
                    (#[trigger] final(store).nodes@[i]).buf->Some_0,
                ) && kept_for_receivers(
                    old(store).nodes@[i].buf->Some_0,
                    final(store).nodes@[i].buf->Some_0,
                ),
    {
        let mut this = self;
        let live_count = match this.kind {
            Kind::Send => {
                let count = store.sender_live;
                store.sender_live = count.wrapping_sub(1);
                count
            },
            Kind::Receive => {
                let count = store.receiver_live;
                store.receiver_live = count.wrapping_sub(1);
                count
            },
        };
        if live_count == 1 {
            // An endpoint that has seen the chain closed has nothing to
            // close.
            this.close(store);
        }
    }
}

} // verus!
