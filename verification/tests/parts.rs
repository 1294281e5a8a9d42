use ring_channel::blocker::state::{AtomicState, State};
use ring_channel::buffer::{index, valid_capacity, Buffer, MAX_BUF_CAPACITY};
use ring_channel::counter::{Counter, COUNTER_VALID_RANGE};
use ring_channel::queue::atomic::{AtomicArc, AtomicState as Link};
use ring_channel::queue::bounded::{segment, SendError};
use ring_channel::queue::chain::pair;
use ring_channel::queue::half::{AdvanceError, Half, MAX_HALF_COUNT};
use ring_channel::queue::head::{ReceiverHead, SenderHead};
use ring_channel::role::{Kind, Receive, Role, Send};
use ring_channel::scheduler::atomic::Ptr;
use ring_channel::sequence::{
    CacheError, CommitError, Limit, Owned, Sequence, Shared,
};

#[test]
fn capacities_are_powers_of_two_below_the_limit() {
    assert!(valid_capacity(1));
    assert!(valid_capacity(2));
    assert!(valid_capacity(1024));
    assert!(!valid_capacity(0));
    assert!(!valid_capacity(3));
    assert!(!valid_capacity(96));
    assert!(valid_capacity(MAX_BUF_CAPACITY / 2));
    assert!(!valid_capacity(MAX_BUF_CAPACITY));
    assert_eq!(MAX_BUF_CAPACITY, COUNTER_VALID_RANGE / 2);
    assert_eq!(MAX_HALF_COUNT, COUNTER_VALID_RANGE / 2);
}

#[test]
fn slots_are_found_by_counter_modulo_capacity() {
    assert_eq!(index(Counter::new(0), 8), 0);
    assert_eq!(index(Counter::new(7), 8), 7);
    assert_eq!(index(Counter::new(8), 8), 0);
    assert_eq!(index(Counter::new(8) + 13, 8), 5);
    // The place goes on around the ring where the counter wraps.
    let last = Counter::new(usize::MAX / 2);
    assert_eq!(index(last, 8), 7);
    assert_eq!(index(last + 1, 8), 0);
}

#[test]
fn roles_exchange_with_a_slot() {
    assert_eq!(Send::<u8>::kind(), Kind::Send);
    assert_eq!(Receive::<u8>::kind(), Kind::Receive);
    assert_eq!(Kind::Send.opposite(), Kind::Receive);
    assert_eq!(Kind::Receive.opposite(), Kind::Send);
    let mut slot = None;
    Send::<u8>::interact(&mut slot, 3);
    assert_eq!(slot, Some(3));
    assert_eq!(Receive::<u8>::interact(&mut slot, ()), 3);
    assert_eq!(slot, None);
}

struct Fixed(Counter);

impl Limit for Fixed {
    fn limit(&self) -> Counter {
        self.0
    }

    fn valid(&self) -> bool {
        true
    }

    fn count(&self) -> Counter {
        self.0
    }
}

#[test]
fn owned_sequence_claims_up_to_the_limit() {
    let mut seq = Owned::fresh();
    let mut cache = seq.cache(&Fixed(Counter::new(2))).unwrap();
    assert_eq!(
        seq.cache(&Fixed(Counter::new(2))).err(),
        Some(CacheError::NotAvailable)
    );
    assert_eq!(seq.claim(&mut cache, &Fixed(Counter::new(2))), Some(Counter::new(0)));
    assert_eq!(seq.commit(&mut cache, Counter::new(0)), Ok(()));
    assert_eq!(seq.claim(&mut cache, &Fixed(Counter::new(2))), Some(Counter::new(1)));
    assert_eq!(seq.commit(&mut cache, Counter::new(1)), Ok(()));
    assert_eq!(seq.claim(&mut cache, &Fixed(Counter::new(2))), None);
    assert_eq!(seq.fetch_last(), Counter::new(2));
    // The limit is read again only when the cache allows no claim.
    assert_eq!(seq.claim(&mut cache, &Fixed(Counter::new(3))), Some(Counter::new(2)));
    seq.close();
    assert_eq!(seq.commit(&mut cache, Counter::new(2)), Err(CommitError));
    assert_eq!(seq.fetch_last(), Counter::new(2));
    assert_eq!(seq.counter().fetch(), Err(Counter::new(2)));
}

#[test]
fn shared_sequence_gives_many_caches() {
    let mut seq = Shared::fresh();
    let mut first = seq.cache(&Fixed(Counter::new(1))).unwrap();
    let mut second = seq.cache(&Fixed(Counter::new(1))).unwrap();
    assert_eq!(seq.claim(&mut first, &Fixed(Counter::new(1))), Some(Counter::new(0)));
    assert_eq!(seq.commit(&mut first, Counter::new(0)), Ok(()));
    // The claim that the limit refuses is taken back.
    assert_eq!(seq.claim(&mut second, &Fixed(Counter::new(1))), None);
    assert_eq!(seq.claim(&mut second, &Fixed(Counter::new(2))), Some(Counter::new(1)));
    assert_eq!(seq.commit(&mut second, Counter::new(1)), Ok(()));
    seq.close();
    assert_eq!(
        seq.cache(&Fixed(Counter::new(2))).err(),
        Some(CacheError::SeqClosed)
    );
}

#[test]
fn halves_advance_on_a_segment() {
    let mut buf: Buffer<_, u8> = segment::<Owned, Owned, u8>(2);
    let mut tx = Half::<SenderHead<Owned, Owned, u8>>::new(&mut buf, SenderHead::new(2)).unwrap();
    let mut rx = Half::<ReceiverHead<Owned, Owned, u8>>::new(&mut buf, ReceiverHead::new()).unwrap();
    assert_eq!(buf.head().sender_count, 1);
    assert_eq!(buf.head().receiver_count, 1);
    assert!(tx.try_clone(&mut buf).is_none());
    assert_eq!(rx.try_advance(&mut buf, ()), Err(AdvanceError::BufferFull(())));
    assert_eq!(tx.try_advance(&mut buf, 1), Ok(()));
    assert_eq!(tx.try_advance(&mut buf, 2), Ok(()));
    assert_eq!(tx.try_advance(&mut buf, 3), Err(AdvanceError::BufferFull(3)));
    assert_eq!(AdvanceError::BufferFull(3).into_inner(), 3);
    assert_eq!(SendError::from(AdvanceError::Closed(4)), SendError::Closed(4));
    assert_eq!(rx.try_advance(&mut buf, ()), Ok(1));
    assert!(!tx.is_closed(&buf));
    rx.close(&mut buf);
    assert!(tx.is_closed(&buf));
    assert_eq!(tx.try_advance(&mut buf, 3), Err(AdvanceError::Closed(3)));
    assert_eq!(rx.try_advance(&mut buf, ()), Ok(2));
    assert_eq!(rx.try_advance(&mut buf, ()), Err(AdvanceError::Closed(())));
}

#[test]
fn chain_grows_by_doubling() {
    let (mut store, mut tx, mut rx) = pair::<Owned, Owned, u8>();
    assert!(tx.buf(&store).is_none());
    assert!(!tx.goto_next(&store));
    tx.grow(&mut store);
    assert_eq!(tx.buf(&store).unwrap().capacity(), 1);
    tx.grow(&mut store);
    assert_eq!(tx.buf(&store).unwrap().capacity(), 2);
    tx.grow(&mut store);
    assert_eq!(tx.buf(&store).unwrap().capacity(), 4);
    assert_eq!(tx.place(), 3);
    // The receiver follows node by node.
    assert!(rx.has_next(&store));
    assert!(rx.goto_next(&store));
    assert_eq!(rx.buf(&store).unwrap().capacity(), 1);
    // Growing where a node follows moves on to that node.
    rx.grow(&mut store);
    assert_eq!(rx.place(), 2);
    assert_eq!(store.nodes.len(), 4);
    rx.goto_last(&store);
    assert_eq!(rx.place(), 3);
    assert!(!rx.is_closed(&store));
    tx.close(&mut store);
    assert!(rx.is_closed(&store));
    // A closed chain grows no more.
    rx.grow(&mut store);
    assert_eq!(store.nodes.len(), 4);
}

#[test]
fn links_are_set_once() {
    let mut link = AtomicArc::new();
    assert_eq!(link.fetch(), Link::Empty);
    assert_eq!(link.init(4), Link::Empty);
    assert_eq!(link.fetch(), Link::Holds(4));
    assert_eq!(link.init(5), Link::Holds(4));
    assert_eq!(link.close(), Link::Holds(4));
    assert_eq!(link.fetch(), Link::Holds(4));
    let mut other = AtomicArc::new();
    assert_eq!(other.close(), Link::Empty);
    assert_eq!(other.init(1), Link::Closed);
    assert_eq!(other.fetch(), Link::Closed);
}

#[test]
fn state_changes_by_compare_and_swap() {
    let mut state = AtomicState::new();
    assert_eq!(state.transit(State::BlockSender, State::WakeSender), State::Neutral);
    assert_eq!(state.transit(State::Neutral, State::Locked), State::Neutral);
    assert_eq!(state.transit(State::Locked, State::BlockSender), State::Locked);
    assert_eq!(state.transit(State::Neutral, State::Locked), State::BlockSender);
}

#[test]
fn places_carry_a_tag_of_six_bits() {
    let place = Ptr::new(0x1000);
    assert_eq!(place.merge(), 0x1000);
    assert_eq!(place.next().merge(), 0x1001);
    let mut tagged = place;
    for _ in 0..63 {
        tagged = tagged.next();
    }
    assert_eq!(tagged.merge(), 0x103f);
    assert_eq!(tagged.next(), place);
    assert_eq!(Ptr::restore(0x103f), tagged);
    assert!(Ptr::null().is_null());
    assert!(!place.is_null());
}
