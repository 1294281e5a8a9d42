use ring_channel::blocker::sync::{Blocker, Outcome};
use ring_channel::extension::blocking::{Blocking, RecvStep, SendStep};
use ring_channel::queue::bounded::queue;
use ring_channel::role::{Kind, Receive, Send};
use ring_channel::scheduler::{NodeBox, Notify, Queue, Scheduler};
use ring_channel::sequence::{Owned, Shared};

#[test]
fn waiter_queue_holds_one_role() {
    let mut queue = Queue::new();
    assert_eq!(queue.pop(Kind::Send), None);
    assert!(queue.push(Kind::Send, Notify::sync(1), NodeBox::new()).is_ok());
    assert!(queue.push(Kind::Send, Notify::sync(2), NodeBox::new()).is_ok());
    // A receiver is refused while senders wait.
    assert!(queue.push(Kind::Receive, Notify::sync(3), NodeBox::new()).is_err());
    assert_eq!(queue.pop(Kind::Receive), None);
    assert_eq!(queue.pop(Kind::Send).map(Notify::notify), Some(1));
    assert_eq!(queue.pop(Kind::Send).map(Notify::notify), Some(2));
    assert_eq!(queue.pop(Kind::Send), None);
    assert!(queue.push(Kind::Receive, Notify::sync(3), NodeBox::new()).is_ok());
}

#[test]
fn scheduler_registers_and_restores() {
    let mut queue = Queue::new();
    let mut receiver = Scheduler::new();
    let sender = Scheduler::new();
    assert!(receiver.register::<Receive<u8>>(&mut queue, Notify::sync(9)));
    receiver.restore();
    assert_eq!(
        sender.pop_blocked::<Send<u8>>(&mut queue).map(Notify::notify),
        Some(9)
    );
    assert_eq!(sender.pop_blocked::<Send<u8>>(&mut queue), None);
}

#[test]
fn receiver_first_is_woken_by_the_send() {
    let (mut buf, mut tx, mut rx) = queue::<Owned, Owned, u32>(4);
    let (mut ext, mut tx_sched, mut rx_sched) = Blocking::create_triple();
    assert_eq!(
        rx.recv(&mut buf, &mut ext, &mut rx_sched, Notify::sync(2)),
        RecvStep::Parked
    );
    assert_eq!(
        tx.send(&mut buf, &mut ext, &mut tx_sched, 5, Notify::sync(1)),
        SendStep::Sent(Some(Notify::sync(2)))
    );
    rx_sched.restore();
    assert_eq!(
        rx.recv(&mut buf, &mut ext, &mut rx_sched, Notify::sync(2)),
        RecvStep::Received(5, None)
    );
}

#[test]
fn sender_first_needs_no_wake() {
    let (mut buf, mut tx, mut rx) = queue::<Owned, Owned, u32>(4);
    let (mut ext, mut tx_sched, mut rx_sched) = Blocking::create_triple();
    assert_eq!(
        tx.send(&mut buf, &mut ext, &mut tx_sched, 5, Notify::sync(1)),
        SendStep::Sent(None)
    );
    assert_eq!(
        rx.recv(&mut buf, &mut ext, &mut rx_sched, Notify::sync(2)),
        RecvStep::Received(5, None)
    );
}

#[test]
fn full_queue_parks_the_sender() {
    let (mut buf, mut tx, mut rx) = queue::<Owned, Owned, u32>(1);
    let (mut ext, mut tx_sched, mut rx_sched) = Blocking::create_triple();
    assert_eq!(
        tx.send(&mut buf, &mut ext, &mut tx_sched, 1, Notify::sync(1)),
        SendStep::Sent(None)
    );
    assert_eq!(
        tx.send(&mut buf, &mut ext, &mut tx_sched, 2, Notify::sync(1)),
        SendStep::Parked(2)
    );
    assert_eq!(
        rx.recv(&mut buf, &mut ext, &mut rx_sched, Notify::sync(2)),
        RecvStep::Received(1, Some(Notify::sync(1)))
    );
    tx_sched.restore();
    assert_eq!(
        tx.send(&mut buf, &mut ext, &mut tx_sched, 2, Notify::sync(1)),
        SendStep::Sent(None)
    );
}

#[test]
fn close_wakes_all_receivers() {
    let (mut buf, tx, rx) = queue::<Owned, Shared, u32>(4);
    let (mut ext, _tx_sched, rx_sched) = Blocking::create_triple();
    let mut receivers = vec![
        (rx.try_clone(&mut buf), rx_sched.clone()),
        (rx.try_clone(&mut buf), rx_sched.clone()),
        (rx.try_clone(&mut buf), rx_sched.clone()),
    ];
    for (id, (receiver, sched)) in receivers.iter_mut().enumerate() {
        assert_eq!(
            receiver.recv(&mut buf, &mut ext, sched, Notify::sync(id)),
            RecvStep::Parked
        );
    }
    let woken: Vec<usize> = tx
        .leave(&mut buf, &mut ext)
        .into_iter()
        .map(Notify::notify)
        .collect();
    assert_eq!(woken, vec![0, 1, 2]);
    for (id, (receiver, sched)) in receivers.iter_mut().enumerate() {
        sched.restore();
        assert_eq!(
            receiver.recv(&mut buf, &mut ext, sched, Notify::sync(id)),
            RecvStep::Ended
        );
    }
}

#[test]
fn closed_queue_sends_nothing() {
    let (mut buf, mut tx, mut rx) = queue::<Owned, Owned, u32>(4);
    let (mut ext, mut tx_sched, _rx_sched) = Blocking::create_triple();
    rx.close(&mut buf);
    assert_eq!(
        tx.send(&mut buf, &mut ext, &mut tx_sched, 3, Notify::sync(1)),
        SendStep::Closed(3)
    );
}

#[test]
fn blocker_parks_and_wakes_in_order() {
    let (mut buf, mut tx, rx) = queue::<Owned, Shared, u32>(2);
    let mut first = rx.try_clone(&mut buf);
    let mut second = rx.try_clone(&mut buf);
    let mut blocker = Blocker::new();

    // Two receivers find the queue empty and park, in this order.
    assert_eq!(blocker.recv(&mut first, &mut buf, 11), (vec![], Outcome::Park(())));
    assert_eq!(blocker.recv(&mut second, &mut buf, 12), (vec![], Outcome::Park(())));
    // The send wakes both, the one that parked first in front.
    assert_eq!(
        blocker.send(&mut tx, &mut buf, 7, 1),
        (vec![11, 12], Outcome::Done(()))
    );
    assert_eq!(blocker.recv(&mut first, &mut buf, 11), (vec![], Outcome::Done(7)));
    // The queue fills up, and the sender parks.
    assert_eq!(blocker.send(&mut tx, &mut buf, 8, 1), (vec![], Outcome::Done(())));
    assert_eq!(blocker.send(&mut tx, &mut buf, 9, 1), (vec![], Outcome::Done(())));
    assert_eq!(blocker.send(&mut tx, &mut buf, 10, 1), (vec![], Outcome::Park(10)));
    // While senders are parked a receiver that finds a message wakes them.
    assert_eq!(blocker.recv(&mut second, &mut buf, 12), (vec![1], Outcome::Done(8)));
    assert_eq!(blocker.send(&mut tx, &mut buf, 10, 1), (vec![], Outcome::Done(())));
    tx.close(&mut buf);
    assert_eq!(blocker.send(&mut tx, &mut buf, 5, 1), (vec![], Outcome::Closed(5)));
    assert_eq!(blocker.recv(&mut first, &mut buf, 11), (vec![], Outcome::Done(9)));
    assert_eq!(blocker.recv(&mut first, &mut buf, 11), (vec![], Outcome::Done(10)));
    assert_eq!(blocker.recv(&mut first, &mut buf, 11), (vec![], Outcome::Closed(())));
}

#[test]
fn shutting_wakes_parked_senders() {
    let (mut buf, mut tx, mut rx) = queue::<Shared, Owned, u32>(1);
    let (mut ext, mut tx_sched, _rx_sched) = Blocking::create_triple();
    let mut other = tx.try_clone(&mut buf);
    let mut other_sched = tx_sched.clone();
    assert_eq!(
        tx.send(&mut buf, &mut ext, &mut tx_sched, 1, Notify::sync(1)),
        SendStep::Sent(None)
    );
    assert_eq!(
        tx.send(&mut buf, &mut ext, &mut tx_sched, 2, Notify::sync(1)),
        SendStep::Parked(2)
    );
    assert_eq!(
        other.send(&mut buf, &mut ext, &mut other_sched, 3, Notify::sync(2)),
        SendStep::Parked(3)
    );
    let woken: Vec<usize> = rx
        .shut(&mut buf, &mut ext)
        .into_iter()
        .map(Notify::notify)
        .collect();
    assert_eq!(woken, vec![1, 2]);
    tx_sched.restore();
    other_sched.restore();
    assert_eq!(
        tx.send(&mut buf, &mut ext, &mut tx_sched, 2, Notify::sync(1)),
        SendStep::Closed(2)
    );
    assert_eq!(
        other.send(&mut buf, &mut ext, &mut other_sched, 3, Notify::sync(2)),
        SendStep::Closed(3)
    );
    // What the queue held can still be received.
    assert_eq!(rx.try_recv(&mut buf), Ok(Some(1)));
    assert_eq!(rx.try_recv(&mut buf), Ok(None));
}

#[test]
fn shutting_wakes_parked_receivers() {
    let (mut buf, mut tx, mut rx) = queue::<Owned, Owned, u32>(2);
    let (mut ext, _tx_sched, mut rx_sched) = Blocking::create_triple();
    assert_eq!(
        rx.recv(&mut buf, &mut ext, &mut rx_sched, Notify::sync(5)),
        RecvStep::Parked
    );
    let woken: Vec<usize> = tx
        .shut(&mut buf, &mut ext)
        .into_iter()
        .map(Notify::notify)
        .collect();
    assert_eq!(woken, vec![5]);
    assert!(tx.shut(&mut buf, &mut ext).is_empty());
    rx_sched.restore();
    assert_eq!(
        rx.recv(&mut buf, &mut ext, &mut rx_sched, Notify::sync(5)),
        RecvStep::Ended
    );
}
