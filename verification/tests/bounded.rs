use std::cell::Cell;
use std::mem::forget;
use std::rc::Rc;

use ring_channel::queue::bounded::{queue, RecvError, SendError};
use ring_channel::sequence::{Competitive, Owned, Shared};

#[test]
fn spsc_keeps_the_order_of_64000_messages() {
    let (mut buf, mut tx, mut rx) = queue::<Owned, Owned, usize>(16);
    let mut next_in = 0usize;
    let mut next_out = 0usize;
    while next_out < 64000 {
        // Fill as far as the queue takes it, then drain a few.
        while next_in < 64000 {
            match tx.try_send(&mut buf, next_in) {
                Ok(()) => next_in += 1,
                Err(SendError::BufferFull(back)) => {
                    assert_eq!(back, next_in);
                    break;
                }
                Err(SendError::Closed(_)) => panic!("the queue is open"),
            }
        }
        for _ in 0..5 {
            match rx.try_recv(&mut buf) {
                Ok(Some(msg)) => {
                    assert_eq!(msg, next_out);
                    next_out += 1;
                }
                Ok(None) => panic!("the queue is open"),
                Err(RecvError) => break,
            }
        }
    }
    assert_eq!(next_in, 64000);
    assert_eq!(rx.try_recv(&mut buf), Err(RecvError));
}

#[test]
fn full_queue_hands_the_message_back() {
    let (mut buf, mut tx, mut rx) = queue::<Owned, Owned, u8>(4);
    for i in 0..4 {
        assert_eq!(tx.try_send(&mut buf, i), Ok(()));
    }
    assert_eq!(tx.try_send(&mut buf, 9), Err(SendError::BufferFull(9)));
    assert_eq!(rx.try_recv(&mut buf), Ok(Some(0)));
    assert_eq!(tx.try_send(&mut buf, 9), Ok(()));
    assert_eq!(tx.capacity(&buf), 4);
    assert_eq!(rx.capacity(&buf), 4);
}

#[test]
fn close_on_empty() {
    let (mut buf, tx, mut rx) = queue::<Owned, Owned, u32>(8);
    tx.release(&mut buf);
    assert!(rx.is_closed(&buf));
    assert_eq!(rx.try_recv(&mut buf), Ok(None));
}

#[test]
fn closed_queue_is_drained_before_it_ends() {
    let (mut buf, mut tx, mut rx) = queue::<Owned, Owned, u32>(8);
    assert_eq!(tx.try_send(&mut buf, 1), Ok(()));
    assert_eq!(tx.try_send(&mut buf, 2), Ok(()));
    rx.close(&mut buf);
    assert!(tx.is_closed(&buf));
    assert_eq!(tx.try_send(&mut buf, 3), Err(SendError::Closed(3)));
    assert_eq!(rx.try_recv(&mut buf), Ok(Some(1)));
    assert_eq!(rx.try_recv(&mut buf), Ok(Some(2)));
    assert_eq!(rx.try_recv(&mut buf), Ok(None));
}

#[test]
fn mpmc_sums_agree() {
    let (mut buf, tx, rx) = queue::<Shared, Shared, u64>(4);
    let mut senders = vec![tx.try_clone(&mut buf), tx.try_clone(&mut buf)];
    let mut receivers = vec![rx.try_clone(&mut buf), rx.try_clone(&mut buf)];
    tx.release(&mut buf);
    let mut seed: u64 = 0x2545_F491_4F6C_DD1D;
    let mut sent_sum = 0u64;
    let mut received_sum = 0u64;
    let mut left = [64000usize, 64000usize];
    let mut turn = 0usize;
    while left[0] + left[1] > 0 {
        seed ^= seed << 13;
        seed ^= seed >> 7;
        seed ^= seed << 17;
        let who = (seed % 2) as usize;
        if left[who] > 0 {
            let num = seed % 1024;
            if senders[who].try_send(&mut buf, num).is_ok() {
                sent_sum += num;
                left[who] -= 1;
            }
        }
        turn += 1;
        if let Ok(Some(num)) = receivers[turn % 2].try_recv(&mut buf) {
            received_sum += num;
        }
    }
    for sender in senders.drain(..) {
        sender.release(&mut buf);
    }
    loop {
        match receivers[0].try_recv(&mut buf) {
            Ok(Some(num)) => received_sum += num,
            Ok(None) => break,
            Err(RecvError) => panic!("the queue is closed"),
        }
    }
    assert_eq!(sent_sum, received_sum);
    assert_eq!(rx.capacity(&buf), 4);
}

#[test]
fn producers_keep_their_own_order() {
    let (mut buf, tx, mut rx) = queue::<Shared, Owned, (u8, u32)>(8);
    let mut first = tx.try_clone(&mut buf);
    let mut second = tx.try_clone(&mut buf);
    let mut last_seen = [0u32, 0u32];
    let mut sent = [0u32, 0u32];
    for round in 0..1000u32 {
        let who = if round % 3 == 0 { 1 } else { 0 };
        let sender = if who == 0 { &mut first } else { &mut second };
        if sender.try_send(&mut buf, (who as u8, sent[who] + 1)).is_ok() {
            sent[who] += 1;
        }
        if round % 2 == 1 {
            if let Ok(Some((from, number))) = rx.try_recv(&mut buf) {
                assert_eq!(number, last_seen[from as usize] + 1);
                last_seen[from as usize] = number;
            }
        }
    }
    while let Ok(Some((from, number))) = rx.try_recv(&mut buf) {
        assert_eq!(number, last_seen[from as usize] + 1);
        last_seen[from as usize] = number;
    }
    assert_eq!(last_seen, sent);
}

#[derive(Debug)]
struct LoudDrop(Rc<Cell<usize>>);

impl Drop for LoudDrop {
    fn drop(&mut self) {
        self.0.set(self.0.get() + 1);
    }
}

#[test]
fn test_drop_unsent() {
    let drop_count = Rc::new(Cell::new(0));

    let sent = 77;
    let received = 18;

    let (mut buf, mut tx, mut rx) = queue::<Owned, Owned, LoudDrop>(128);

    for _ in 0..sent {
        tx.try_send(&mut buf, LoudDrop(drop_count.clone())).unwrap();
    }

    for _ in 0..received {
        forget(rx.try_recv(&mut buf).unwrap());
    }

    tx.release(&mut buf);
    rx.release(&mut buf);
    drop(buf);

    assert_eq!(sent - received, drop_count.get());
}

#[test]
fn competitive_mpmc_keeps_every_message() {
    let (mut buf, tx, rx) = queue::<Competitive, Competitive, u64>(4);
    let mut second_tx = tx.try_clone(&mut buf);
    let mut second_rx = rx.try_clone(&mut buf);
    let mut tx = tx;
    let mut rx = rx;
    let mut received = Vec::new();
    for round in 0..1000u64 {
        let sender = if round % 2 == 0 { &mut tx } else { &mut second_tx };
        let mut msg = round;
        loop {
            match sender.try_send(&mut buf, msg) {
                Ok(()) => break,
                Err(SendError::BufferFull(back)) => {
                    msg = back;
                    let receiver = if round % 3 == 0 { &mut rx } else { &mut second_rx };
                    received.push(receiver.try_recv(&mut buf).unwrap().unwrap());
                }
                Err(SendError::Closed(_)) => panic!("the queue is open"),
            }
        }
    }
    while let Ok(Some(msg)) = rx.try_recv(&mut buf) {
        received.push(msg);
    }
    assert_eq!(received, (0..1000).collect::<Vec<u64>>());
}

#[test]
fn drained_buffer_gives_what_was_left() {
    let (mut buf, mut tx, mut rx) = queue::<Owned, Owned, u32>(8);
    for i in 0..6 {
        tx.try_send(&mut buf, i).unwrap();
    }
    assert_eq!(rx.try_recv(&mut buf), Ok(Some(0)));
    assert_eq!(rx.try_recv(&mut buf), Ok(Some(1)));
    tx.release(&mut buf);
    rx.release(&mut buf);
    assert_eq!(buf.drain(), vec![2, 3, 4, 5]);
}

#[test]
fn counters_of_a_queue_wrap_around_the_ring() {
    // Far more messages than slots: the slots are used over and over.
    let (mut buf, mut tx, mut rx) = queue::<Shared, Shared, usize>(2);
    for i in 0..10_000 {
        assert_eq!(tx.try_send(&mut buf, i), Ok(()));
        assert_eq!(tx.try_send(&mut buf, i + 1), Ok(()));
        assert_eq!(tx.try_send(&mut buf, i + 2), Err(SendError::BufferFull(i + 2)));
        assert_eq!(rx.try_recv(&mut buf), Ok(Some(i)));
        assert_eq!(rx.try_recv(&mut buf), Ok(Some(i + 1)));
        assert_eq!(rx.try_recv(&mut buf), Err(RecvError));
    }
}

#[test]
fn idle_endpoints_join_in_after_many_steps_of_others() {
    let (mut buf, mut busy, mut taker) = queue::<Shared, Competitive, u32>(4);
    let mut idle = busy.try_clone(&mut buf);
    let mut idle_taker = taker.try_clone(&mut buf);
    for n in 0..100_000u32 {
        assert_eq!(busy.try_send(&mut buf, n), Ok(()));
        assert_eq!(taker.try_recv(&mut buf), Ok(Some(n)));
    }
    assert_eq!(idle.try_send(&mut buf, 7), Ok(()));
    assert_eq!(busy.try_send(&mut buf, 8), Ok(()));
    assert_eq!(idle_taker.try_recv(&mut buf), Ok(Some(7)));
    assert_eq!(taker.try_recv(&mut buf), Ok(Some(8)));
    assert_eq!(idle_taker.try_recv(&mut buf), Err(RecvError));
}
