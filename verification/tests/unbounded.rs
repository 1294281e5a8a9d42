use ring_channel::queue::unbounded::{queue, RecvError, SendError};
use ring_channel::sequence::{Owned, Shared};

#[test]
fn unbounded_spsc_grows_and_keeps_order() {
    let (mut store, mut tx, mut rx) = queue::<Owned, Owned, usize>();
    for i in 0..1_000_000 {
        assert_eq!(tx.try_send(&mut store, i), Ok(()));
    }
    // The segments double: 1, 2, 4, 8, ...
    let capacities: Vec<usize> = store.nodes[1..]
        .iter()
        .map(|node| node.buf.as_ref().unwrap().capacity())
        .collect();
    assert_eq!(capacities.len(), 20);
    for (i, capacity) in capacities.iter().enumerate() {
        assert_eq!(*capacity, 1usize << i);
    }
    for i in 0..1_000_000 {
        assert_eq!(rx.try_recv(&mut store), Ok(Some(i)));
    }
    assert_eq!(rx.try_recv(&mut store), Err(RecvError));
    tx.release(&mut store);
    assert_eq!(rx.try_recv(&mut store), Ok(None));
}

#[test]
fn unbounded_interleaved_spsc() {
    let (mut store, mut tx, mut rx) = queue::<Owned, Owned, usize>();
    assert_eq!(rx.try_recv(&mut store), Err(RecvError));
    let mut next_out = 0;
    for i in 0..64000 {
        tx.try_send(&mut store, i).unwrap();
        if i % 3 == 0 {
            assert_eq!(rx.try_recv(&mut store), Ok(Some(next_out)));
            next_out += 1;
        }
    }
    while next_out < 64000 {
        assert_eq!(rx.try_recv(&mut store), Ok(Some(next_out)));
        next_out += 1;
    }
    assert_eq!(rx.try_recv(&mut store), Err(RecvError));
    assert!(!rx.is_closed(&store));
    tx.close(&mut store);
    assert!(rx.is_closed(&store));
    assert_eq!(tx.try_send(&mut store, 7), Err(SendError(7)));
    assert_eq!(rx.try_recv(&mut store), Ok(None));
}

#[test]
fn unbounded_closed_before_any_send() {
    let (mut store, tx, mut rx) = queue::<Owned, Owned, u8>();
    tx.release(&mut store);
    assert_eq!(rx.try_recv(&mut store), Ok(None));
}

#[test]
fn unbounded_mpmc_sums_agree() {
    let (mut store, tx, rx) = queue::<Shared, Shared, u64>();
    let mut senders = vec![tx.try_clone(&mut store), tx.try_clone(&mut store)];
    let mut receivers = vec![rx.try_clone(&mut store), rx.try_clone(&mut store)];
    tx.release(&mut store);
    rx.release(&mut store);
    let mut seed: u64 = 88172645463325252;
    let mut sent_sum = 0u64;
    let mut received_sum = 0u64;
    let mut sent = 0usize;
    let mut received = 0usize;
    while sent < 20000 {
        seed ^= seed << 13;
        seed ^= seed >> 7;
        seed ^= seed << 17;
        let who = (seed % 2) as usize;
        let num = seed % 1024;
        if senders[who].try_send(&mut store, num).is_ok() {
            sent_sum += num;
            sent += 1;
        }
        if seed % 3 == 0 {
            if let Ok(Some(num)) = receivers[(seed % 2) as usize].try_recv(&mut store) {
                received_sum += num;
                received += 1;
            }
        }
    }
    for sender in senders.drain(..) {
        sender.release(&mut store);
    }
    let mut idle = 0;
    while received < sent && idle < 100 {
        let mut progress = false;
        for receiver in receivers.iter_mut() {
            if let Ok(Some(num)) = receiver.try_recv(&mut store) {
                received_sum += num;
                received += 1;
                progress = true;
            }
        }
        if !progress {
            idle += 1;
        }
    }
    assert_eq!(received, sent);
    assert_eq!(sent_sum, received_sum);
}

#[test]
fn a_sender_goes_on_after_a_closed_segment() {
    let (mut store, mut first, mut rx) = queue::<Shared, Owned, u32>();
    assert_eq!(first.try_send(&mut store, 1), Ok(()));
    let mut second = first.try_clone(&mut store);
    // The first sender leaves and closes the segment that it alone held;
    // the queue stays open for the second one.
    first.release(&mut store);
    assert_eq!(second.try_send(&mut store, 2), Ok(()));
    assert_eq!(second.try_send(&mut store, 3), Ok(()));
    assert_eq!(rx.try_recv(&mut store), Ok(Some(1)));
    assert_eq!(rx.try_recv(&mut store), Ok(Some(2)));
    assert_eq!(rx.try_recv(&mut store), Ok(Some(3)));
    assert_eq!(rx.try_recv(&mut store), Err(RecvError));
    second.release(&mut store);
    assert_eq!(rx.try_recv(&mut store), Ok(None));
}

#[test]
fn unbounded_senders_and_receivers_take_turns() {
    let (mut store, mut a, mut x) = queue::<Shared, Shared, u32>();
    let mut b = a.try_clone(&mut store);
    let mut y = x.try_clone(&mut store);
    let mut got = Vec::new();
    for n in 0..1000u32 {
        let sender = if n % 3 == 0 { &mut b } else { &mut a };
        assert_eq!(sender.try_send(&mut store, n), Ok(()));
        if n % 2 == 1 {
            let receiver = if n % 4 == 1 { &mut x } else { &mut y };
            if let Ok(Some(v)) = receiver.try_recv(&mut store) {
                got.push(v);
            }
        }
    }
    a.release(&mut store);
    b.release(&mut store);
    loop {
        match x.try_recv(&mut store) {
            Ok(Some(v)) => got.push(v),
            Ok(None) => break,
            Err(RecvError) => match y.try_recv(&mut store) {
                Ok(Some(v)) => got.push(v),
                Ok(None) => break,
                Err(RecvError) => panic!("an open segment holds back a closed queue"),
            },
        }
    }
    assert_eq!(got, (0..1000u32).collect::<Vec<u32>>());
}
