use coordkit::spsc::channel;
use coordkit::spsc::Half;
use coordkit::spsc::Next;
use coordkit::spsc::Offer;
use coordkit::spsc::Passage;
use coordkit::spsc::RecvError;
use coordkit::spsc::Ring;
use coordkit::spsc::SendError;
use coordkit::spsc::Taken;
use std::cell::RefCell;
use std::rc::Rc;
use std::sync::atomic::AtomicUsize;
use std::sync::atomic::Ordering;
use std::sync::Arc;

#[test]
fn send_recv_alternating() {
    // Single-threaded: send one, recv one, cycling through the buffer many more
    // times than its capacity.
    let (px, cx) = channel(4);
    let cycles = 10_000;
    for i in 0..cycles {
        px.send(i).unwrap();
        assert_eq!(cx.recv().unwrap(), i);
    }
}

#[test]
fn iterator_fuses_after_close() {
    let (px, cx) = channel(4);
    px.send(1).unwrap();
    px.send(2).unwrap();
    drop(px);
    let mut iter = cx.into_iter();
    assert_eq!(iter.next(), Some(1));
    assert_eq!(iter.next(), Some(2));
    assert_eq!(iter.next(), None);
    assert_eq!(iter.next(), None);
}

#[test]
fn messages_arrive_in_order_up_to_the_capacity() {
    let (px, cx) = channel(64);
    for i in 0..64 {
        px.send(i).unwrap();
    }
    drop(px);
    for i in 0..64 {
        assert_eq!(cx.recv().unwrap(), i);
    }
    assert!(cx.recv().is_err());
}

#[test]
fn zero_sized_messages_are_counted() {
    let (px, cx) = channel::<()>(8);
    for _ in 0..8 {
        px.send(()).unwrap();
    }
    drop(px);
    for _ in 0..8 {
        cx.recv().unwrap();
    }
    assert!(cx.recv().is_err());
}

#[test]
fn send_to_a_dropped_consumer_gives_the_value_back() {
    let (px, cx) = channel(2);
    px.send(7).unwrap();
    drop(cx);
    let e = px.send(8).unwrap_err();
    assert_eq!(e.0, 8);
    assert_eq!(e.message(), "send on closed channel");
}

#[test]
fn recv_from_a_dropped_producer_drains_first() {
    let (px, cx) = channel(2);
    px.send("a").unwrap();
    drop(px);
    assert_eq!(cx.recv().unwrap(), "a");
    assert_eq!(cx.recv().unwrap_err().message(), "receive on closed and empty channel");
}

#[derive(Debug)]
struct Tally(Arc<AtomicUsize>);

impl Drop for Tally {
    fn drop(&mut self) {
        self.0.fetch_add(1, Ordering::SeqCst);
    }
}

#[test]
fn undelivered_messages_are_dropped_once() {
    let dropped = Arc::new(AtomicUsize::new(0));
    let (px, cx) = channel(8);
    for _ in 0..5 {
        px.send(Tally(Arc::clone(&dropped))).unwrap();
    }
    drop(cx.recv().unwrap());
    assert_eq!(dropped.load(Ordering::SeqCst), 1);
    drop(cx);
    drop(px);
    assert_eq!(dropped.load(Ordering::SeqCst), 5);
}

#[test]
fn halves_can_be_sent_to_other_threads() {
    fn is_send<T: Send>(_: &T) {}
    let (px, cx) = channel::<u64>(1);
    is_send(&px);
    is_send(&cx);
}

#[test]
fn capacity_zero_counts_as_one() {
    let mut ring: Ring<u8> = Ring::new(0);
    assert!(matches!(ring.offer(1, false), Offer::Sent));
    assert!(matches!(ring.offer(2, false), Offer::Full(2)));
}

#[test]
fn ring_steps_are_exact() {
    let mut ring: Ring<u8> = Ring::new(2);
    assert!(matches!(ring.take(false), Taken::Empty));
    assert!(matches!(ring.take(true), Taken::Closed));
    assert!(matches!(ring.offer(1, false), Offer::Sent));
    assert!(matches!(ring.offer(2, false), Offer::Sent));
    assert!(matches!(ring.offer(3, false), Offer::Full(3)));
    assert!(matches!(ring.offer(4, true), Offer::Closed(4)));
    assert!(matches!(ring.take(true), Taken::Received(1)));
    assert!(matches!(ring.offer(5, false), Offer::Sent));
    assert!(matches!(ring.take(false), Taken::Received(2)));
    assert!(matches!(ring.take(false), Taken::Received(5)));
    assert!(matches!(ring.take(false), Taken::Empty));
}

#[test]
fn ring_keeps_sent_equal_to_received_and_in_transit() {
    let mut ring: Ring<u32> = Ring::new(3);
    let log = Rc::new(RefCell::new(Vec::new()));
    let mut sent = Vec::new();
    for i in 0..100u32 {
        if let Offer::Sent = ring.offer(i, false) {
            sent.push(i);
        }
        if i % 3 != 0 {
            if let Taken::Received(v) = ring.take(false) {
                log.borrow_mut().push(v);
            }
        }
    }
    while let Taken::Received(v) = ring.take(true) {
        log.borrow_mut().push(v);
    }
    assert_eq!(*log.borrow(), sent);
}

#[test]
fn passage_steps_are_exact() {
    let mut p: Passage<u8> = Passage::new(2);
    assert!(p.must_wait(Half::Consumer));
    assert!(!p.must_wait(Half::Producer));
    assert!(matches!(p.take(), Taken::Empty));
    assert!(matches!(p.offer(1), Offer::Sent));
    assert!(!p.must_wait(Half::Consumer));
    assert!(matches!(p.offer(2), Offer::Sent));
    assert!(p.must_wait(Half::Producer));
    assert!(matches!(p.offer(3), Offer::Full(3)));
    assert!(matches!(p.take(), Taken::Received(1)));
    p.leave(Half::Producer);
    assert!(!p.must_wait(Half::Consumer));
    assert!(matches!(p.take(), Taken::Received(2)));
    assert!(matches!(p.take(), Taken::Closed));
    assert!(matches!(p.take(), Taken::Closed));
    assert!(!p.must_wait(Half::Consumer));
}

#[test]
fn passage_run_accounts_for_every_message() {
    let mut p: Passage<u32> = Passage::new(3);
    let mut sent = Vec::new();
    let mut received = Vec::new();
    for i in 0..60u32 {
        match p.offer(i) {
            Offer::Sent => sent.push(i),
            Offer::Full(v) => {
                assert_eq!(v, i);
                assert_eq!(sent.len(), received.len() + 3);
            }
            Offer::Closed(_) => panic!("the consumer is there"),
        }
        if i % 3 != 0 {
            match p.take() {
                Taken::Received(v) => received.push(v),
                Taken::Empty => assert_eq!(received, sent),
                Taken::Closed => panic!("the producer is there"),
            }
        }
    }
    p.leave(Half::Producer);
    while let Taken::Received(v) = p.take() {
        received.push(v);
    }
    assert_eq!(received, sent);
    assert!(matches!(p.take(), Taken::Closed));
    p.leave(Half::Consumer);
    assert!(matches!(p.offer(99), Offer::Closed(99)));
}

#[test]
fn lost_consumer_ends_the_wait_for_room() {
    let mut p: Passage<u8> = Passage::new(0);
    assert!(matches!(p.offer(1), Offer::Sent));
    assert!(p.must_wait(Half::Producer));
    p.leave(Half::Consumer);
    assert!(!p.must_wait(Half::Producer));
    assert!(matches!(p.offer(2), Offer::Closed(2)));
}

#[test]
fn what_a_half_does_next() {
    assert!(matches!(Offer::<u8>::Sent.next(), Next::Return(Ok(()))));
    assert!(matches!(Offer::Closed(4u8).next(), Next::Return(Err(SendError(4)))));
    assert!(matches!(Offer::Full(5u8).next(), Next::Wait(5)));
    assert!(matches!(Taken::Received(6u8).next(), Next::Return(Ok(6))));
    assert!(matches!(Taken::<u8>::Closed.next(), Next::Return(Err(RecvError))));
    assert!(matches!(Taken::<u8>::Empty.next(), Next::Wait(())));
}

#[test]
fn channel_errors_are_plain_values() {
    let e: SendError<u8> = SendError(3);
    assert_eq!(format!("{:?}", e), "SendError(3)");
    assert_eq!(format!("{:?}", RecvError), "RecvError");
}
