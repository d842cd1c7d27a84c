use code_statistics::queue::{ChannelState, Received, Ring};
use code_statistics::{channel, Receiver};
use std::task::{Context, Waker};

fn poll<T, const S: usize>(rx: &Receiver<T, S>) -> Received<T> {
    let waker = Waker::noop();
    let mut cx = Context::from_waker(&waker);
    rx.poll_next_inner(&mut cx)
}

#[test]
fn ring_keeps_send_order() {
    let mut ring: Ring<u32, 3> = Ring::new();
    ring.push(1);
    ring.push(2);
    assert_eq!(ring.len(), 2);
    assert_eq!(ring.pop(), Some(1));
    assert_eq!(ring.pop(), Some(2));
    assert_eq!(ring.pop(), None);
}

#[test]
fn ring_full_overwrites_oldest() {
    let mut ring: Ring<u32, 3> = Ring::new();
    for v in 1..=5 {
        ring.push(v);
    }
    assert_eq!(ring.len(), 3);
    assert_eq!(ring.pop(), Some(3));
    assert_eq!(ring.pop(), Some(4));
    assert_eq!(ring.pop(), Some(5));
    assert_eq!(ring.pop(), None);
}

#[test]
fn ring_wraps_around_many_times() {
    let mut ring: Ring<u32, 2> = Ring::new();
    for v in 0..10 {
        ring.push(v);
        assert_eq!(ring.pop(), Some(v));
    }
    assert_eq!(ring.len(), 0);
}

#[test]
fn state_parks_waker_and_hands_it_to_send() {
    let st: ChannelState<u8, 4> = ChannelState::new();
    let (st, r) = st.receive(false, Waker::noop().clone());
    assert!(matches!(r, Received::Pending));
    let (st, w) = st.send(7);
    assert!(w.is_some());
    let (st, w) = st.send(8);
    assert!(w.is_none());
    let (st, r) = st.receive(false, Waker::noop().clone());
    assert!(matches!(r, Received::Value(7)));
    let (st, r) = st.receive(true, Waker::noop().clone());
    assert!(matches!(r, Received::Closed));
    let (_st, r) = st.receive(false, Waker::noop().clone());
    assert!(matches!(r, Received::Value(8)));
}

#[test]
fn channel_delivers_in_order() {
    let (tx, rx) = channel::<u32, 5>();
    tx.send(1);
    tx.send(2);
    assert!(matches!(poll(&rx), Received::Value(1)));
    assert!(matches!(poll(&rx), Received::Value(2)));
    assert!(matches!(poll(&rx), Received::Pending));
}

#[test]
fn channel_full_drops_oldest() {
    let (tx, rx) = channel::<u32, 2>();
    tx.send(1);
    tx.send(2);
    tx.send(3);
    assert!(matches!(poll(&rx), Received::Value(2)));
    assert!(matches!(poll(&rx), Received::Value(3)));
    assert!(matches!(poll(&rx), Received::Pending));
}

#[test]
fn channel_closes_when_senders_dropped() {
    let (tx, rx) = channel::<u32, 5>();
    let tx2 = tx.clone();
    tx2.send(4);
    drop(tx);
    assert!(matches!(poll(&rx), Received::Value(4)));
    assert!(matches!(poll(&rx), Received::Pending));
    tx2.send(5);
    drop(tx2);
    assert!(matches!(poll(&rx), Received::Closed));
    assert!(matches!(poll(&rx), Received::Closed));
}

#[test]
fn send_after_receiver_dropped_is_noop() {
    let (tx, rx) = channel::<String, 5>();
    drop(rx);
    tx.send("late".to_string());
    let tx2 = tx.clone();
    tx2.send("later".to_string());
}
