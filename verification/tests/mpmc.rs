use crossync::base::futex::FutexCall;
use crossync::channels::mpmc::{Mpmc, Receipt};
use std::sync::atomic::{AtomicUsize, Ordering};
use std::sync::Arc;
use std::time::{Duration, Instant};

#[derive(Debug)]
struct DropTracker {
    counter: Arc<AtomicUsize>,
}

impl DropTracker {
    fn new(counter: Arc<AtomicUsize>) -> Self {
        counter.fetch_add(1, Ordering::SeqCst);
        Self { counter }
    }
}

impl Drop for DropTracker {
    fn drop(&mut self) {
        self.counter.fetch_sub(1, Ordering::SeqCst);
    }
}

#[test]
fn test_new_unbounded() {
    let mut chan: Mpmc<i32> = Mpmc::new();
    assert!(chan.try_recv().is_none());
}

#[test]
fn test_bounded() {
    let mut chan: Mpmc<i32> = Mpmc::bounded(5);
    assert!(chan.try_recv().is_none());
}

#[test]
fn test_bounded_zero_is_unbounded() {
    let mut chan: Mpmc<i32> = Mpmc::bounded(0);
    for i in 0..100 {
        assert!(chan.send(i).is_ok());
    }
}

#[test]
fn test_send_try_recv() {
    let mut chan = Mpmc::new();
    assert!(chan.try_recv().is_none());
    chan.send(42).unwrap();
    assert_eq!(chan.try_recv(), Some(42));
    assert!(chan.try_recv().is_none());
}

#[test]
fn test_send_recv_blocking() {
    let mut chan = Mpmc::new();
    chan.send(100).unwrap();
    assert_eq!(chan.recv(), Some(100));
}

#[test]
fn test_fifo_order() {
    let mut chan = Mpmc::new();
    for i in 0..10 {
        chan.send(i).unwrap();
    }
    for i in 0..10 {
        assert_eq!(chan.try_recv(), Some(i));
    }
}

#[test]
fn test_multiple_values() {
    let mut chan = Mpmc::new();
    chan.send("hello").unwrap();
    chan.send("world").unwrap();
    chan.send("!").unwrap();
    assert_eq!(chan.try_recv(), Some("hello"));
    assert_eq!(chan.try_recv(), Some("world"));
    assert_eq!(chan.try_recv(), Some("!"));
    assert!(chan.try_recv().is_none());
}

#[test]
fn test_bounded_capacity() {
    let mut chan = Mpmc::bounded(2);
    assert!(chan.send(1).is_ok());
    assert!(chan.send(2).is_ok());
    assert!(chan.send(3).is_err());
    assert_eq!(chan.try_recv(), Some(1));
    assert!(chan.send(3).is_ok());
    assert_eq!(chan.try_recv(), Some(2));
    assert_eq!(chan.try_recv(), Some(3));
    assert!(chan.try_recv().is_none());
}

#[test]
fn test_bounded_returns_value_on_error() {
    let mut chan = Mpmc::bounded(1);
    chan.send(1).unwrap();
    let result = chan.send(2);
    assert!(result.is_err());
    assert_eq!(result.unwrap_err(), 2);
}

#[test]
fn test_close_rejects_send() {
    let mut chan = Mpmc::new();
    chan.send(10).unwrap();
    chan.close();
    assert!(chan.send(20).is_err());
}

#[test]
fn test_close_allows_drain() {
    let mut chan = Mpmc::new();
    chan.send(1).unwrap();
    chan.send(2).unwrap();
    chan.send(3).unwrap();
    chan.close();
    assert_eq!(chan.try_recv(), Some(1));
    assert_eq!(chan.try_recv(), Some(2));
    assert_eq!(chan.try_recv(), Some(3));
    assert!(chan.try_recv().is_none());
}

#[test]
fn test_recv_on_closed_empty() {
    let mut chan: Mpmc<i32> = Mpmc::new();
    chan.close();
    let start = Instant::now();
    assert_eq!(chan.recv(), None);
    assert!(start.elapsed() < Duration::from_millis(100));
}

#[test]
fn test_empty_recv_then_send() {
    let mut chan = Mpmc::new();
    assert!(chan.try_recv().is_none());
    assert!(chan.try_recv().is_none());
    chan.send(1).unwrap();
    assert_eq!(chan.try_recv(), Some(1));
}

#[test]
fn mpmc_test_complex_type() {
    let mut chan = Mpmc::new();
    chan.send(vec![1, 2, 3]).unwrap();
    chan.send(vec![4, 5]).unwrap();
    assert_eq!(chan.try_recv(), Some(vec![1, 2, 3]));
    assert_eq!(chan.try_recv(), Some(vec![4, 5]));
}

#[test]
fn test_string_channel() {
    let mut chan = Mpmc::new();
    chan.send(String::from("hello")).unwrap();
    chan.send(String::from("world")).unwrap();
    assert_eq!(chan.recv(), Some(String::from("hello")));
    assert_eq!(chan.recv(), Some(String::from("world")));
}

#[test]
fn test_option_type() {
    let mut chan: Mpmc<Option<i32>> = Mpmc::new();
    chan.send(Some(42)).unwrap();
    chan.send(None).unwrap();
    chan.send(Some(99)).unwrap();
    assert_eq!(chan.try_recv(), Some(Some(42)));
    assert_eq!(chan.try_recv(), Some(None));
    assert_eq!(chan.try_recv(), Some(Some(99)));
}

#[test]
fn test_rapid_send_recv() {
    let mut chan = Mpmc::new();
    for _ in 0..100 {
        chan.send(42).unwrap();
        assert_eq!(chan.try_recv(), Some(42));
    }
}

#[test]
fn test_bounded_one() {
    let mut chan = Mpmc::bounded(1);
    assert!(chan.send(1).is_ok());
    assert!(chan.send(2).is_err());
    assert_eq!(chan.try_recv(), Some(1));
    assert!(chan.send(2).is_ok());
    assert_eq!(chan.try_recv(), Some(2));
}

#[test]
fn mpmc_test_no_leak_on_drop() {
    let counter = Arc::new(AtomicUsize::new(0));
    {
        let mut chan = Mpmc::new();
        for _ in 0..10 {
            chan.send(DropTracker::new(counter.clone())).unwrap();
        }
        assert_eq!(counter.load(Ordering::SeqCst), 10);
    }
    assert_eq!(counter.load(Ordering::SeqCst), 0, "Memory leak detected");
}

#[test]
fn test_no_leak_on_recv() {
    let counter = Arc::new(AtomicUsize::new(0));
    let mut chan = Mpmc::new();
    for _ in 0..5 {
        chan.send(DropTracker::new(counter.clone())).unwrap();
    }
    assert_eq!(counter.load(Ordering::SeqCst), 5);
    while chan.try_recv().is_some() {}
    assert_eq!(counter.load(Ordering::SeqCst), 0);
}

#[test]
fn test_no_leak_bounded_reject() {
    let counter = Arc::new(AtomicUsize::new(0));
    let mut chan = Mpmc::bounded(1);
    chan.send(DropTracker::new(counter.clone())).unwrap();
    let rejected = chan.send(DropTracker::new(counter.clone()));
    assert!(rejected.is_err());
    drop(rejected);
    assert_eq!(counter.load(Ordering::SeqCst), 1);
    drop(chan);
    assert_eq!(counter.load(Ordering::SeqCst), 0);
}

#[test]
fn test_send_recv() {
    let mut chan = Mpmc::new();
    assert!(chan.try_recv().is_none());
    chan.send(42).unwrap();
    assert_eq!(chan.try_recv(), Some(42));
    assert!(chan.try_recv().is_none());
}

#[test]
fn test_bounded_channel() {
    let mut chan = Mpmc::bounded(2);
    assert!(chan.send(1).is_ok());
    assert!(chan.send(2).is_ok());
    assert!(chan.send(3).is_err());
    assert_eq!(chan.try_recv(), Some(1));
    assert!(chan.send(3).is_ok());
    assert_eq!(chan.try_recv(), Some(2));
    assert_eq!(chan.try_recv(), Some(3));
    assert!(chan.try_recv().is_none());
}

#[test]
fn test_close_channel() {
    let mut chan = Mpmc::new();
    chan.send(10).unwrap();
    chan.close();
    assert!(chan.send(20).is_err());
    assert_eq!(chan.try_recv(), Some(10));
    assert!(chan.try_recv().is_none());
}

#[test]
fn test_recv_after_close_empty() {
    let mut chan: Mpmc<i32> = Mpmc::new();
    chan.close();
    assert_eq!(chan.recv(), None);
}

#[test]
fn test_clone_shares_channel() {
    let mut chan = Mpmc::new();
    chan.clone_ref();
    chan.clone_ref();
    chan.send(100).unwrap();
    assert_eq!(chan.try_recv(), Some(100));
    assert!(chan.try_recv().is_none());
    chan.send(200).unwrap();
    assert_eq!(chan.try_recv(), Some(200));
}

#[test]
fn mpmc_test_clone_drop_partial() {
    let mut chan = Mpmc::new();
    chan.clone_ref();
    chan.clone_ref();
    chan.send(42).unwrap();
    assert!(!chan.drop_ref());
    assert!(!chan.drop_ref());
    assert_eq!(chan.try_recv(), Some(42));
}

#[test]
fn mpmc_test_clone_refcount() {
    let mut chan = Mpmc::new();
    chan.clone_ref();
    chan.clone_ref();
    chan.send(100).unwrap();
    assert_eq!(chan.try_recv(), Some(100));
    assert!(chan.try_recv().is_none());
    assert!(!chan.drop_ref());
    assert!(!chan.drop_ref());
    assert!(chan.drop_ref());
}

#[test]
fn a_receiver_sleeps_only_on_an_open_empty_channel() {
    let mut chan: Mpmc<u8> = Mpmc::new();
    assert!(matches!(chan.poll_recv(), Receipt::Block));
    assert_eq!(chan.enqueue(5), FutexCall::Wake { count: 1 });
    assert!(matches!(chan.poll_recv(), Receipt::Message(5)));
    assert_eq!(chan.close(), FutexCall::Wake { count: u32::MAX });
    assert!(matches!(chan.poll_recv(), Receipt::Closed));
    assert!(!chan.accepts());
}

#[test]
fn messages_come_out_as_they_went_in() {
    let mut chan = Mpmc::new();
    for i in 0..200 {
        chan.send(i).unwrap();
    }
    for i in 0..100 {
        assert_eq!(chan.recv(), Some(i));
    }
    for i in 200..300 {
        chan.send(i).unwrap();
    }
    for i in 100..300 {
        assert_eq!(chan.try_recv(), Some(i));
    }
    assert_eq!(chan.try_recv(), None);
}

#[test]
fn a_channel_counts_its_room() {
    let mut chan = Mpmc::bounded(1);
    let room = chan.room_left();
    chan.send(1).unwrap();
    assert_eq!(chan.send(2), Err(2));
    assert_eq!(chan.recv(), Some(1));
    assert_eq!(chan.room_left(), room - 1);
}
