use crossync::base::futex::FutexCall;
use crossync::base::thread::{after_try, ParkStep, ThreadParker};

#[test]
fn thread_test_new() {
    let mut parker = ThreadParker::new();
    assert!(!parker.drop_ref());
    assert!(parker.drop_ref());
}

#[test]
fn thread_test_unpark_before_park() {
    let mut parker = ThreadParker::new();
    parker.unpark();
    assert!(parker.try_consume_token());
}

#[test]
fn thread_test_multiple_tokens() {
    let mut parker = ThreadParker::new();
    parker.unpark();
    parker.unpark();
    parker.unpark();
    parker.park();
    parker.park();
    parker.park();
    assert!(parker.try_consume_token());
    assert!(!parker.try_consume_token());
}

#[test]
fn test_initial_token_consumed() {
    let mut parker = ThreadParker::new();
    assert!(parker.try_consume_token());
    assert!(!parker.try_consume_token());
}

#[test]
fn test_parker_clone() {
    let mut parker = ThreadParker::new();
    parker.clone_ref();
    parker.unpark();
    parker.unpark();
    parker.park();
    parker.park();
}

#[test]
fn test_unparker_clone() {
    let mut parker = ThreadParker::new();
    parker.clone_ref();
    parker.unpark();
    parker.unpark();
    parker.park();
    parker.park();
}

#[test]
fn test_drop_partial_clones() {
    let mut parker = ThreadParker::new();
    parker.clone_ref();
    parker.clone_ref();
    assert!(!parker.drop_ref());
    assert!(!parker.drop_ref());
    parker.unpark();
    parker.park();
}

#[test]
fn test_rapid_park_unpark() {
    let mut parker = ThreadParker::new();
    for _ in 0..100 {
        parker.unpark();
        parker.park();
    }
    assert_eq!(parker.add_token(), 1);
}

#[test]
fn test_unpark_many_then_park_many() {
    let mut parker = ThreadParker::new();
    for _ in 0..50 {
        parker.unpark();
    }
    for _ in 0..50 {
        parker.park();
    }
    assert_eq!(parker.add_token(), 1);
}

#[test]
fn test_interleaved_park_unpark() {
    let mut parker = ThreadParker::new();
    for i in 0..20 {
        if i % 2 == 0 {
            parker.unpark();
            parker.unpark();
        }
        parker.park();
    }
    assert_eq!(parker.add_token(), 1);
}

#[test]
fn a_thread_without_a_token_sleeps() {
    let mut parker = ThreadParker::new();
    assert_eq!(after_try(parker.try_consume_token()), ParkStep::Done);
    assert_eq!(
        after_try(parker.try_consume_token()),
        ParkStep::Sleep { call: FutexCall::Wait { expected: 0 } }
    );
    assert_eq!(parker.unpark(), FutexCall::Wake { count: 1 });
    assert_eq!(after_try(parker.try_consume_token()), ParkStep::Done);
}
