use crossync::base::futex::{futex_wait, futex_wake, futex_wake_all, FutexCall};
use std::time::{Duration, Instant};

#[test]
fn test_wake_null_pointer() {
    assert_eq!(futex_wake(None), FutexCall::Nothing);
    assert_eq!(futex_wake_all(None), FutexCall::Nothing);
}

#[test]
fn test_wake_no_waiters() {
    let a: usize = 0;
    assert_eq!(futex_wake(Some(a)), FutexCall::Wake { count: 1 });
    assert_eq!(futex_wake_all(Some(a)), FutexCall::Wake { count: u32::MAX });
}

#[test]
fn test_wake_dangling_safe() {
    let a: usize = 42;
    let word = Some(a);
    assert_eq!(futex_wake(word), FutexCall::Wake { count: 1 });
}

#[test]
fn test_wait_value_mismatch_returns_immediately() {
    let a: usize = 0;
    let start = Instant::now();
    assert_eq!(futex_wait(a, 1), FutexCall::Nothing);
    let elapsed = start.elapsed();
    assert!(elapsed < Duration::from_millis(50), "wait blocked unexpectedly");
}

#[test]
fn test_wait_value_mismatch_various() {
    let a: usize = 100;
    for wrong_value in [0, 1, 50, 99, 101, usize::MAX] {
        let start = Instant::now();
        assert_eq!(futex_wait(a, wrong_value), FutexCall::Nothing);
        assert!(start.elapsed() < Duration::from_millis(50));
    }
}

#[test]
fn test_value_boundaries() {
    let a: usize = usize::MAX;
    let start = Instant::now();
    assert_eq!(futex_wait(a, 0), FutexCall::Nothing);
    assert_eq!(futex_wait(a, usize::MAX - 1), FutexCall::Nothing);
    assert!(start.elapsed() < Duration::from_millis(50));
}

#[test]
fn test_zero_value() {
    let a: usize = 0;
    assert_eq!(futex_wake(Some(a)), FutexCall::Wake { count: 1 });
    assert_eq!(futex_wake_all(Some(a)), FutexCall::Wake { count: u32::MAX });
    let start = Instant::now();
    assert_eq!(futex_wait(a, 1), FutexCall::Nothing);
    assert!(start.elapsed() < Duration::from_millis(50));
}

#[test]
fn matching_value_sleeps_on_the_lower_half() {
    assert_eq!(futex_wait(7, 7), FutexCall::Wait { expected: 7 });
    let high: usize = 5 << 32;
    assert_eq!(futex_wait(high + 7, 7), FutexCall::Wait { expected: 7 });
    assert_eq!(futex_wait(7, high + 7), FutexCall::Wait { expected: 7 });
    assert_eq!(futex_wait(usize::MAX, usize::MAX), FutexCall::Wait { expected: u32::MAX });
}

#[test]
fn a_counter_that_moved_on_keeps_nobody_asleep() {
    for seen in [0usize, 41, u32::MAX as usize, usize::MAX] {
        for times in [1usize, 2, u32::MAX as usize] {
            let now = seen.wrapping_add(times);
            assert_eq!(futex_wait(now, seen), FutexCall::Nothing);
        }
        assert_eq!(futex_wait(seen, seen), FutexCall::Wait { expected: seen as u32 });
    }
}
