use crossync::base::futex::FutexCall;
use crossync::sync::barrier::Arrival;
use crossync::sync::Barrier;

#[test]
fn barrier_test_new() {
    let barrier = Barrier::new();
    assert_eq!(barrier.count(), 1);
}

#[test]
fn barrier_test_default() {
    let barrier = Barrier::default();
    assert_eq!(barrier.count(), 1);
}

#[test]
fn barrier_test_with_capacity() {
    let barrier = Barrier::with_capacity(5, 0);
    assert_eq!(barrier.count(), 7);
    let barrier_reusable = Barrier::with_capacity(3, 3);
    assert_eq!(barrier_reusable.count(), 5);
}

#[test]
fn test_single_thread_no_block() {
    let mut barrier = Barrier::new();
    assert_eq!(barrier.wait(), Arrival::Pass);
    assert_eq!(barrier.count(), 1);
}

#[test]
fn test_single_clone_no_block() {
    let mut barrier = Barrier::with_capacity(5, 0);
    assert_eq!(barrier.wait(), Arrival::Pass);
    assert_eq!(barrier.count(), 7);
}

#[test]
fn test_clone() {
    let mut barrier = Barrier::with_capacity(2, 0);
    let before = barrier.count();
    barrier.clone_ref();
    assert_eq!(barrier.count(), before);
}

#[test]
fn barrier_test_clone_multiple() {
    let mut barrier = Barrier::with_capacity(3, 0);
    barrier.clone_ref();
    barrier.clone_ref();
    barrier.clone_ref();
    assert!(!barrier.drop_ref());
    assert!(!barrier.drop_ref());
    assert_eq!(barrier.count(), 5);
}

#[test]
fn test_drop_releases_memory() {
    let mut barrier = Barrier::with_capacity(2, 0);
    barrier.clone_ref();
    barrier.clone_ref();
    assert!(!barrier.drop_ref());
    assert!(!barrier.drop_ref());
    assert!(barrier.drop_ref());
}

#[test]
fn test_zero_capacity() {
    let barrier = Barrier::with_capacity(0, 0);
    assert_eq!(barrier.count(), 2);
}

#[test]
fn barrier_test_large_capacity() {
    let barrier = Barrier::with_capacity(100, 0);
    assert_eq!(barrier.count(), 102);
}

#[test]
fn the_last_of_a_group_releases_the_others() {
    let mut barrier = Barrier::with_capacity(3, 2);
    barrier.clone_ref();
    assert_eq!(barrier.wait(), Arrival::Block);
    assert_eq!(barrier.wait(), Arrival::Block);
    assert_eq!(
        barrier.wait(),
        Arrival::Release { call: FutexCall::Wake { count: u32::MAX } }
    );
    assert_eq!(barrier.count(), 4);
    assert_eq!(barrier.wait(), Arrival::Block);
    assert!(matches!(barrier.wait(), Arrival::Release { .. }));
    assert_eq!(barrier.count(), 4);
}

#[test]
fn a_barrier_without_a_bucket_is_disabled_after_use() {
    let mut barrier = Barrier::with_capacity(1, 0);
    barrier.clone_ref();
    assert!(matches!(barrier.wait(), Arrival::Release { .. }));
    assert_eq!(barrier.count(), 0);
    assert_eq!(barrier.wait(), Arrival::Pass);
}

#[test]
fn a_shared_barrier_for_one_waiter_is_a_no_op() {
    let mut barrier = Barrier::new();
    barrier.clone_ref();
    assert_eq!(barrier.glance(), None);
    assert_eq!(barrier.wait(), Arrival::Pass);
    assert_eq!(barrier.wait(), Arrival::Pass);
    assert_eq!(barrier.count(), 1);
    assert_eq!(barrier.release(), FutexCall::Wake { count: u32::MAX });
    assert_eq!(barrier.count(), 1);
}

#[test]
fn a_thread_that_comes_late_still_counts_itself() {
    let mut barrier = Barrier::with_capacity(3, 3);
    barrier.clone_ref();
    let seen = barrier.glance().unwrap();
    assert_eq!(seen, 5);
    assert_eq!(barrier.wait(), Arrival::Block);
    assert_eq!(barrier.arrive(seen), Arrival::Block);
    assert_eq!(barrier.count(), 3);
}

#[test]
fn a_thread_passes_that_finds_the_barrier_disabled_meanwhile() {
    let mut barrier = Barrier::with_capacity(1, 0);
    barrier.clone_ref();
    let seen = barrier.glance().unwrap();
    assert!(matches!(barrier.wait(), Arrival::Release { .. }));
    assert_eq!(barrier.arrive(seen), Arrival::Pass);
    assert_eq!(barrier.count(), 0);
}

#[test]
fn a_barrier_for_a_group_of_none_blocks_whoever_comes() {
    for bucket in [0, 4] {
        let mut barrier = Barrier::with_capacity(0, bucket);
        barrier.clone_ref();
        assert_eq!(barrier.count(), 2);
        assert_eq!(barrier.wait(), Arrival::Block);
        assert_eq!(barrier.count(), 1);
        assert_eq!(barrier.wait(), Arrival::Block);
        assert_eq!(barrier.wait(), Arrival::Block);
        assert_eq!(barrier.count(), 1);
    }
}
