use crossync::base::futex::FutexCall;
use crossync::base::scondvar::{CondOp, CondWait, SCondVar};

#[test]
fn test_notify_without_waiters_is_safe() {
    let mut cv = SCondVar::new();
    cv.notify_one();
    cv.notify_all();
    cv.notify_one();
}

#[test]
fn test_epoch_increments_on_notify() {
    let mut cv = SCondVar::new();
    let initial = cv.epoch();
    cv.notify_one();
    assert_eq!(cv.epoch(), initial + 1);
    cv.notify_all();
    assert_eq!(cv.epoch(), initial + 2);
}

#[test]
fn notifications_wake_one_or_all() {
    let mut cv = SCondVar::new();
    assert_eq!(cv.notify_one(), FutexCall::Wake { count: 1 });
    assert_eq!(cv.notify_all(), FutexCall::Wake { count: u32::MAX });
}

#[test]
fn a_wait_sleeps_on_what_it_read_under_the_mutex() {
    let mut cv = SCondVar::new();
    let mut wait = CondWait::new(true);
    assert_eq!(wait.step(0), CondOp::LoadEpoch);
    assert_eq!(wait.step(cv.epoch()), CondOp::Unlock { is_group: true });
    assert_eq!(wait.step(0), CondOp::Wait { epoch: 0 });
    cv.notify_one();
    assert_eq!(wait.step(0), CondOp::Lock { is_group: true });
    assert_eq!(wait.step(0), CondOp::LoadEpoch);
    assert_eq!(wait.step(cv.epoch()), CondOp::Notified);
}

#[test]
fn a_wait_without_a_notification_starts_over() {
    let mut cv = SCondVar::new();
    cv.notify_all();
    let mut wait = CondWait::new(false);
    wait.step(0);
    assert_eq!(wait.step(cv.epoch()), CondOp::Unlock { is_group: false });
    assert_eq!(wait.step(0), CondOp::Wait { epoch: 1 });
    assert_eq!(wait.step(0), CondOp::Lock { is_group: false });
    assert_eq!(wait.step(0), CondOp::LoadEpoch);
    assert_eq!(wait.step(cv.epoch()), CondOp::LoadEpoch);
    assert_eq!(wait.step(cv.epoch()), CondOp::Unlock { is_group: false });
}
