use crossync::base::backoff::Backoff;
use crossync::sync::lock_word::{ONE_READER, ONE_WRITER, READERS_PARKED, WRITERS_PARKED};
use crossync::sync::mutex::{LockExclusive, LockOp, LockShared, Queue, Reply, Wake};
use crossync::sync::Mutex;

#[test]
fn mutex_test_new_mutex_state() {
    let m = Mutex::new();
    assert!(!m.is_locked());
    assert!(!m.is_locked_exclusive());
    assert!(!m.is_locked_shared());
    assert_eq!(m.get_shared_locked(), 0);
    assert_eq!(m.get_ref_count(), 1);
}

#[test]
fn test_default_creates_unlocked() {
    let m = Mutex::default();
    assert!(!m.is_locked());
}

#[test]
fn mutex_test_debug_format() {
    let m = Mutex::new();
    let debug_str = format!("{:?}", m.report());
    assert!(debug_str.contains("Mutex"));
    assert!(debug_str.contains("exclusive_locked"));
    assert!(debug_str.contains("readers_count"));
}

#[test]
fn mutex_test_exclusive_lock_unlock() {
    let mut m = Mutex::new();
    assert!(!m.is_locked_exclusive());
    m.lock_exclusive();
    assert!(m.is_locked_exclusive());
    assert!(m.is_locked());
    m.unlock_exclusive();
    assert!(!m.is_locked_exclusive());
    assert!(!m.is_locked());
}

#[test]
fn test_try_lock_exclusive_success() {
    let mut m = Mutex::new();
    assert!(m.try_lock_exclusive());
    assert!(m.is_locked_exclusive());
    m.unlock_exclusive();
}

#[test]
fn test_shared_lock_unlock() {
    let mut m = Mutex::new();
    assert!(!m.is_locked_shared());
    m.lock_shared();
    assert!(m.is_locked_shared());
    assert!(m.is_locked());
    assert_eq!(m.get_shared_locked(), 1);
    m.unlock_shared();
    assert!(!m.is_locked_shared());
    assert!(!m.is_locked());
    assert_eq!(m.get_shared_locked(), 0);
}

#[test]
fn test_multiple_shared_locks() {
    let mut m = Mutex::new();
    m.lock_shared();
    assert_eq!(m.get_shared_locked(), 1);
    m.lock_shared();
    assert_eq!(m.get_shared_locked(), 2);
    m.lock_shared();
    assert_eq!(m.get_shared_locked(), 3);
    m.unlock_shared();
    assert_eq!(m.get_shared_locked(), 2);
    m.unlock_shared();
    assert_eq!(m.get_shared_locked(), 1);
    m.unlock_shared();
    assert_eq!(m.get_shared_locked(), 0);
}

#[test]
fn mutex_test_try_lock_shared_success() {
    let mut m = Mutex::new();
    assert!(m.try_lock_shared());
    assert!(m.is_locked_shared());
    assert_eq!(m.get_shared_locked(), 1);
    assert!(m.try_lock_shared());
    assert_eq!(m.get_shared_locked(), 2);
    m.unlock_shared();
    m.unlock_shared();
}

#[test]
fn mutex_test_unlock_all_shared() {
    let mut m = Mutex::new();
    m.lock_shared();
    m.lock_shared();
    m.lock_shared();
    assert_eq!(m.get_shared_locked(), 3);
    m.unlock_all_shared();
    assert_eq!(m.get_shared_locked(), 0);
    assert!(!m.is_locked());
}

#[test]
fn test_downgrade_exclusive_to_shared() {
    let mut m = Mutex::new();
    m.lock_exclusive();
    assert!(m.is_locked_exclusive());
    assert!(!m.is_locked_shared());
    m.downgrade();
    assert!(!m.is_locked_exclusive());
    assert!(m.is_locked_shared());
    assert_eq!(m.get_shared_locked(), 1);
    m.unlock_shared();
    assert!(!m.is_locked());
}

#[test]
fn test_clone_increments_ref_count() {
    let mut m = Mutex::new();
    assert_eq!(m.get_ref_count(), 1);
    m.clone_ref();
    assert_eq!(m.get_ref_count(), 2);
    m.clone_ref();
    assert_eq!(m.get_ref_count(), 3);
    assert!(!m.drop_ref());
    assert_eq!(m.get_ref_count(), 2);
    assert!(!m.drop_ref());
    assert_eq!(m.get_ref_count(), 1);
    assert!(m.drop_ref());
}

#[test]
fn test_clones_share_lock_state() {
    let mut m = Mutex::new();
    m.clone_ref();
    m.lock_exclusive();
    assert!(m.is_locked_exclusive());
    m.unlock_exclusive();
    assert!(!m.is_locked_exclusive());
    assert_eq!(m.get_ref_count(), 2);
}

#[test]
fn test_lock_after_full_release() {
    let mut m = Mutex::new();
    m.lock_exclusive();
    m.unlock_exclusive();
    m.lock_shared();
    m.unlock_shared();
    m.lock_exclusive();
    m.downgrade();
    m.unlock_shared();
    assert!(m.try_lock_exclusive());
    m.unlock_exclusive();
}

#[test]
fn test_rapid_lock_unlock() {
    let mut m = Mutex::new();
    for _ in 0..1000 {
        m.lock_exclusive();
        m.unlock_exclusive();
    }
    assert!(!m.is_locked());
}

#[test]
fn test_rapid_shared_lock_unlock() {
    let mut m = Mutex::new();
    for _ in 0..1000 {
        m.lock_shared();
        m.unlock_shared();
    }
    assert!(!m.is_locked());
}

#[test]
fn try_locks_fail_beside_a_writer() {
    let mut m = Mutex::new();
    m.lock_exclusive();
    assert!(!m.try_lock_exclusive());
    assert!(!m.try_lock_shared());
    assert!(m.is_locked_exclusive());
    assert_eq!(m.get_shared_locked(), 0);
}

#[test]
fn try_exclusive_fails_beside_a_reader() {
    let mut m = Mutex::new();
    m.lock_shared();
    assert!(!m.try_lock_exclusive());
    assert_eq!(m.get_shared_locked(), 1);
}

#[test]
fn releasing_twice_the_readers_reads_as_a_writer() {
    let mut m = Mutex::new();
    m.unlock_shared();
    assert!(m.is_locked_exclusive());
    assert_eq!(m.report().state, ONE_WRITER);
}

/// Steps an attempt until it asks to sleep or holds the lock.
fn run_exclusive(m: &mut Mutex, attempt: &mut LockExclusive, first: Reply) -> LockOp {
    let mut op = attempt.step(first);
    loop {
        match op {
            LockOp::Acquired | LockOp::Wait { .. } => return op,
            _ => {
                let reply = m.perform(op);
                op = attempt.step(reply);
            }
        }
    }
}

fn run_shared(m: &mut Mutex, attempt: &mut LockShared, first: Reply) -> LockOp {
    let mut op = attempt.step(first);
    loop {
        match op {
            LockOp::Acquired | LockOp::Wait { .. } => return op,
            _ => {
                let reply = m.perform(op);
                op = attempt.step(reply);
            }
        }
    }
}

#[test]
fn a_writer_sleeps_until_the_other_writer_leaves() {
    let mut m = Mutex::new();
    m.lock_exclusive();
    let mut second = LockExclusive::new(Backoff::new(4));
    let op = run_exclusive(&mut m, &mut second, Reply::Nothing);
    assert_eq!(op, LockOp::Wait { queue: Queue::Writers, key: 0 });
    assert!(m.report().writers_parked);
    assert!(!m.report().readers_parked);

    assert_eq!(m.unlock_exclusive(), Wake { writer: true, readers: false });
    assert!(!m.is_locked());

    let op = run_exclusive(&mut m, &mut second, Reply::Nothing);
    assert_eq!(op, LockOp::Acquired);
    assert!(m.is_locked_exclusive());
    assert!(m.report().writers_parked);
    assert_eq!(m.report().state, ONE_WRITER | WRITERS_PARKED);
}

#[test]
fn a_reader_sleeps_until_the_writer_leaves() {
    let mut m = Mutex::new();
    m.lock_exclusive();
    let mut reader = LockShared::new(Backoff::new(4));
    let op = run_shared(&mut m, &mut reader, Reply::Nothing);
    assert_eq!(op, LockOp::Wait { queue: Queue::Readers, key: 0 });
    assert_eq!(m.report().state, ONE_WRITER | READERS_PARKED);

    assert_eq!(m.unlock_exclusive(), Wake { writer: false, readers: true });
    let op = run_shared(&mut m, &mut reader, Reply::Nothing);
    assert_eq!(op, LockOp::Acquired);
    assert_eq!(m.get_shared_locked(), 1);
}

#[test]
fn the_last_reader_hands_over_to_a_parked_writer() {
    let mut m = Mutex::new();
    m.lock_shared();
    let mut writer = LockExclusive::new(Backoff::new(4));
    let op = run_exclusive(&mut m, &mut writer, Reply::Nothing);
    assert_eq!(op, LockOp::Wait { queue: Queue::Writers, key: 0 });
    assert_eq!(m.report().state, ONE_READER | WRITERS_PARKED);

    assert_eq!(m.unlock_shared(), Wake { writer: true, readers: false });
    assert!(!m.is_locked());
    let op = run_exclusive(&mut m, &mut writer, Reply::Nothing);
    assert_eq!(op, LockOp::Acquired);
    assert!(m.is_locked_exclusive());
}

#[test]
fn a_claim_on_a_stale_word_is_lost() {
    let mut m = Mutex::new();
    let mut attempt = LockExclusive::new(Backoff::new(4));
    let load = attempt.step(Reply::Nothing);
    assert_eq!(load, LockOp::Load);
    let seen = m.perform(load);
    let claim = attempt.step(seen);
    assert_eq!(claim, LockOp::Claim { current: 0, new: ONE_WRITER });
    m.lock_shared();
    assert_eq!(m.perform(claim), Reply::Lost { value: ONE_READER });
    assert!(!m.is_locked_exclusive());
}

#[test]
fn unlocking_all_readers_wakes_a_writer_and_keeps_it_announced() {
    let mut m = Mutex::new();
    m.lock_shared();
    m.lock_shared();
    let mut writer = LockExclusive::new(Backoff::new(4));
    run_exclusive(&mut m, &mut writer, Reply::Nothing);
    assert_eq!(m.unlock_all_shared(), Wake { writer: true, readers: false });
    assert_eq!(m.get_shared_locked(), 0);
    assert_eq!(m.report().state, WRITERS_PARKED);
    assert!(!m.is_locked());
    assert!(!m.is_locked_exclusive());
}

#[test]
fn downgrading_wakes_parked_readers() {
    let mut m = Mutex::new();
    m.lock_exclusive();
    let mut reader = LockShared::new(Backoff::new(4));
    run_shared(&mut m, &mut reader, Reply::Nothing);
    assert_eq!(m.downgrade(), Wake { writer: false, readers: true });
    assert_eq!(m.get_shared_locked(), 1);
    assert_eq!(run_shared(&mut m, &mut reader, Reply::Nothing), LockOp::Acquired);
    assert_eq!(m.get_shared_locked(), 2);
}

#[test]
fn no_run_has_a_writer_beside_another_holder() {
    // Every order in which three attempts take their steps, two accesses at a time.
    for order in 0..729usize {
        let mut m = Mutex::new();
        let mut writers = [LockExclusive::new(Backoff::new(1)), LockExclusive::new(Backoff::new(1))];
        let mut reader = LockShared::new(Backoff::new(1));
        let mut ops = [
            writers[0].step(Reply::Nothing),
            writers[1].step(Reply::Nothing),
            reader.step(Reply::Nothing),
        ];
        let mut rest = order;
        for _ in 0..6 {
            let who = rest % 3;
            rest /= 3;
            for _ in 0..2 {
                if matches!(ops[who], LockOp::Acquired) {
                    continue;
                }
                let reply = m.perform(ops[who]);
                ops[who] = if who < 2 { writers[who].step(reply) } else { reader.step(reply) };
            }
            let held = ops.iter().filter(|op| matches!(op, LockOp::Acquired)).count();
            assert!(held <= 1);
        }
    }
}
