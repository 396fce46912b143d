use crossync::base::backoff::Backoff;
use crossync::lock_free::splcell::{SpinExclusive, SpinShared};
use crossync::lock_free::SpinCell;
use crossync::sync::lock_word::{ONE_READER, ONE_WRITER, READERS_PARKED, WRITERS_PARKED};
use crossync::sync::mutex::{LockOp, Reply};
use std::sync::atomic::{AtomicUsize, Ordering};
use std::sync::Arc;

fn read<T: Clone>(cell: &mut SpinCell<T>) -> T {
    let guard = cell.lock_shared();
    let value = guard.deref().clone();
    guard.unlock();
    value
}

#[test]
fn splcell_test_new() {
    let mut cell = SpinCell::new(42);
    assert_eq!(read(&mut cell), 42);
    assert_eq!(cell.get_ref_count(), 1);
    assert!(!cell.is_locked());
    assert!(!cell.is_locked_exclusive());
    assert!(!cell.is_locked_shared());
    assert_eq!(cell.get_shared_locked(), 0);
}

#[test]
fn test_state_tracking() {
    let mut cell = SpinCell::new(0);
    {
        let guard = cell.lock_exclusive();
        assert!(guard.lock.is_locked());
        assert!(guard.lock.is_locked_exclusive());
        assert!(!guard.lock.is_locked_shared());
        assert_eq!(guard.lock.get_shared_locked(), 0);
        guard.unlock();
    }
    assert!(!cell.is_locked());
    {
        let _ = cell.lock_shared();
        assert!(cell.is_locked());
        assert!(!cell.is_locked_exclusive());
        assert!(cell.is_locked_shared());
        assert_eq!(cell.get_shared_locked(), 1);
        let _ = cell.lock_shared();
        assert_eq!(cell.get_shared_locked(), 2);
        cell.unlock_shared();
        cell.unlock_shared();
    }
    assert!(!cell.is_locked());
    assert_eq!(cell.get_shared_locked(), 0);
}

#[test]
fn splcell_test_exclusive_lock_unlock() {
    let mut cell = SpinCell::new(10);
    {
        let mut guard = cell.lock_exclusive();
        assert_eq!(*guard.deref(), 10);
        *guard.deref_mut() = 20;
        guard.unlock();
    }
    assert_eq!(read(&mut cell), 20);
}

#[test]
fn test_exclusive_sequential() {
    let mut cell = SpinCell::new(0);
    for i in 1..=5 {
        let mut g = cell.lock_exclusive();
        *g.deref_mut() += i;
        g.unlock();
    }
    assert_eq!(read(&mut cell), 15);
}

#[test]
fn test_exclusive_guard_deref() {
    let mut cell = SpinCell::new(vec![1, 2, 3]);
    {
        let mut guard = cell.lock_exclusive();
        guard.deref_mut().push(4);
        assert_eq!(guard.deref().len(), 4);
        guard.unlock();
    }
    assert_eq!(read(&mut cell), vec![1, 2, 3, 4]);
}

#[test]
fn test_shared_multiple_readers() {
    let mut cell = SpinCell::new(100);
    assert_eq!(*cell.lock_shared().deref(), 100);
    assert_eq!(*cell.lock_shared().deref(), 100);
    assert_eq!(*cell.lock_shared().deref(), 100);
    assert_eq!(cell.get_shared_locked(), 3);
    cell.unlock_shared();
    assert_eq!(cell.get_shared_locked(), 2);
    cell.unlock_shared();
    cell.unlock_shared();
    assert_eq!(cell.get_shared_locked(), 0);
}

#[test]
fn splcell_test_unlock_all_shared() {
    let mut cell = SpinCell::new(42);
    let _ = cell.lock_shared();
    let _ = cell.lock_shared();
    let _ = cell.lock_shared();
    assert_eq!(cell.get_shared_locked(), 3);
    cell.unlock_all_shared();
    assert_eq!(cell.get_shared_locked(), 0);
    assert!(!cell.is_locked());
}

#[test]
fn splcell_test_debug_format() {
    let cell = SpinCell::new(42);
    let debug = format!("{:?}", cell.report());
    assert!(debug.contains("SpinLockCell"));
    assert!(debug.contains("state"));
    assert!(debug.contains("exclusive_locked"));
    assert!(debug.contains("readers_count"));
}

#[test]
fn splcell_test_zero_sized_type() {
    let mut cell = SpinCell::new(());
    cell.lock_exclusive().unlock();
    let _ = cell.lock_shared();
    let _ = cell.lock_shared();
    cell.unlock_shared();
    cell.unlock_shared();
    assert!(!cell.is_locked());
}

#[test]
fn splcell_test_large_value() {
    let large_data = vec![0u8; 1024 * 1024];
    let mut cell = SpinCell::new(large_data);
    {
        let mut g = cell.lock_exclusive();
        g.deref_mut()[0] = 42;
        g.unlock();
    }
    assert_eq!(cell.lock_shared().deref()[0], 42);
}

#[test]
fn test_nested_data() {
    let mut cell = SpinCell::new(Arc::new(AtomicUsize::new(0)));
    let inner = read(&mut cell);
    inner.fetch_add(1, Ordering::SeqCst);
    assert_eq!(read(&mut cell).load(Ordering::SeqCst), 1);
}

#[test]
fn splcell_test_guard_drop_releases_lock() {
    let mut cell = SpinCell::new(0);
    let guard = cell.lock_exclusive();
    assert!(guard.lock.is_locked_exclusive());
    guard.unlock();
    assert!(!cell.is_locked());
    let guard = cell.lock_shared();
    assert!(guard.lock.is_locked_shared());
    guard.unlock();
    assert!(!cell.is_locked());
}

#[test]
fn test_shared_guard_deref() {
    let mut cell = SpinCell::new("hello".to_string());
    let guard = cell.lock_shared();
    assert_eq!(guard.deref().len(), 5);
    assert!(guard.deref().starts_with("hel"));
}

#[test]
fn test_exclusive_guard_deref_mut() {
    let mut cell = SpinCell::new(vec![1, 2]);
    {
        let mut guard = cell.lock_exclusive();
        guard.deref_mut().push(3);
        guard.deref_mut()[0] = 10;
        guard.unlock();
    }
    assert_eq!(read(&mut cell), vec![10, 2, 3]);
}

#[test]
fn test_rapid_lock_unlock_exclusive() {
    let mut cell = SpinCell::new(0);
    for _ in 0..1000 {
        let mut g = cell.lock_exclusive();
        *g.deref_mut() += 1;
        g.unlock();
    }
    assert_eq!(read(&mut cell), 1000);
}

#[test]
fn test_rapid_lock_unlock_shared() {
    let mut cell = SpinCell::new(42);
    for _ in 0..1000 {
        assert_eq!(read(&mut cell), 42);
    }
    assert!(!cell.is_locked());
}

#[test]
fn test_alternating_exclusive_shared() {
    let mut cell = SpinCell::new(0);
    for i in 0..100 {
        if i % 2 == 0 {
            let mut g = cell.lock_exclusive();
            *g.deref_mut() += 1;
            g.unlock();
        } else {
            let _ = read(&mut cell);
        }
    }
    assert_eq!(read(&mut cell), 50);
}

#[test]
fn a_spinning_writer_announces_itself_and_takes_over() {
    let mut cell = SpinCell::new(0);
    let _ = cell.lock_exclusive();
    let mut attempt = SpinExclusive::new(Backoff::new(4));
    let mut op = attempt.step(Reply::Nothing);
    for _ in 0..100 {
        let reply = cell.perform(op);
        op = attempt.step(reply);
        assert_ne!(op, LockOp::Acquired);
    }
    assert_eq!(cell.report().state, ONE_WRITER | WRITERS_PARKED);
    cell.unlock_exclusive();
    assert!(!cell.is_locked());
    while op != LockOp::Acquired {
        let reply = cell.perform(op);
        op = attempt.step(reply);
    }
    assert_eq!(cell.report().state, ONE_WRITER | WRITERS_PARKED);
}

#[test]
fn a_spinning_reader_announces_itself_and_joins() {
    let mut cell = SpinCell::new(0);
    let _ = cell.lock_exclusive();
    let mut attempt = SpinShared::new(Backoff::new(4));
    let mut op = attempt.step(Reply::Nothing);
    for _ in 0..100 {
        let reply = cell.perform(op);
        op = attempt.step(reply);
        assert_ne!(op, LockOp::Acquired);
    }
    assert_eq!(cell.report().state, ONE_WRITER | READERS_PARKED);
    cell.unlock_exclusive();
    while op != LockOp::Acquired {
        let reply = cell.perform(op);
        op = attempt.step(reply);
    }
    assert_eq!(cell.report().state, ONE_READER);
}

#[test]
fn a_writer_that_leaves_lets_parked_readers_go_first() {
    let mut cell = SpinCell::new(0);
    let _ = cell.lock_exclusive();
    let mut writer = SpinExclusive::new(Backoff::new(1));
    let mut reader = SpinShared::new(Backoff::new(1));
    let mut writer_op = writer.step(Reply::Nothing);
    let mut reader_op = reader.step(Reply::Nothing);
    for _ in 0..100 {
        let reply = cell.perform(writer_op);
        writer_op = writer.step(reply);
        let reply = cell.perform(reader_op);
        reader_op = reader.step(reply);
    }
    assert_eq!(cell.report().state, ONE_WRITER | READERS_PARKED | WRITERS_PARKED);
    cell.unlock_exclusive();
    assert_eq!(cell.report().state, WRITERS_PARKED);
}

#[test]
fn the_last_spinning_reader_clears_the_word() {
    let mut cell = SpinCell::new(0);
    let _ = cell.lock_shared();
    let reply = cell.perform(LockOp::Mark { current: ONE_READER, new: ONE_READER | WRITERS_PARKED });
    assert_eq!(reply, Reply::Took);
    cell.unlock_shared();
    assert!(!cell.is_locked());
}

#[test]
fn unlocking_a_free_spin_lock_changes_nothing() {
    let mut cell = SpinCell::new(5);
    cell.unlock_exclusive();
    assert!(!cell.is_locked());
    let _ = cell.lock_shared();
    cell.unlock_exclusive();
    assert_eq!(cell.get_shared_locked(), 1);
}
