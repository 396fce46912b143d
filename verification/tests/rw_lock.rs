use crossync::sync::RwLock;
use std::collections::HashMap;
use std::sync::atomic::{AtomicUsize, Ordering};
use std::sync::Arc;

fn read<T: Clone>(lock: &mut RwLock<T>) -> T {
    let guard = lock.lock_shared();
    let value = guard.deref().clone();
    guard.unlock();
    value
}

fn write<T>(lock: &mut RwLock<T>, value: T) {
    let mut guard = lock.lock_exclusive();
    *guard.deref_mut() = value;
    guard.unlock();
}

struct DropTracker {
    counter: Arc<AtomicUsize>,
}

impl DropTracker {
    fn new(counter: Arc<AtomicUsize>) -> Self {
        counter.fetch_add(1, Ordering::SeqCst);
        Self { counter }
    }
}

impl Drop for DropTracker {
    fn drop(&mut self) {
        self.counter.fetch_sub(1, Ordering::SeqCst);
    }
}

#[test]
fn rw_lock_test_new() {
    let mut lock = RwLock::new(42);
    assert_eq!(read(&mut lock), 42);
    assert!(!lock.is_locked());
}

#[test]
fn rw_lock_test_default() {
    let mut lock: RwLock<i32> = RwLock::default();
    assert_eq!(read(&mut lock), 0);
    let mut lock: RwLock<String> = RwLock::default();
    assert_eq!(read(&mut lock), "");
    let mut lock: RwLock<Vec<i32>> = RwLock::default();
    assert!(read(&mut lock).is_empty());
}

#[test]
fn rw_lock_test_debug() {
    let mut lock = RwLock::new(42);
    let debug_str = format!("{:?}", lock.report());
    assert!(debug_str.contains("MutexCell"));
    assert!(!lock.is_locked());
    assert_eq!(lock.report().data, Some(42));
    let _ = lock.lock_shared();
    assert_eq!(lock.report().data, None);
}

#[test]
fn test_lock_exclusive() {
    let mut lock = RwLock::new(10);
    {
        let mut guard = lock.lock_exclusive();
        assert_eq!(*guard.deref(), 10);
        *guard.deref_mut() = 20;
        guard.unlock();
    }
    assert_eq!(read(&mut lock), 20);
}

#[test]
fn test_lock_exclusive_sequential() {
    let mut lock = RwLock::new(0);
    for i in 1..=10 {
        let mut guard = lock.lock_exclusive();
        *guard.deref_mut() += i;
        guard.unlock();
    }
    assert_eq!(read(&mut lock), 55);
}

#[test]
fn test_try_lock_success() {
    let mut lock = RwLock::new(42);
    let guard = lock.try_lock();
    assert!(guard.is_some());
    assert_eq!(*guard.unwrap().deref(), 42);
}

#[test]
fn test_try_lock_fail_when_exclusive() {
    let mut lock = RwLock::new(42);
    let _ = lock.lock_exclusive();
    assert!(lock.try_lock().is_none());
}

#[test]
fn test_try_lock_fail_when_shared() {
    let mut lock = RwLock::new(42);
    let _ = lock.lock_shared();
    assert!(lock.try_lock().is_none());
}

#[test]
fn test_lock_shared() {
    let mut lock = RwLock::new(42);
    let guard = lock.lock_shared();
    assert_eq!(*guard.deref(), 42);
}

#[test]
fn test_lock_shared_multiple() {
    let mut lock = RwLock::new(100);
    assert_eq!(*lock.lock_shared().deref(), 100);
    assert_eq!(*lock.lock_shared().deref(), 100);
    assert_eq!(*lock.lock_shared().deref(), 100);
    assert!(lock.is_locked_shared());
}

#[test]
fn rw_lock_test_try_lock_shared_success() {
    let mut lock = RwLock::new(42);
    let guard = lock.try_lock_shared();
    assert!(guard.is_some());
    assert_eq!(*guard.unwrap().deref(), 42);
}

#[test]
fn test_try_lock_shared_multiple() {
    let mut lock = RwLock::new(42);
    assert!(lock.try_lock_shared().is_some());
    assert!(lock.try_lock_shared().is_some());
}

#[test]
fn test_try_lock_shared_fail_when_exclusive() {
    let mut lock = RwLock::new(42);
    let _ = lock.lock_exclusive();
    assert!(lock.try_lock_shared().is_none());
}

#[test]
fn rw_lock_test_is_locked() {
    let mut lock = RwLock::new(0);
    assert!(!lock.is_locked());
    {
        let g = lock.lock_exclusive();
        assert!(g.lock.is_locked());
        g.unlock();
    }
    assert!(!lock.is_locked());
    {
        let g = lock.lock_shared();
        assert!(g.lock.is_locked());
        g.unlock();
    }
    assert!(!lock.is_locked());
}

#[test]
fn test_is_locked_exclusive() {
    let mut lock = RwLock::new(0);
    assert!(!lock.is_locked_exclusive());
    {
        let g = lock.lock_exclusive();
        assert!(g.lock.is_locked_exclusive());
        g.unlock();
    }
    assert!(!lock.is_locked_exclusive());
    let _ = lock.lock_shared();
    assert!(!lock.is_locked_exclusive());
}

#[test]
fn test_is_locked_shared() {
    let mut lock = RwLock::new(0);
    assert!(!lock.is_locked_shared());
    {
        let g = lock.lock_shared();
        assert!(g.lock.is_locked_shared());
        g.unlock();
    }
    assert!(!lock.is_locked_shared());
    let _ = lock.lock_exclusive();
    assert!(!lock.is_locked_shared());
}

#[test]
fn rw_lock_test_clone_shares_data() {
    let mut lock = RwLock::new(10);
    lock.clone_ref();
    write(&mut lock, 99);
    assert_eq!(read(&mut lock), 99);
    assert!(!lock.drop_ref());
}

#[test]
fn rw_lock_test_clone_multiple() {
    let mut lock = RwLock::new(0);
    lock.clone_ref();
    lock.clone_ref();
    lock.clone_ref();
    write(&mut lock, 42);
    assert_eq!(read(&mut lock), 42);
    assert_eq!(read(&mut lock), 42);
    assert_eq!(read(&mut lock), 42);
}

#[test]
fn rw_lock_test_clone_drop_partial() {
    let mut lock = RwLock::new(100);
    lock.clone_ref();
    lock.clone_ref();
    assert!(!lock.drop_ref());
    assert!(!lock.drop_ref());
    assert_eq!(read(&mut lock), 100);
    assert!(lock.drop_ref());
}

#[test]
fn rw_lock_test_no_leak_on_drop() {
    let counter = Arc::new(AtomicUsize::new(0));
    {
        let lock = RwLock::new(DropTracker::new(counter.clone()));
        assert_eq!(counter.load(Ordering::SeqCst), 1);
        drop(lock);
    }
    assert_eq!(counter.load(Ordering::SeqCst), 0);
}

#[test]
fn rw_lock_test_no_leak_with_clones() {
    let counter = Arc::new(AtomicUsize::new(0));
    {
        let mut lock = RwLock::new(DropTracker::new(counter.clone()));
        lock.clone_ref();
        lock.clone_ref();
        assert_eq!(counter.load(Ordering::SeqCst), 1);
        assert!(!lock.drop_ref());
        assert!(!lock.drop_ref());
        assert_eq!(counter.load(Ordering::SeqCst), 1);
    }
    assert_eq!(counter.load(Ordering::SeqCst), 0);
}

#[test]
fn rw_lock_test_zero_sized_type() {
    let mut lock = RwLock::new(());
    lock.lock_exclusive().unlock();
    let _ = lock.lock_shared();
    let _ = lock.lock_shared();
    assert!(lock.is_locked_shared());
}

#[test]
fn rw_lock_test_large_value() {
    let large_data = vec![0u8; 1024 * 1024];
    let mut lock = RwLock::new(large_data);
    {
        let mut guard = lock.lock_exclusive();
        guard.deref_mut()[0] = 42;
        guard.unlock();
    }
    assert_eq!(lock.lock_shared().deref()[0], 42);
}

#[test]
fn rw_lock_test_complex_type() {
    let mut lock = RwLock::new(HashMap::<String, Vec<i32>>::new());
    {
        let mut guard = lock.lock_exclusive();
        guard.deref_mut().insert("a".to_string(), vec![1, 2, 3]);
        guard.deref_mut().insert("b".to_string(), vec![4, 5]);
        guard.unlock();
    }
    {
        let guard = lock.lock_shared();
        assert_eq!(guard.deref().get("a"), Some(&vec![1, 2, 3]));
        assert_eq!(guard.deref().len(), 2);
    }
}

#[test]
fn rw_lock_test_option_value() {
    let mut lock = RwLock::new(None::<i32>);
    write(&mut lock, Some(42));
    assert_eq!(read(&mut lock), Some(42));
}

#[test]
fn test_nested_rwlock() {
    let mut outer = RwLock::new(RwLock::new(0));
    {
        let mut outer_guard = outer.lock_exclusive();
        let mut inner_guard = outer_guard.deref_mut().lock_exclusive();
        *inner_guard.deref_mut() = 42;
        inner_guard.unlock();
        outer_guard.unlock();
    }
    let mut outer_guard = outer.lock_exclusive();
    assert_eq!(read(outer_guard.deref_mut()), 42);
}

#[test]
fn rw_lock_test_guard_drop_releases_lock() {
    let mut lock = RwLock::new(0);
    {
        let guard = lock.lock_exclusive();
        assert!(guard.lock.is_locked_exclusive());
        guard.unlock();
    }
    assert!(!lock.is_locked());
    {
        let guard = lock.lock_shared();
        assert!(guard.lock.is_locked_shared());
        guard.unlock();
    }
    assert!(!lock.is_locked());
}

#[test]
fn a_guard_holds_a_handle_of_the_mutex() {
    let mut lock = RwLock::new(0);
    let guard = lock.lock();
    assert_eq!(guard.lock.get_ref_count(), 2);
    guard.unlock();
    let guard = lock.lock_shared();
    assert_eq!(guard.lock.get_ref_count(), 2);
    guard.unlock();
    let guard = lock.try_lock().unwrap();
    assert_eq!(guard.lock.get_ref_count(), 2);
}

#[test]
fn the_plain_lock_guards_its_value() {
    let mut lock = crossync::base::rw_lock::RwLock::new(3);
    {
        let mut guard = lock.lock();
        *guard.deref_mut() += 1;
        guard.unlock();
    }
    let guard = lock.try_lock_shared().unwrap();
    assert_eq!(*guard.deref(), 4);
    assert!(lock.is_locked());
    assert!(lock.is_locked_shared());
    assert!(!lock.is_locked_exclusive());
    assert!(lock.try_lock().is_none());
    assert_eq!(*lock.lock_shared().deref(), 4);
}
