use crossync::sync::{Mutex, RwLock, WatchGuard, WatchGuardMut};
use std::collections::HashMap;

fn take<T: Clone>(lock: &mut RwLock<T>) -> T {
    let guard = lock.lock_exclusive();
    let value = guard.deref().clone();
    guard.unlock();
    value
}

#[test]
fn wgm_test_deref() {
    let mut lock = RwLock::new(42i32);
    let guard = lock.lock_exclusive();
    assert_eq!(*guard.deref(), 42);
}

#[test]
fn test_deref_mut() {
    let mut lock = RwLock::new(10i32);
    {
        let mut guard = lock.lock_exclusive();
        *guard.deref_mut() = 20;
        guard.unlock();
    }
    assert_eq!(take(&mut lock), 20);
}

#[test]
fn wgm_test_deref_complex_type() {
    let mut lock = RwLock::new(vec![1, 2, 3]);
    {
        let mut guard = lock.lock_exclusive();
        guard.deref_mut().push(4);
        assert_eq!(guard.deref().len(), 4);
        assert_eq!(guard.deref()[0], 1);
        guard.unlock();
    }
    assert_eq!(take(&mut lock), vec![1, 2, 3, 4]);
}

#[test]
fn wgm_test_deref_string() {
    let mut lock = RwLock::new(String::from("hello"));
    {
        let mut guard = lock.lock_exclusive();
        guard.deref_mut().push_str(" world");
        assert!(guard.deref().starts_with("hello"));
        assert_eq!(guard.deref().len(), 11);
        guard.unlock();
    }
    assert_eq!(take(&mut lock), "hello world");
}

#[test]
fn wgm_test_is_locked() {
    let mut lock = RwLock::new(0);
    let guard = lock.lock_exclusive();
    assert!(guard.is_locked());
    guard.unlock();
    assert!(!lock.is_locked());
}

#[test]
fn wgm_test_drop_releases_lock() {
    let mut lock = RwLock::new(0);
    {
        let guard = lock.lock_exclusive();
        guard.unlock();
    }
    assert!(lock.try_lock().is_some());
}

#[test]
fn wgm_test_partial_eq() {
    let mut lock = RwLock::new(42i32);
    let guard = lock.lock_exclusive();
    assert!(guard.eq(&42));
    assert!(!guard.eq(&0));
}

#[test]
fn wgm_test_partial_eq_string() {
    let mut lock = RwLock::new(String::from("channels"));
    let guard = lock.lock_exclusive();
    assert!(guard.eq(&"channels"));
    assert!(!guard.eq(&"other"));
}

#[test]
fn wgm_test_partial_eq_vec() {
    let mut lock = RwLock::new(vec![1, 2, 3]);
    let guard = lock.lock_exclusive();
    assert!(guard.eq(&vec![1, 2, 3]));
    assert!(guard.eq(&[1, 2, 3].as_slice()));
    assert!(!guard.eq(&vec![1, 2]));
}

#[test]
fn wgm_test_debug() {
    let mut lock = RwLock::new(42);
    let guard = lock.lock_exclusive();
    let debug_str = format!("{:?}", guard);
    assert!(debug_str.contains("WatchGuardMut"));
    assert!(debug_str.contains("data"));
    assert!(debug_str.contains("lock"));
}

#[test]
fn wgm_test_zero_sized_type() {
    let mut lock = RwLock::new(());
    lock.lock_exclusive().unlock();
    assert!(lock.try_lock().is_some());
}

#[test]
fn test_nested_lock_value() {
    let mut lock = RwLock::new(RwLock::new(0));
    {
        let mut guard = lock.lock_exclusive();
        let mut inner_guard = guard.deref_mut().lock_exclusive();
        *inner_guard.deref_mut() = 42;
        inner_guard.unlock();
        guard.unlock();
    }
    let mut guard = lock.lock_exclusive();
    assert_eq!(take(guard.deref_mut()), 42);
}

#[test]
fn wgm_test_option_value() {
    let mut lock = RwLock::new(None::<i32>);
    {
        let mut guard = lock.lock_exclusive();
        *guard.deref_mut() = Some(42);
        guard.unlock();
    }
    let guard = lock.lock_exclusive();
    assert_eq!(*guard.deref(), Some(42));
}

#[test]
fn wgm_test_result_value() {
    let mut lock = RwLock::new(Ok::<i32, &str>(0));
    {
        let mut guard = lock.lock_exclusive();
        *guard.deref_mut() = Err("error");
        guard.unlock();
    }
    let guard = lock.lock_exclusive();
    assert!(guard.deref().is_err());
}

#[test]
fn test_must_use_guard() {
    let mut lock = RwLock::new(42);
    let guard = lock.lock_exclusive();
    assert_eq!(*guard.deref(), 42);
}

#[test]
fn wgm_test_sequential_guards() {
    let mut lock = RwLock::new(0);
    for i in 1..=10 {
        let mut guard = lock.lock_exclusive();
        *guard.deref_mut() = i;
        guard.unlock();
    }
    assert_eq!(take(&mut lock), 10);
}

#[test]
fn test_guard_with_complex_mutation() {
    let mut lock = RwLock::new(HashMap::<String, i32>::new());
    {
        let mut guard = lock.lock_exclusive();
        guard.deref_mut().insert("a".to_string(), 1);
        guard.deref_mut().insert("b".to_string(), 2);
        guard.deref_mut().insert("c".to_string(), 3);
        guard.unlock();
    }
    {
        let mut guard = lock.lock_exclusive();
        *guard.deref_mut().get_mut("a").unwrap() = 10;
        guard.deref_mut().remove("c");
        guard.unlock();
    }
    let guard = lock.lock_exclusive();
    assert_eq!(guard.deref().len(), 2);
    assert_eq!(guard.deref().get("a"), Some(&10));
    assert_eq!(guard.deref().get("b"), Some(&2));
    assert!(guard.deref().get("c").is_none());
}

#[test]
fn a_guard_over_a_mutex_gives_its_handle_back() {
    let mut data = 5;
    let mut lock = Mutex::new();
    lock.lock_exclusive();
    lock.clone_ref();
    let guard = WatchGuardMut::new(&mut data, &mut lock);
    assert!(guard.is_locked());
    assert_eq!(guard.lock.get_ref_count(), 2);
    guard.unlock();
    assert_eq!(lock.get_ref_count(), 1);
    assert!(!lock.is_locked());
}

#[test]
fn an_owning_guard_locks_and_unlocks() {
    let mut guard = WatchGuard::new(7);
    assert!(!guard.is_locked());
    guard.lock();
    assert!(guard.is_locked());
    *guard.deref_mut() += 1;
    assert_eq!(*guard.deref(), 8);
    assert!(guard.eq(&8));
    guard.unlock();
    assert!(!guard.is_locked());
}

#[test]
fn an_owning_guard_leaves_as_a_reader() {
    let mut lock = Mutex::new();
    lock.lock_shared();
    lock.lock_shared();
    let guard = WatchGuard::new_locked("data", lock);
    let (data, lock, wake) = guard.release();
    assert_eq!(data, "data");
    assert_eq!(lock.get_shared_locked(), 1);
    assert!(!wake.writer);
}

#[test]
fn an_owning_guard_releases_the_writer() {
    let mut lock = Mutex::new();
    lock.lock_exclusive();
    let guard = WatchGuard::new_locked(3, lock);
    assert!(guard.is_locked());
    let (data, mut lock, wake) = guard.release();
    assert_eq!(data, 3);
    assert!(!lock.is_locked());
    assert_eq!((wake.writer, wake.readers), (false, false));
    assert!(lock.try_lock_exclusive());
}

#[test]
fn an_owning_guard_with_a_free_mutex_leaves_it_free() {
    let (data, mut lock, wake) = WatchGuard::new(9).release();
    assert_eq!(data, 9);
    assert!(!lock.is_locked());
    assert_eq!((wake.writer, wake.readers), (false, false));
    assert!(lock.try_lock_shared());
    assert_eq!(lock.get_shared_locked(), 1);
}
