use crossync::sync::RwLock;
use std::collections::HashMap;
use std::sync::Arc;

#[test]
fn wgf_test_deref() {
    let mut lock = RwLock::new(42i32);
    let guard = lock.lock_shared();
    assert_eq!(*guard.deref(), 42);
}

#[test]
fn wgf_test_deref_complex_type() {
    let mut lock = RwLock::new(vec![1, 2, 3]);
    let guard = lock.lock_shared();
    assert_eq!(guard.deref().len(), 3);
    assert_eq!(guard.deref()[0], 1);
    assert_eq!(guard.deref().first(), Some(&1));
}

#[test]
fn wgf_test_deref_string() {
    let mut lock = RwLock::new(String::from("hello world"));
    let guard = lock.lock_shared();
    assert!(guard.deref().starts_with("hello"));
    assert!(guard.deref().contains("world"));
    assert_eq!(guard.deref().len(), 11);
}

#[test]
fn wgf_test_is_locked() {
    let mut lock = RwLock::new(0);
    let guard = lock.lock_shared();
    assert!(guard.is_locked());
    guard.unlock();
}

#[test]
fn wgf_test_drop_releases_lock() {
    let mut lock = RwLock::new(0);
    {
        let guard = lock.lock_shared();
        guard.unlock();
    }
    assert!(lock.try_lock().is_some());
}

#[test]
fn test_multiple_shared_guards() {
    let mut lock = RwLock::new(42);
    assert_eq!(*lock.lock_shared().deref(), 42);
    assert_eq!(*lock.lock_shared().deref(), 42);
    assert_eq!(*lock.lock_shared().deref(), 42);
}

#[test]
fn wgf_test_partial_eq() {
    let mut lock = RwLock::new(42i32);
    let guard = lock.lock_shared();
    assert!(guard.eq(&42));
    assert!(!guard.eq(&0));
}

#[test]
fn wgf_test_partial_eq_string() {
    let mut lock = RwLock::new(String::from("channels"));
    let guard = lock.lock_shared();
    assert!(guard.eq(&"channels"));
    assert!(!guard.eq(&"other"));
}

#[test]
fn wgf_test_partial_eq_vec() {
    let mut lock = RwLock::new(vec![1, 2, 3]);
    let guard = lock.lock_shared();
    assert!(guard.eq(&vec![1, 2, 3]));
    assert!(guard.eq(&[1, 2, 3].as_slice()));
    assert!(!guard.eq(&vec![1, 2]));
}

#[test]
fn wgf_test_debug() {
    let mut lock = RwLock::new(42);
    let guard = lock.lock_shared();
    let debug_str = format!("{:?}", guard);
    assert!(debug_str.contains("WatchGuardRef"));
    assert!(debug_str.contains("data"));
    assert!(debug_str.contains("lock"));
}

#[test]
fn wgf_test_zero_sized_type() {
    let mut lock = RwLock::new(());
    let _ = lock.lock_shared();
    let g2 = lock.lock_shared();
    g2.unlock();
    assert!(lock.is_locked_shared());
}

#[test]
fn test_nested_reference() {
    let inner = Arc::new(42);
    let mut lock = RwLock::new(inner.clone());
    let guard = lock.lock_shared();
    assert_eq!(**guard.deref(), 42);
}

#[test]
fn wgf_test_option_value() {
    let mut lock = RwLock::new(Some(42i32));
    let guard = lock.lock_shared();
    assert_eq!(*guard.deref(), Some(42));
    assert!(guard.deref().is_some());
    assert_eq!(guard.deref().unwrap(), 42);
}

#[test]
fn wgf_test_result_value() {
    let mut lock = RwLock::new(Ok::<i32, &str>(42));
    let guard = lock.lock_shared();
    assert!(guard.deref().is_ok());
    assert_eq!(*guard.deref().as_ref().unwrap(), 42);
}

#[test]
fn test_slice_methods() {
    let mut lock = RwLock::new(vec![5, 3, 8, 1, 9]);
    let guard = lock.lock_shared();
    assert_eq!(guard.deref().iter().max(), Some(&9));
    assert_eq!(guard.deref().iter().min(), Some(&1));
    assert_eq!(guard.deref().iter().sum::<i32>(), 26);
    assert!(guard.deref().contains(&8));
    assert!(!guard.deref().contains(&100));
}

#[test]
fn test_guard_lifetime() {
    let mut lock = RwLock::new(String::from("channels"));
    let len = {
        let guard = lock.lock_shared();
        guard.deref().len()
    };
    assert_eq!(len, 8);
}

#[test]
fn wgf_test_sequential_guards() {
    let mut lock = RwLock::new(42);
    for _ in 0..100 {
        let guard = lock.lock_shared();
        assert_eq!(*guard.deref(), 42);
        guard.unlock();
    }
    assert!(!lock.is_locked());
}

#[test]
fn test_guard_with_iterator() {
    let mut lock = RwLock::new(vec![1, 2, 3, 4, 5]);
    let guard = lock.lock_shared();
    let doubled: Vec<i32> = guard.deref().iter().map(|x| x * 2).collect();
    assert_eq!(doubled, vec![2, 4, 6, 8, 10]);
}

#[test]
fn test_guard_with_hashmap() {
    let mut map = HashMap::new();
    map.insert("a", 1);
    map.insert("b", 2);
    map.insert("c", 3);
    let mut lock = RwLock::new(map);
    let guard = lock.lock_shared();
    assert_eq!(guard.deref().get("a"), Some(&1));
    assert_eq!(guard.deref().get("b"), Some(&2));
    assert!(guard.deref().contains_key("c"));
    assert!(!guard.deref().contains_key("d"));
    assert_eq!(guard.deref().len(), 3);
}
