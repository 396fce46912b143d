use crossync::atomic::AtomicArray;
use std::sync::atomic::{AtomicUsize, Ordering};
use std::sync::Arc;

fn at<T: Clone>(arr: &mut AtomicArray<T>, index: usize) -> T {
    let guard = arr.get(index).unwrap();
    let value = guard.deref().clone();
    guard.unlock();
    value
}

fn put<T>(arr: &mut AtomicArray<T>, index: usize, value: T) {
    let mut guard = arr.get_mut(index).unwrap();
    *guard.deref_mut() = value;
    guard.unlock();
}

#[derive(Debug)]
struct Counted {
    value: usize,
    counter: Arc<AtomicUsize>,
}

impl Counted {
    fn new(value: usize, counter: Arc<AtomicUsize>) -> Self {
        counter.fetch_add(1, Ordering::SeqCst);
        Self { value, counter }
    }
}

impl Drop for Counted {
    fn drop(&mut self) {
        self.counter.fetch_sub(1, Ordering::SeqCst);
    }
}

#[test]
fn test_creation_and_len() {
    let arr: AtomicArray<i32> = AtomicArray::new();
    assert_eq!(arr.len(), 0);
    assert_eq!(arr.capacity(), 32);
    assert!(arr.is_empty());
}

#[test]
fn test_push_and_get() {
    let mut arr = AtomicArray::new();
    assert!(arr.push(42).is_ok());
    assert_eq!(arr.len(), 1);
    let val = arr.get(0).unwrap();
    assert_eq!(*val.deref(), 42);
}

#[test]
fn array_test_get_mut() {
    let mut arr = AtomicArray::new();
    arr.push(100).unwrap();
    put(&mut arr, 0, 200);
    assert_eq!(at(&mut arr, 0), 200);

    let mut arr = AtomicArray::from_iter(vec![vec![1, 2], vec![3, 4]]);
    {
        let mut guard = arr.get_mut(0).unwrap();
        guard.deref_mut().push(99);
        guard.unlock();
    }
    assert_eq!(at(&mut arr, 0), vec![1, 2, 99]);
    assert!(arr.get_mut(2).is_none());
}

#[test]
fn array_test_as_vec() {
    let arr = AtomicArray::from_iter((0..5).collect());
    let vec = arr.as_vec();
    assert_eq!(vec, vec![0, 1, 2, 3, 4]);

    let empty: AtomicArray<i32> = AtomicArray::new();
    assert_eq!(empty.as_vec(), Vec::<i32>::new());
    let mut arr = AtomicArray::from_iter(vec!["a".to_string()]);
    let vec = arr.as_vec();
    put(&mut arr, 0, "modified".to_string());
    assert_eq!(vec[0], "a");
}

#[test]
fn test_reset_with_initializer() {
    let mut arr: AtomicArray<usize> = AtomicArray::new();
    let result = arr.reset_with(10, || 7);
    assert_eq!(result, Ok(10));
    assert_eq!(arr.len(), 10);
    for i in 0..10 {
        assert_eq!(at(&mut arr, i), 7);
    }
}

#[test]
fn test_clone_and_refcount() {
    let mut arr = AtomicArray::from_iter(vec![1, 2, 3]);
    arr.clone_ref();
    assert_eq!(arr.len(), 3);
    assert_eq!(at(&mut arr, 1), 2);
    assert!(!arr.drop_ref());
    assert!(arr.drop_ref());
}

#[test]
fn test_new_and_default() {
    let arr1: AtomicArray<i32> = AtomicArray::new();
    let arr2: AtomicArray<i32> = AtomicArray::default();
    for arr in [&arr1, &arr2] {
        assert_eq!(arr.len(), 0);
        assert_eq!(arr.capacity(), 32);
        assert!(arr.is_empty());
    }
}

#[test]
fn array_test_with_capacity() {
    let arr: AtomicArray<i32> = AtomicArray::with_capacity(100);
    assert_eq!(arr.capacity(), 100);
    assert_eq!(arr.len(), 0);
}

#[test]
fn test_init_with() {
    let mut counter = 0;
    let arr: AtomicArray<i32> = AtomicArray::init_with(5, || {
        counter += 1;
        counter * 10
    });
    assert_eq!(arr.len(), 5);
    assert_eq!(arr.as_vec(), vec![10, 20, 30, 40, 50]);
}

#[test]
fn test_from_iter() {
    let arr: AtomicArray<i32> = AtomicArray::from_iter((0..5).collect());
    assert_eq!(arr.len(), 5);
    assert_eq!(arr.as_vec(), vec![0, 1, 2, 3, 4]);
    let empty: AtomicArray<i32> = AtomicArray::from_iter(Vec::new());
    assert!(empty.is_empty());
}

#[test]
fn test_debug_trait() {
    let arr = AtomicArray::from_iter(vec![1, 2, 3]);
    let debug_str = format!("{:?}", arr.report());
    assert!(debug_str.contains("AtomicArray"));
    assert!(debug_str.contains("len"));
}

#[test]
fn test_push() {
    let mut arr = AtomicArray::with_capacity(3);
    for i in 0..3 {
        assert!(arr.push(i * 10).is_ok());
    }
    assert_eq!(arr.len(), 3);
    assert_eq!(arr.as_vec(), vec![0, 10, 20]);
    let result = arr.push(99);
    assert!(result.is_err());
    assert_eq!(result.unwrap_err(), 99);
    assert_eq!(arr.len(), 3);
}

#[test]
fn test_get() {
    let mut arr = AtomicArray::from_iter(vec!["hello".to_string(), "world".to_string()]);
    let guard = arr.get(0).unwrap();
    assert_eq!(guard.deref().len(), 5);
    assert!(guard.deref().starts_with("hel"));
    guard.unlock();
    assert!(arr.get(2).is_none());
    assert!(arr.get(usize::MAX).is_none());
}

#[test]
fn array_test_reset_with() {
    let mut arr: AtomicArray<i32> = AtomicArray::from_iter((0..10).collect());
    let result = arr.reset_with(5, || 99);
    assert_eq!(result, Ok(5));
    assert_eq!(arr.len(), 5);
    assert_eq!(arr.capacity(), 5);
    assert_eq!(arr.as_vec(), vec![99; 5]);
}

#[test]
fn test_for_each() {
    let mut arr = AtomicArray::from_iter((1..=5).collect());
    let mut sum = 0;
    let mut order = Vec::new();
    arr.for_each(|v: &i32| {
        sum += *v;
        order.push(*v);
    });
    assert_eq!(sum, 15);
    assert_eq!(order, vec![1, 2, 3, 4, 5]);
}

#[test]
fn test_for_each_mut() {
    let mut arr = AtomicArray::from_iter(vec![1, 2, 3, 4, 5]);
    arr.for_each_mut(|v| *v *= 2);
    assert_eq!(arr.as_vec(), vec![2, 4, 6, 8, 10]);
}

#[test]
fn test_chunk_indices() {
    let arr = AtomicArray::from_iter((0..100).collect());
    assert_eq!(arr.chunk_indices(4), vec![(0, 25), (25, 50), (50, 75), (75, 100)]);
    let arr = AtomicArray::from_iter((0..10).collect());
    assert_eq!(arr.chunk_indices(3), vec![(0, 4), (4, 8), (8, 10)]);
    let arr = AtomicArray::from_iter((0..3).collect());
    assert_eq!(arr.chunk_indices(10), vec![(0, 1), (1, 2), (2, 3)]);
    let empty: AtomicArray<i32> = AtomicArray::new();
    assert!(empty.chunk_indices(4).is_empty());
    assert!(arr.chunk_indices(0).is_empty());
}

#[test]
fn array_test_clone_shares_data() {
    let mut arr = AtomicArray::from_iter(vec![10]);
    arr.clone_ref();
    arr.clone_ref();
    put(&mut arr, 0, 999);
    assert_eq!(at(&mut arr, 0), 999);
    assert!(!arr.drop_ref());
    assert_eq!(at(&mut arr, 0), 999);
}

#[test]
fn array_test_no_leaks() {
    let counter = Arc::new(AtomicUsize::new(0));
    {
        let mut arr = AtomicArray::with_capacity(20);
        for i in 0..10 {
            arr.push(Counted::new(i, counter.clone())).unwrap();
        }
        assert_eq!(counter.load(Ordering::SeqCst), 10);
        arr.clone_ref();
        arr.clone_ref();
        assert!(!arr.drop_ref());
        assert!(!arr.drop_ref());
        assert_eq!(counter.load(Ordering::SeqCst), 10);
    }
    assert_eq!(counter.load(Ordering::SeqCst), 0, "Memory leak detected");
    {
        let items: Vec<_> = (0..5).map(|i| Counted::new(i, counter.clone())).collect();
        let _arr: AtomicArray<_> = AtomicArray::from_iter(items);
    }
    assert_eq!(counter.load(Ordering::SeqCst), 0, "Leak in from_iter");
}

#[test]
fn test_no_double_free() {
    let counter = Arc::new(AtomicUsize::new(0));
    let mut arr: AtomicArray<Counted> = AtomicArray::with_capacity(20);
    for i in 0..10 {
        arr.push(Counted::new(i, counter.clone())).unwrap();
    }
    let c = counter.clone();
    arr.reset_with(5, || Counted::new(999, c.clone())).unwrap();
    assert_eq!(counter.load(Ordering::SeqCst), 5);
    assert_eq!(arr.get(4).unwrap().deref().value, 999);

    let mut arr2 = AtomicArray::with_capacity(2);
    arr2.push(Counted::new(0, counter.clone())).unwrap();
    arr2.push(Counted::new(1, counter.clone())).unwrap();
    let rejected = arr2.push(Counted::new(2, counter.clone()));
    assert!(rejected.is_err());
    drop(rejected);
    assert_eq!(counter.load(Ordering::SeqCst), 5 + 2);
}

#[test]
fn test_empty_array_operations() {
    let mut arr: AtomicArray<i32> = AtomicArray::new();
    assert!(arr.get(0).is_none());
    assert!(arr.get_mut(0).is_none());
    assert!(arr.as_vec().is_empty());
    assert!(arr.chunk_indices(4).is_empty());
    let mut called = false;
    arr.for_each(|_| called = true);
    arr.for_each_mut(|_| called = true);
    assert!(!called);
}

#[test]
fn array_test_single_element() {
    let mut arr = AtomicArray::with_capacity(1);
    arr.push(42).unwrap();
    assert_eq!(arr.len(), 1);
    assert_eq!(at(&mut arr, 0), 42);
    assert!(arr.push(99).is_err());
    put(&mut arr, 0, 100);
    assert_eq!(at(&mut arr, 0), 100);
}

#[test]
fn array_test_large_capacity() {
    let mut arr = AtomicArray::with_capacity(10000);
    for i in 0..10000 {
        arr.push(i).unwrap();
    }
    assert_eq!(arr.len(), 10000);
    assert_eq!(at(&mut arr, 9999), 9999);
}

#[test]
fn array_test_zero_sized_type() {
    let mut arr: AtomicArray<()> = AtomicArray::with_capacity(100);
    for _ in 0..100 {
        arr.push(()).unwrap();
    }
    assert_eq!(arr.len(), 100);
    assert!(arr.get(50).is_some());
}

#[test]
fn each_element_has_a_lock_of_its_own() {
    let mut arr = AtomicArray::from_iter(vec![1, 2]);
    let _ = arr.get_mut(0).unwrap();
    let guard = arr.get_mut(1).unwrap();
    assert!(guard.is_locked());
    assert_eq!(guard.lock.get_ref_count(), 2);
    guard.unlock();
    assert!(arr.get(1).unwrap().is_locked());
}

#[test]
fn items_past_the_hinted_capacity_are_dropped() {
    let arr = AtomicArray::from_hinted(0, (0..40).collect());
    assert_eq!(arr.capacity(), 32);
    assert_eq!(arr.as_vec(), (0..32).collect::<Vec<i32>>());
    let arr = AtomicArray::from_hinted(50, (0..40).collect());
    assert_eq!(arr.capacity(), 50);
    assert_eq!(arr.len(), 40);
}

#[test]
fn chunks_follow_on_each_other() {
    for len in 1..40usize {
        let arr = AtomicArray::from_iter((0..len).collect());
        for n in 1..50usize {
            let chunks = arr.chunk_indices(n);
            assert!(chunks.len() <= n);
            let mut next = 0;
            for (start, end) in chunks {
                assert_eq!(start, next);
                assert!(start < end);
                next = end;
            }
            assert_eq!(next, len);
        }
    }
}
