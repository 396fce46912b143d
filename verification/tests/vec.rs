use crossync::atomic::vec::calc_len;
use crossync::atomic::AtomicVec;
use std::sync::atomic::{AtomicUsize, Ordering};
use std::sync::{Arc, Mutex};

#[derive(Debug)]
struct Counted {
    id: usize,
    counter: Arc<AtomicUsize>,
}

impl Counted {
    fn new(id: usize, counter: Arc<AtomicUsize>) -> Self {
        counter.fetch_add(1, Ordering::SeqCst);
        Self { id, counter }
    }
}

impl Drop for Counted {
    fn drop(&mut self) {
        let prev = self.counter.fetch_sub(1, Ordering::SeqCst);
        if prev == 0 {
            panic!("Double free detected for id {}", self.id);
        }
    }
}

struct OrderTracker {
    id: usize,
    order: Arc<Mutex<Vec<usize>>>,
}

impl Drop for OrderTracker {
    fn drop(&mut self) {
        self.order.lock().unwrap().push(self.id);
    }
}

#[test]
fn new_is_empty() {
    let v: AtomicVec<i32> = AtomicVec::new();
    assert!(v.is_empty());
    assert_eq!(v.len(), 0);
}

#[test]
fn push_and_pop_single() {
    let mut v = AtomicVec::new();
    v.push(10);
    assert_eq!(v.len(), 1);
    assert_eq!(v.pop(), Some(10));
    assert!(v.is_empty());
    assert_eq!(v.pop(), None);
}

#[test]
fn fifo_order() {
    let mut v = AtomicVec::new();
    v.push(1);
    v.push(2);
    v.push(3);
    assert_eq!(v.pop(), Some(1));
    assert_eq!(v.pop(), Some(2));
    assert_eq!(v.pop(), Some(3));
    assert_eq!(v.pop(), None);
}

#[test]
fn test_as_slice_basic() {
    let mut v = AtomicVec::new();
    v.push(1);
    v.push(2);
    v.push(3);
    let slice = v.as_vec();
    assert_eq!(slice, vec![1, 2, 3]);
}

#[test]
fn vec_test_as_vec() {
    let mut v = AtomicVec::init_with(2, || 1);
    assert_eq!(v.len(), 2);
    assert_eq!(v.capacity(), 32);
    assert_eq!(v.as_vec(), vec![1, 1]);
    let mut v = AtomicVec::init_with(1, || 1);
    assert_eq!(v.len(), 1);
    assert_eq!(v.capacity(), 32);
    assert_eq!(v.as_vec(), vec![1]);
}

#[test]
fn test_as_slice_wraparound() {
    let mut v = AtomicVec::new();
    v.push(10);
    v.push(20);
    v.push(30);
    v.push(40);
    assert_eq!(v.pop(), Some(10));
    assert_eq!(v.pop(), Some(20));
    v.push(50);
    v.push(60);
    let slice = v.as_vec();
    assert_eq!(slice, vec![30, 40, 50, 60]);
}

#[test]
fn test_as_slice_empty() {
    let mut v: AtomicVec<i32> = AtomicVec::new();
    let slice = v.as_vec();
    assert!(slice.is_empty());
}

#[test]
fn test_new_empty() {
    let vec: AtomicVec<i32> = AtomicVec::new();
    assert_eq!(vec.len(), 0);
    assert!(vec.is_empty());
}

#[test]
fn vec_test_with_capacity() {
    let mut vec: AtomicVec<i32> = AtomicVec::with_capacity(100);
    assert!(vec.is_empty());
    for i in 0..100 {
        vec.push(i);
    }
    assert_eq!(vec.len(), 100);
}

#[test]
fn test_default_trait() {
    let vec: AtomicVec<String> = AtomicVec::default();
    assert!(vec.is_empty());
}

#[test]
fn test_push_single() {
    let mut vec = AtomicVec::new();
    vec.push(42);
    assert_eq!(vec.len(), 1);
    assert!(!vec.is_empty());
}

#[test]
fn test_push_multiple() {
    let mut vec = AtomicVec::new();
    for i in 0..100 {
        vec.push(i);
    }
    assert_eq!(vec.len(), 100);
}

#[test]
fn test_push_preserves_order() {
    let mut vec = AtomicVec::new();
    for i in 0..10 {
        vec.push(i * 10);
    }
    for i in 0..10 {
        assert_eq!(vec.pop(), Some(i * 10));
    }
}

#[test]
fn test_pop_single() {
    let mut vec = AtomicVec::new();
    vec.push(42);
    assert_eq!(vec.pop(), Some(42));
    assert!(vec.is_empty());
}

#[test]
fn test_pop_empty() {
    let mut vec: AtomicVec<i32> = AtomicVec::new();
    assert_eq!(vec.pop(), None);
}

#[test]
fn test_pop_fifo_order() {
    let mut vec = AtomicVec::new();
    vec.push(1);
    vec.push(2);
    vec.push(3);
    assert_eq!(vec.pop(), Some(1));
    assert_eq!(vec.pop(), Some(2));
    assert_eq!(vec.pop(), Some(3));
    assert_eq!(vec.pop(), None);
}

#[test]
fn test_pop_until_empty() {
    let mut vec = AtomicVec::new();
    for i in 0..50 {
        vec.push(i);
    }
    for i in 0..50 {
        assert_eq!(vec.pop(), Some(i));
    }
    assert_eq!(vec.pop(), None);
    assert!(vec.is_empty());
}

#[test]
fn test_push_batch_range() {
    let mut vec = AtomicVec::new();
    vec.push_batch((0..100).collect());
    assert_eq!(vec.len(), 100);
}

#[test]
fn test_push_batch_vec() {
    let mut vec = AtomicVec::new();
    vec.push_batch(vec![1, 2, 3, 4, 5]);
    assert_eq!(vec.len(), 5);
    assert_eq!(vec.pop(), Some(1));
}

#[test]
fn test_push_batch_empty() {
    let mut vec = AtomicVec::new();
    vec.push_batch(Vec::<i32>::new());
    assert!(vec.is_empty());
}

#[test]
fn test_pop_batch() {
    let mut vec = AtomicVec::new();
    vec.push_batch((0..100).collect());
    let batch = vec.pop_batch(50);
    assert_eq!(batch.len(), 50);
    assert_eq!(vec.len(), 50);
}

#[test]
fn test_pop_batch_more_than_available() {
    let mut vec = AtomicVec::new();
    vec.push_batch((0..10).collect());
    let batch = vec.pop_batch(100);
    assert_eq!(batch.len(), 10);
    assert!(vec.is_empty());
}

#[test]
fn test_pop_batch_zero() {
    let mut vec = AtomicVec::new();
    vec.push_batch((0..10).collect());
    let batch = vec.pop_batch(0);
    assert!(batch.is_empty());
    assert_eq!(vec.len(), 10);
}

#[test]
fn vec_test_drain_all() {
    let mut vec = AtomicVec::new();
    vec.push_batch((0..50).collect());
    let drained = vec.drain();
    assert_eq!(drained.len(), 50);
    assert!(vec.is_empty());
}

#[test]
fn test_drain_empty() {
    let mut vec: AtomicVec<i32> = AtomicVec::new();
    let drained = vec.drain();
    assert!(drained.is_empty());
}

#[test]
fn test_init_with_constant() {
    let mut vec: AtomicVec<i32> = AtomicVec::init_with(5, || 42);
    assert_eq!(vec.len(), 5);
    for _ in 0..5 {
        assert_eq!(vec.pop(), Some(42));
    }
}

#[test]
fn test_init_with_closure_state() {
    let mut counter = 0;
    let mut vec: AtomicVec<i32> = AtomicVec::init_with(5, || {
        counter += 1;
        counter
    });
    assert_eq!(vec.pop(), Some(1));
    assert_eq!(vec.pop(), Some(2));
}

#[test]
fn vec_test_reset_with() {
    let mut vec = AtomicVec::new();
    vec.push_batch((0..10).collect());
    let mut counter = 0;
    vec.reset_with(5, || {
        counter += 1;
        counter * 10
    });
    assert_eq!(vec.len(), 5);
    assert_eq!(vec.pop(), Some(10));
    assert_eq!(vec.pop(), Some(20));
}

#[test]
fn test_reset_with_empty() {
    let mut vec: AtomicVec<i32> = AtomicVec::new();
    vec.reset_with(3, || 99);
    assert_eq!(vec.len(), 3);
}

#[test]
fn test_as_vec_empty() {
    let mut vec: AtomicVec<i32> = AtomicVec::new();
    assert!(vec.as_vec().is_empty());
}

#[test]
fn test_as_vec_preserves_order() {
    let mut vec = AtomicVec::new();
    vec.push_batch(vec![5, 4, 3, 2, 1]);
    assert_eq!(vec.as_vec(), vec![5, 4, 3, 2, 1]);
}

#[test]
fn test_as_vec_after_pop() {
    let mut vec = AtomicVec::new();
    vec.push_batch((0..10).collect());
    vec.pop();
    vec.pop();
    assert_eq!(vec.as_vec(), (2..10).collect::<Vec<_>>());
}

#[test]
fn test_as_vec_clones_independently() {
    let mut vec = AtomicVec::new();
    vec.push("hello".to_string());
    let snapshot = vec.as_vec();
    vec.pop();
    vec.push("world".to_string());
    assert_eq!(snapshot, vec!["hello".to_string()]);
}

#[test]
fn test_from_iter_range() {
    let mut vec: AtomicVec<i32> = AtomicVec::from_iter((0..10).collect());
    assert_eq!(vec.len(), 10);
    for i in 0..10 {
        assert_eq!(vec.pop(), Some(i));
    }
}

#[test]
fn test_from_iter_vec() {
    let vec: AtomicVec<String> = AtomicVec::from_iter(vec!["a", "b", "c"].into_iter().map(String::from).collect());
    assert_eq!(vec.len(), 3);
}

#[test]
fn test_from_iter_empty() {
    let vec: AtomicVec<i32> = AtomicVec::from_iter(Vec::new());
    assert!(vec.is_empty());
}

#[test]
fn test_len_updates() {
    let mut vec = AtomicVec::new();
    assert_eq!(vec.len(), 0);
    vec.push(1);
    assert_eq!(vec.len(), 1);
    vec.push(2);
    vec.push(3);
    assert_eq!(vec.len(), 3);
    vec.pop();
    assert_eq!(vec.len(), 2);
}

#[test]
fn test_is_empty() {
    let mut vec: AtomicVec<i32> = AtomicVec::new();
    assert!(vec.is_empty());
    vec.push(1);
    assert!(!vec.is_empty());
    vec.pop();
    assert!(vec.is_empty());
}

#[test]
fn test_capacity() {
    let vec: AtomicVec<i32> = AtomicVec::with_capacity(100);
    assert!(vec.capacity() > 0);
}

#[test]
fn vec_test_no_leak_on_drop() {
    let counter = Arc::new(AtomicUsize::new(0));
    {
        let mut vec = AtomicVec::new();
        for i in 0..50 {
            vec.push(Counted::new(i, counter.clone()));
        }
        assert_eq!(counter.load(Ordering::SeqCst), 50);
    }
    assert_eq!(counter.load(Ordering::SeqCst), 0, "Memory leak detected");
}

#[test]
fn test_no_leak_pop() {
    let counter = Arc::new(AtomicUsize::new(0));
    let mut vec = AtomicVec::new();
    for i in 0..10 {
        vec.push(Counted::new(i, counter.clone()));
    }
    assert_eq!(counter.load(Ordering::SeqCst), 10);
    for _ in 0..10 {
        let item = vec.pop();
        drop(item);
    }
    assert_eq!(counter.load(Ordering::SeqCst), 0);
}

#[test]
fn test_no_leak_drain() {
    let counter = Arc::new(AtomicUsize::new(0));
    {
        let mut vec = AtomicVec::new();
        for i in 0..20 {
            vec.push(Counted::new(i, counter.clone()));
        }
        let drained = vec.drain();
        assert_eq!(counter.load(Ordering::SeqCst), 20);
        drop(drained);
        assert_eq!(counter.load(Ordering::SeqCst), 0);
    }
}

#[test]
fn test_no_leak_pop_batch() {
    let counter = Arc::new(AtomicUsize::new(0));
    let mut vec = AtomicVec::new();
    for i in 0..20 {
        vec.push(Counted::new(i, counter.clone()));
    }
    let batch = vec.pop_batch(10);
    assert_eq!(counter.load(Ordering::SeqCst), 20);
    drop(batch);
    assert_eq!(counter.load(Ordering::SeqCst), 10);
    drop(vec);
    assert_eq!(counter.load(Ordering::SeqCst), 0);
}

#[test]
fn test_no_leak_reset_with() {
    let counter = Arc::new(AtomicUsize::new(0));
    let mut vec = AtomicVec::new();
    for i in 0..10 {
        vec.push(Counted::new(i, counter.clone()));
    }
    assert_eq!(counter.load(Ordering::SeqCst), 10);
    let c = counter.clone();
    vec.reset_with(5, || Counted::new(999, c.clone()));
    assert_eq!(counter.load(Ordering::SeqCst), 5);
    drop(vec);
    assert_eq!(counter.load(Ordering::SeqCst), 0);
}

#[test]
fn test_no_leak_from_iter() {
    let counter = Arc::new(AtomicUsize::new(0));
    {
        let items: Vec<_> = (0..20).map(|i| Counted::new(i, counter.clone())).collect();
        let vec: AtomicVec<_> = AtomicVec::from_iter(items);
        assert_eq!(vec.len(), 20);
    }
    assert_eq!(counter.load(Ordering::SeqCst), 0);
}

#[test]
fn test_empty_operations() {
    let mut vec: AtomicVec<i32> = AtomicVec::new();
    assert!(vec.pop().is_none());
    assert!(vec.drain().is_empty());
    assert!(vec.pop_batch(10).is_empty());
    assert!(vec.as_vec().is_empty());
}

#[test]
fn vec_test_single_element() {
    let mut vec = AtomicVec::new();
    vec.push(42);
    assert_eq!(vec.len(), 1);
    assert_eq!(vec.pop(), Some(42));
    assert!(vec.is_empty());
}

#[test]
fn vec_test_large_capacity() {
    let mut vec = AtomicVec::new();
    for i in 0..10000 {
        vec.push(i);
    }
    assert_eq!(vec.len(), 10000);
    let mut count = 0;
    while vec.pop().is_some() {
        count += 1;
    }
    assert_eq!(count, 10000);
}

#[test]
fn vec_test_zero_sized_type() {
    let mut vec: AtomicVec<()> = AtomicVec::new();
    for _ in 0..100 {
        vec.push(());
    }
    assert_eq!(vec.len(), 100);
    assert!(vec.pop().is_some());
}

#[test]
fn test_interleaved_push_pop() {
    let mut vec = AtomicVec::new();
    for round in 0..10 {
        for _ in 0..10 {
            vec.push(round);
        }
        for _ in 0..5 {
            assert!(vec.pop().is_some());
        }
    }
    assert_eq!(vec.len(), 50);
}

#[test]
fn vec_test_push_pop_cycles() {
    let mut vec = AtomicVec::new();
    for _ in 0..100 {
        vec.push(1);
        vec.push(2);
        vec.push(3);
        assert!(vec.pop().is_some());
        assert!(vec.pop().is_some());
    }
    assert_eq!(vec.len(), 100);
}

#[test]
fn clone_and_refcount() {
    let mut v = AtomicVec::new();
    v.clone_ref();
    v.clone_ref();
    assert_eq!(v.len(), 0);
    assert!(!v.drop_ref());
    assert!(!v.drop_ref());
    v.push(42);
    assert_eq!(v.pop(), Some(42));
}

#[test]
fn vec_test_clone_shares_data() {
    let mut vec = AtomicVec::new();
    vec.push(42);
    vec.clone_ref();
    assert_eq!(vec.len(), 1);
    assert_eq!(vec.pop(), Some(42));
    assert!(vec.is_empty());
}

#[test]
fn test_clone_push_visible() {
    let mut vec = AtomicVec::new();
    vec.clone_ref();
    vec.push(100);
    assert_eq!(vec.len(), 1);
}

#[test]
fn test_multiple_clones() {
    let mut vec = AtomicVec::new();
    vec.push(1);
    vec.clone_ref();
    vec.clone_ref();
    vec.clone_ref();
    assert!(!vec.drop_ref());
    assert!(!vec.drop_ref());
    assert_eq!(vec.pop(), Some(1));
    assert!(!vec.drop_ref());
    assert!(vec.drop_ref());
}

#[test]
fn vec_test_no_leak_with_clones() {
    let counter = Arc::new(AtomicUsize::new(0));
    {
        let mut vec = AtomicVec::new();
        for i in 0..5 {
            vec.push(Counted::new(i, counter.clone()));
        }
        vec.clone_ref();
        vec.clone_ref();
        assert!(!vec.drop_ref());
        assert!(!vec.drop_ref());
        assert_eq!(counter.load(Ordering::SeqCst), 5);
    }
    assert_eq!(counter.load(Ordering::SeqCst), 0);
}

#[test]
fn test_drop_tracking() {
    let drop_order = Arc::new(Mutex::new(Vec::new()));
    {
        let mut vec = AtomicVec::new();
        for i in 0..5 {
            vec.push(OrderTracker { id: i, order: drop_order.clone() });
        }
    }
    assert_eq!(drop_order.lock().unwrap().len(), 5);
}

#[test]
fn elements_are_found_by_their_value() {
    let mut vec = AtomicVec::from_iter((0..100).collect());
    assert_eq!(vec.index_of(&0), Some(0));
    assert_eq!(vec.index_of(&63), Some(63));
    assert_eq!(vec.index_of(&100), None);
    assert!(vec.contains(&99));
    assert!(!vec.contains(&-1));
    assert_eq!(vec.find(|v: &i32| *v > 40), Some(41));
    assert_eq!(vec.find(|v: &i32| *v > 400), None);
    vec.pop();
    assert_eq!(vec.index_of(&63), Some(62));
    assert_eq!(vec.len(), 99);
}

#[test]
fn elements_are_combined_in_order() {
    let mut vec = AtomicVec::from_iter((1..=40).collect());
    assert_eq!(vec.fold(0, |acc: i32, v: &i32| acc + *v), 820);
    assert_eq!(vec.fold(Vec::new(), |mut acc: Vec<i32>, v: &i32| {
        acc.push(*v);
        acc
    }), (1..=40).collect::<Vec<i32>>());
    assert_eq!(vec.reduce(|a: i32, b: &i32| if a > *b { a } else { *b }), Some(40));
    let seen = Mutex::new(Vec::new());
    vec.for_each(|v: &i32| seen.lock().unwrap().push(*v));
    assert_eq!(*seen.lock().unwrap(), (1..=40).collect::<Vec<i32>>());
    let mut empty: AtomicVec<i32> = AtomicVec::new();
    assert_eq!(empty.reduce(|a: i32, b: &i32| a + *b), None);
    assert_eq!(empty.fold(7, |acc: i32, v: &i32| acc + *v), 7);
}

#[test]
fn an_index_reaches_the_first_block_from_a_fresh_start() {
    let mut vec = AtomicVec::from_iter((0..31).collect());
    for i in 0..31 {
        assert_eq!(vec.get(i), Some(i as i32));
    }
    assert_eq!(vec.get(31), None);
}

#[test]
fn a_get_counts_the_head_twice() {
    let mut vec = AtomicVec::from_iter((0..10).collect());
    vec.pop();
    vec.pop();
    assert_eq!(vec.get(0), Some(4));
    assert_eq!(vec.get(5), Some(9));
    assert_eq!(vec.get(6), None);
    assert_eq!(vec.as_vec(), (2..10).collect::<Vec<i32>>());
}

#[test]
fn elements_change_places() {
    let mut vec = AtomicVec::from_iter((0..5).collect());
    assert!(vec.swap(1, 3));
    assert!(vec.swap(7, 7));
    assert!(!vec.swap(0, 5));
    assert_eq!(vec.as_vec(), vec![0, 3, 2, 1, 4]);
}

#[test]
fn a_late_index_of_a_swap_counts_from_the_block() {
    let mut vec = AtomicVec::from_iter((0..100).collect());
    assert!(vec.swap(0, 40));
    assert_eq!(vec.get(0), Some(40));
    for _ in 0..2 {
        vec.pop();
    }
    assert!(vec.swap(0, 31));
    let items = vec.as_vec();
    assert_eq!(items[0], 31);
    assert_eq!(items[29], 2);
    assert!(!vec.swap(0, 29));
}

#[test]
fn an_element_is_taken_out_of_the_middle() {
    let mut vec = AtomicVec::from_iter((0..70).collect());
    assert_eq!(vec.remove(33), Some(33));
    assert_eq!(vec.len(), 69);
    assert_eq!(vec.remove(69), None);
    assert_eq!(vec.pop(), Some(0));
    let expected: Vec<i32> = (1..33).chain(34..70).collect();
    assert_eq!(vec.as_vec(), expected);
}

#[test]
fn the_order_is_turned_round() {
    let mut vec = AtomicVec::from_iter((0..64).collect());
    vec.reverse();
    assert_eq!(vec.as_vec(), (0..64).rev().collect::<Vec<i32>>());
    assert!(vec.is_empty());
    vec.push_batch((0..64).collect());
    vec.reverse();
    vec.reverse();
    assert_eq!(vec.drain(), (0..64).collect::<Vec<i32>>());
}

#[test]
fn the_capacity_covers_the_elements() {
    let mut vec = AtomicVec::new();
    for i in 0..200usize {
        assert!(vec.len() <= vec.capacity());
        assert_eq!(vec.len(), i);
        vec.push(i);
    }
    assert_eq!(vec.capacity(), 224);
    for i in 0..200usize {
        assert!(vec.len() <= vec.capacity());
        assert_eq!(vec.pop(), Some(i));
    }
    assert_eq!(vec.capacity(), 32);
    assert_eq!(vec.report().len, 0);
}

#[test]
fn positions_are_counted_without_the_gaps() {
    assert_eq!(calc_len(0, 0), 0);
    assert_eq!(calc_len(5, 3), 0);
    assert_eq!(calc_len(0, 30), 30);
    assert_eq!(calc_len(0, 31), 31);
    assert_eq!(calc_len(0, 32), 31);
    assert_eq!(calc_len(0, 33), 32);
    assert_eq!(calc_len(30, 33), 3);
}

#[test]
fn drained_blocks_are_used_again() {
    let mut vec = AtomicVec::new();
    vec.push_batch((0..31).collect());
    assert_eq!(vec.spare_count(), 0);
    for i in 0..30 {
        assert_eq!(vec.pop(), Some(i));
    }
    assert_eq!(vec.spare_count(), 0);
    assert_eq!(vec.pop(), Some(30));
    assert_eq!(vec.spare_count(), 1);
    for i in 0..30 {
        vec.push(i);
    }
    assert_eq!(vec.spare_count(), 1);
    vec.push(30);
    assert_eq!(vec.spare_count(), 0);
}

#[test]
fn no_more_blocks_are_kept_than_there_are_places() {
    let mut vec = AtomicVec::<usize>::with_capacity(100);
    assert_eq!(vec.spare_count(), 3);
    vec.push_batch((0..70 * 31).collect());
    assert_eq!(vec.spare_count(), 0);
    assert_eq!(vec.drain().len(), 70 * 31);
    assert_eq!(vec.spare_count(), 64);
    assert_eq!(vec.reset_with(62, || 0), 62);
    assert_eq!(vec.spare_count(), 62);
}

#[test]
fn the_room_shrinks_with_each_push() {
    let mut vec = AtomicVec::new();
    let room = vec.room_left();
    assert_eq!(room, usize::MAX / 64 * 31 + 30);
    for i in 0..100 {
        vec.push(i);
    }
    vec.pop();
    assert_eq!(vec.room_left(), room - 100);
    vec.reverse();
    assert_eq!(vec.room_left(), room - 199);
}
