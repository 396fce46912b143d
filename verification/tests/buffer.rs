use crossync::atomic::buffer::{pop_ticket, push_ticket};
use crossync::atomic::AtomicBuffer;
use std::sync::atomic::{AtomicUsize, Ordering};
use std::sync::Arc;

struct Counted {
    value: usize,
    counter: Arc<AtomicUsize>,
}

impl Counted {
    fn new(value: usize, counter: Arc<AtomicUsize>) -> Self {
        counter.fetch_add(1, Ordering::SeqCst);
        Self { value, counter }
    }
}

impl Drop for Counted {
    fn drop(&mut self) {
        self.counter.fetch_sub(1, Ordering::SeqCst);
    }
}

fn push<T>(buffer: &mut AtomicBuffer<T>, item: T) {
    assert!(buffer.push(item).is_ok());
}

#[test]
fn test_new_and_capacity() {
    let mut buffer: AtomicBuffer<i32> = AtomicBuffer::new();
    assert_eq!(buffer.capacity(), 32);
    assert!(buffer.pop().is_none());
    let buffer64: AtomicBuffer<i32> = AtomicBuffer::with_capacity(64);
    assert_eq!(buffer64.capacity(), 64);
}

#[test]
fn test_push_pop_single() {
    let mut buffer = AtomicBuffer::<i32>::new();
    assert!(buffer.push(42).is_ok());
    assert_eq!(buffer.pop().unwrap(), 42);
    assert!(buffer.pop().is_none());
}

#[test]
fn test_push_pop_fifo_order() {
    let mut buffer = AtomicBuffer::<i32>::new();
    for i in 0..10 {
        buffer.push(i).unwrap();
    }
    for i in 0..10 {
        assert_eq!(buffer.pop().unwrap(), i, "FIFO order violated");
    }
    assert!(buffer.pop().is_none());
}

#[test]
fn test_push_full_returns_error() {
    let mut buffer = AtomicBuffer::<i32>::with_capacity(4);
    for i in 0..4 {
        buffer.push(i).unwrap();
    }
    let result = buffer.push(999);
    assert!(result.is_err());
    assert_eq!(result.unwrap_err(), 999);
    assert_eq!(buffer.drain_all(), vec![0, 1, 2, 3]);
}

#[test]
fn buffer_test_drain_all() {
    let mut buffer = AtomicBuffer::<i32>::new();
    assert!(buffer.drain_all().is_empty());
    for i in 0..10 {
        buffer.push(i).unwrap();
    }
    let drained = buffer.drain_all();
    assert_eq!(drained.len(), 10);
    assert!(buffer.pop().is_none());
}

#[test]
fn buffer_test_clone_shares_data() {
    let mut buffer = AtomicBuffer::<i32>::new();
    buffer.push(42).unwrap();
    buffer.clone_ref();
    buffer.clone_ref();
    buffer.clone_ref();
    assert_eq!(buffer.pop().unwrap(), 42);
    assert!(buffer.pop().is_none());
    assert!(!buffer.drop_ref());
    assert!(!buffer.drop_ref());
    buffer.push(100).unwrap();
    assert_eq!(buffer.pop().unwrap(), 100);
}

#[test]
fn test_no_leaks_manual_cleanup() {
    let counter = Arc::new(AtomicUsize::new(0));
    let mut buffer = AtomicBuffer::new();
    for i in 0..16 {
        push(&mut buffer, Counted::new(i, counter.clone()));
    }
    assert_eq!(counter.load(Ordering::SeqCst), 16);
    for i in 0..8 {
        assert_eq!(buffer.pop().unwrap().value, i);
    }
    assert_eq!(counter.load(Ordering::SeqCst), 8);
    drop(buffer.drain_all());
    assert_eq!(counter.load(Ordering::SeqCst), 0);
    for i in 0..5 {
        push(&mut buffer, Counted::new(i, counter.clone()));
    }
    buffer.clone_ref();
    buffer.clone_ref();
    assert!(!buffer.drop_ref());
    assert!(!buffer.drop_ref());
    assert_eq!(counter.load(Ordering::SeqCst), 5);
    drop(buffer.drain_all());
    assert_eq!(counter.load(Ordering::SeqCst), 0);
}

#[test]
fn test_drop_frees_remaining_elements() {
    let counter = Arc::new(AtomicUsize::new(0));
    {
        let mut buffer = AtomicBuffer::new();
        for i in 0..10 {
            push(&mut buffer, Counted::new(i, counter.clone()));
        }
        assert_eq!(counter.load(Ordering::SeqCst), 10);
    }
    assert_eq!(counter.load(Ordering::SeqCst), 0);
}

#[test]
fn test_wrap_around() {
    let mut buffer = AtomicBuffer::<i32>::with_capacity(4);
    for round in 0..5 {
        for i in 0..4 {
            buffer.push(round * 4 + i).unwrap();
        }
        for i in 0..4 {
            assert_eq!(buffer.pop().unwrap(), round * 4 + i);
        }
    }
    assert!(buffer.pop().is_none());
}

#[test]
fn buffer_test_push_pop_cycles() {
    let mut buffer = AtomicBuffer::<i32>::new();
    for cycle in 0..10 {
        for i in 0..5 {
            buffer.push(cycle * 10 + i).unwrap();
        }
        for _ in 0..3 {
            buffer.pop().unwrap();
        }
    }
    let mut remaining = 0;
    while buffer.pop().is_some() {
        remaining += 1;
    }
    assert_eq!(remaining, 20);
}

#[test]
fn test_capacity_one() {
    let mut buffer = AtomicBuffer::<i32>::with_capacity(1);
    assert!(buffer.push(42).is_ok());
    assert_eq!(buffer.push(99).unwrap_err(), 99);
    assert_eq!(buffer.pop().unwrap(), 42);
}

#[test]
fn test_single_push_pop() {
    let mut buffer = AtomicBuffer::<i32>::new();
    assert!(buffer.push(42).is_ok());
    assert_eq!(buffer.pop().unwrap(), 42);
}

#[test]
fn test_fill_buffer() {
    let mut buffer = AtomicBuffer::<i32>::new();
    for i in 0..buffer.capacity() {
        assert!(buffer.push(i as i32).is_ok());
    }
    assert!(buffer.push(999).is_err());
    for _ in 0..buffer.capacity() {
        buffer.pop().unwrap();
    }
}

#[test]
fn test_pop_all() {
    let mut buffer = AtomicBuffer::<i32>::new();
    for i in 0..buffer.capacity() {
        assert!(buffer.push(i as i32).is_ok());
    }
    for i in 0..buffer.capacity() {
        assert_eq!(buffer.pop().unwrap(), i as i32);
    }
    assert!(buffer.pop().is_none());
}

#[test]
fn the_length_counts_what_waits() {
    let mut buffer = AtomicBuffer::<i32>::with_capacity(4);
    assert!(buffer.is_empty_fast());
    buffer.push(1).unwrap();
    buffer.push(2).unwrap();
    assert_eq!(buffer.len_approx(), 2);
    assert!(!buffer.is_empty_fast());
    buffer.pop();
    assert_eq!(buffer.len_approx(), 1);
    buffer.pop();
    assert_eq!(buffer.len_approx(), 0);
}

#[test]
fn a_look_at_the_head_leaves_it_there() {
    let mut buffer = AtomicBuffer::<i32>::with_capacity(4);
    assert_eq!(buffer.try_pop_weak(), None);
    buffer.push(1).unwrap();
    buffer.push(2).unwrap();
    assert_eq!(buffer.try_pop_weak(), Some(&1));
    assert_eq!(buffer.try_pop_weak(), Some(&1));
    assert_eq!(buffer.len_approx(), 2);
    assert_eq!(buffer.pop(), Some(1));
    assert_eq!(buffer.try_pop_weak(), Some(&2));
    assert_eq!(buffer.pop(), Some(2));
    assert_eq!(buffer.try_pop_weak(), None);
}

#[test]
fn draining_goes_by_the_slots() {
    let mut buffer = AtomicBuffer::<i32>::with_capacity(4);
    for i in 0..4 {
        buffer.push(i).unwrap();
    }
    buffer.pop();
    buffer.pop();
    buffer.push(4).unwrap();
    assert_eq!(buffer.drain_all(), vec![4, 2, 3]);
    assert_eq!(buffer.len_approx(), 0);
}

#[test]
fn draining_to_a_vector_empties_the_buffer() {
    let mut buffer = AtomicBuffer::<i32>::with_capacity(4);
    buffer.push(7).unwrap();
    buffer.push(8).unwrap();
    assert_eq!(buffer.drain_to_vec(), vec![7, 8]);
    assert_eq!(buffer.len_approx(), 0);
    assert!(buffer.is_empty_fast());
    assert_eq!(buffer.try_pop_weak(), None);
    assert_eq!(buffer.pop(), None);
    buffer.push(9).unwrap();
    assert_eq!(buffer.pop(), Some(9));
}

#[test]
fn tickets_wrap_with_the_word() {
    let ticket = push_ticket(usize::MAX - 1, usize::MAX, 4).unwrap();
    assert_eq!(ticket.next, 0);
    assert_eq!(ticket.slot, 3);
    assert!(push_ticket(usize::MAX - 1, 2, 4).is_none());
    let ticket = pop_ticket(usize::MAX, 0, 4).unwrap();
    assert_eq!(ticket.next, 0);
    assert_eq!(ticket.slot, 3);
    assert!(pop_ticket(5, 5, 4).is_none());
}
