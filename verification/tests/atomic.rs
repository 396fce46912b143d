use crossync::atomic::Atomic;
use std::rc::Rc;
use std::sync::atomic::{AtomicUsize, Ordering};
use std::sync::Arc;

#[derive(Debug, Clone, PartialEq)]
struct Person {
    name: String,
    age: u32,
}

#[derive(Debug, Clone)]
struct Counter {
    count: u32,
    name: String,
}

#[derive(Debug, Clone, PartialEq)]
struct Data {
    value: i32,
}

#[derive(Debug, Clone, PartialEq)]
enum State {
    Idle,
    Running(u32),
    Stopped,
}

#[derive(Clone)]
struct DropCounter(Arc<AtomicUsize>);

impl Drop for DropCounter {
    fn drop(&mut self) {
        self.0.fetch_add(1, Ordering::SeqCst);
    }
}

#[test]
fn test_custom_struct() {
    let mut atomic = Atomic::new(Person {
        name: "Alice".to_string(),
        age: 30,
    });
    let person = atomic.load();
    assert_eq!(person.name, "Alice");
    assert_eq!(person.age, 30);
    atomic.store(Person {
        name: "Bob".to_string(),
        age: 25,
    });
    let person = atomic.load();
    assert_eq!(person.name, "Bob");
}

#[test]
fn test_with_operations() {
    let mut atomic = Atomic::new(Counter {
        count: 0,
        name: "test".to_string(),
    });
    let count = atomic.with(|c| c.count);
    assert_eq!(count, 0);
    atomic.with_mut(|c| {
        c.count += 10;
        c.name = "updated".to_string();
    });
    let name = atomic.with(|c| c.name.clone());
    assert_eq!(name, "updated");
}

#[test]
fn test_string_operations() {
    let mut atomic = Atomic::new(String::from("Hello"));
    atomic.push_str(" World");
    assert_eq!(atomic.load(), "Hello World");
    assert_eq!(atomic.len(), 11);
    assert!(!atomic.is_empty());
    atomic.clear();
    assert!(atomic.is_empty());
}

#[test]
fn test_vec_operations() {
    let mut atomic = Atomic::new(Vec::<i32>::new());
    atomic.push(1);
    atomic.push(2);
    atomic.push(3);
    assert_eq!(atomic.len(), 3);
    let popped = atomic.pop();
    assert_eq!(popped, Some(3));
    assert_eq!(atomic.len(), 2);
    atomic.extend(vec![4, 5, 6]);
    assert_eq!(atomic.len(), 5);
    atomic.clear();
    assert!(atomic.is_empty());
}

#[test]
fn test_option_operations() {
    let mut atomic = Atomic::new(Some(42));
    assert!(atomic.is_some());
    assert!(!atomic.is_none());
    let value = atomic.take();
    assert_eq!(value, Some(42));
    assert!(atomic.is_none());
    let old = atomic.replace(100);
    assert_eq!(old, None);
    assert_eq!(atomic.load(), Some(100));
}

#[test]
fn test_replace_with() {
    let mut atomic = Atomic::new(Data { value: 10 });
    let old = atomic.replace_with(|d| Data { value: d.value * 2 });
    assert_eq!(old.value, 10);
    assert_eq!(atomic.load().value, 20);
}

#[test]
fn test_try_update() {
    let mut atomic = Atomic::new(10);
    let result = atomic.try_update(|x| {
        if *x < 100 {
            *x = *x * 2;
            true
        } else {
            false
        }
    });
    assert!(result.is_ok());
    assert_eq!(atomic.load(), 20);
    atomic.store(150);
    let result = atomic.try_update(|x| {
        if *x < 100 {
            *x = *x * 2;
            true
        } else {
            false
        }
    });
    assert!(result.is_err());
    assert_eq!(atomic.load(), 150);
}

#[test]
fn test_enum() {
    let mut atomic = Atomic::new(State::Idle);
    atomic.store(State::Running(42));
    assert_eq!(atomic.load(), State::Running(42));
    atomic.update(|state| {
        *state = State::Stopped;
    });
    assert_eq!(atomic.load(), State::Stopped);
}

#[test]
fn test_custom_struct_load_store() {
    let mut atomic = Atomic::new(Person {
        name: "Alice".into(),
        age: 30,
    });
    assert_eq!(atomic.load().name, "Alice");
    atomic.store(Person {
        name: "Bob".into(),
        age: 25,
    });
    assert_eq!(atomic.load().age, 25);
}

#[test]
fn test_enum_usage() {
    let mut atomic = Atomic::new(State::Idle);
    atomic.store(State::Running(10));
    assert_eq!(atomic.load(), State::Running(10));
    atomic.update(|s| *s = State::Stopped);
    assert_eq!(atomic.load(), State::Stopped);
}

#[test]
fn test_with_and_with_mut() {
    let mut atomic = Atomic::new(Counter { count: 0, name: String::new() });
    let c = atomic.with(|v| v.count);
    assert_eq!(c, 0);
    atomic.with_mut(|v| v.count += 5);
    assert_eq!(atomic.with(|v| v.count), 5);
}

#[test]
fn test_string_ops() {
    let mut atomic = Atomic::new(String::from("hi"));
    atomic.push_str(" there");
    assert_eq!(atomic.load(), "hi there");
    atomic.clear();
    assert!(atomic.is_empty());
}

#[test]
fn test_vec_ops() {
    let mut atomic = Atomic::new(Vec::<i32>::new());
    atomic.push(1);
    atomic.push(2);
    assert_eq!(atomic.len(), 2);
    assert_eq!(atomic.pop(), Some(2));
    assert_eq!(atomic.len(), 1);
}

#[test]
fn test_option_ops() {
    let mut atomic = Atomic::new(Some(10));
    assert!(atomic.is_some());
    assert_eq!(atomic.take(), Some(10));
    assert!(atomic.is_none());
    assert_eq!(atomic.replace(20), None);
    assert_eq!(atomic.load(), Some(20));
}

#[test]
fn test_drop_exactly_once_replace_with() {
    let drops = Arc::new(AtomicUsize::new(0));
    {
        let mut atomic = Atomic::new(DropCounter(drops.clone()));
        let fresh = DropCounter(drops.clone());
        let _old = atomic.replace_with(move |_| fresh);
    }
    assert_eq!(drops.load(Ordering::SeqCst), 2);
}

#[test]
fn test_rc_not_leaked() {
    let weak = {
        let rc = Rc::new(());
        let weak = Rc::downgrade(&rc);
        {
            let mut atomic = Atomic::new(rc.clone());
            atomic.store(Rc::new(()));
        }
        drop(rc);
        weak
    };
    assert!(weak.upgrade().is_none());
}

#[test]
fn test_replace_with_safe() {
    let mut atomic = Atomic::new(Data { value: 10 });
    let old = atomic.replace_with(|d| Data { value: d.value * 2 });
    assert_eq!(old.value, 10);
    assert_eq!(atomic.load().value, 20);
}

#[test]
fn test_update_safe() {
    let mut atomic = Atomic::new(vec![1, 2, 3]);
    let result: Result<(), ()> = atomic.try_update(|v| {
        if v.len() > 0 {
            v.push(4);
            false
        } else {
            true
        }
    });
    assert!(result.is_err());
    let v = atomic.load();
    assert_eq!(v, vec![1, 2, 3, 4]);
}

#[test]
fn test_compare_exchange() {
    let mut atomic = Atomic::new(0);
    assert_eq!(atomic.compare_exchange(0, 1), Ok(0));
    assert_eq!(atomic.compare_exchange(0, 2), Err(1));
    assert_eq!(atomic.load(), 1);
}

#[test]
fn a_conditional_exchange_tells_what_it_saw() {
    let mut atomic = Atomic::new(5u32);
    assert_eq!(atomic.compare_exchange_weak(5, 6), Ok(5));
    assert_eq!(atomic.compare_exchange_weak(5, 7), Err(6));
    assert_eq!(atomic.compare_and_swap(6, 8), 6);
    assert_eq!(atomic.compare_and_swap(6, 9), 8);
    assert_eq!(atomic.load_copy(), 8);
    assert_eq!(atomic.swap_copy(1), 8);
    assert_eq!(atomic.swap(2), 1);
    assert_eq!(atomic.take_default(), 2);
    assert_eq!(atomic.into_inner(), 0);
}

#[test]
fn a_fetch_hands_back_the_value_before() {
    let mut atomic = Atomic::new(12u8);
    assert_eq!(atomic.fetch_add(3), 12);
    assert_eq!(atomic.fetch_sub(1), 15);
    assert_eq!(atomic.fetch_and_bits(6), 14);
    assert_eq!(atomic.fetch_or_bits(9), 6);
    assert_eq!(atomic.fetch_xor_bits(5), 15);
    assert_eq!(atomic.fetch_max(20), 10);
    assert_eq!(atomic.fetch_min(4), 20);
    assert_eq!(atomic.fetch_nand(6), 4);
    assert_eq!(atomic.load(), 251);
    assert_eq!(atomic.fetch_update(|v| if *v > 250 { Some(1) } else { None }), Ok(251));
    assert_eq!(atomic.fetch_update(|v| if *v > 250 { Some(1) } else { None }), Err(1));
}

#[test]
fn truth_values_are_combined() {
    let mut atomic = Atomic::new(true);
    assert!(atomic.fetch_and(false));
    assert!(!atomic.fetch_or(true));
    assert!(atomic.fetch_xor(true));
    assert!(!atomic.fetch_nand(true));
    assert!(atomic.load());
    assert!(atomic.fetch_nand(true));
    assert!(!atomic.load());
}

#[test]
fn a_nand_inverts_the_common_bits() {
    let mut signed = Atomic::new(-1i32);
    assert_eq!(signed.fetch_nand(0x0f), -1);
    assert_eq!(signed.load(), !0x0f);
    let mut wide = Atomic::new(0xff00u64);
    assert_eq!(wide.fetch_nand(0x0ff0), 0xff00);
    assert_eq!(wide.load(), !0x0f00);
}

#[test]
fn a_default_and_a_converted_value_are_held() {
    let atomic: Atomic<u16> = Atomic::default();
    assert_eq!(atomic.load(), 0);
    let mut atomic = Atomic::from(9);
    *atomic.get_mut() = 10;
    assert_eq!(atomic.load(), 10);
}
