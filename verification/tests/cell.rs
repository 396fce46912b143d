use crossync::atomic::AtomicCell;

fn read<T: Clone>(cell: &mut AtomicCell<T>) -> T {
    let guard = cell.get();
    let value = guard.deref().clone();
    guard.unlock();
    value
}

#[test]
fn test_basic_load_store() {
    let mut cell = AtomicCell::new(42);
    assert_eq!(read(&mut cell), 42);
    cell.store(100);
    assert_eq!(read(&mut cell), 100);
}

#[test]
fn test_swap() {
    let mut cell = AtomicCell::new(10);
    let old = cell.swap(20);
    assert_eq!(old, 10);
    assert_eq!(read(&mut cell), 20);
}

#[test]
fn test_compare_exchange_success() {
    let mut cell = AtomicCell::new(5);
    let res = cell.compare_exchange(5, 10);
    assert_eq!(res.unwrap(), 5);
    assert_eq!(read(&mut cell), 10);
}

#[test]
fn test_compare_exchange_fail() {
    let mut cell = AtomicCell::new(5);
    let res = cell.compare_exchange(10, 20);
    assert!(res.is_err());
    res.unwrap_err().unlock();
    assert_eq!(read(&mut cell), 5);
}

#[test]
fn test_clone_and_drop_ref_count() {
    let mut cell = AtomicCell::new(42);
    cell.clone_ref();
    assert_eq!(read(&mut cell), 42);
    assert!(!cell.drop_ref());
    assert_eq!(read(&mut cell), 42);
    assert!(cell.drop_ref());
}

#[test]
fn test_reentrant_mut_access() {
    let mut cell = AtomicCell::new(vec![1, 2, 3]);
    {
        let mut guard = cell.get_mut();
        guard.deref_mut().push(4);
        guard.unlock();
    }
    {
        let mut guard = cell.get_mut();
        guard.deref_mut().push(5);
        guard.unlock();
    }
    assert_eq!(read(&mut cell), vec![1, 2, 3, 4, 5]);
}

#[derive(Debug, Clone, PartialEq)]
struct Person {
    name: String,
    age: u32,
}

#[test]
fn cell_test_complex_type() {
    let mut cell = AtomicCell::new(Person { name: "Alice".into(), age: 30 });
    let person = read(&mut cell);
    assert_eq!(person.name, "Alice");
    assert_eq!(person.age, 30);
    cell.store(Person { name: "Bob".into(), age: 25 });
    let person = read(&mut cell);
    assert_eq!(person.name, "Bob");
    assert_eq!(person.age, 25);
}

#[test]
fn test_into_inner() {
    let cell = AtomicCell::new(String::from("hello"));
    let value = cell.into_inner();
    assert_eq!(value, "hello");
}

#[test]
fn test_into_inner_complex() {
    let cell = AtomicCell::new(vec![1, 2, 3, 4, 5]);
    let value = cell.into_inner();
    assert_eq!(value, vec![1, 2, 3, 4, 5]);
}

#[test]
fn a_failed_exchange_keeps_the_lock() {
    let mut cell = AtomicCell::new(5);
    let guard = cell.compare_exchange(10, 20).unwrap_err();
    assert!(guard.is_locked());
    assert_eq!(*guard.deref(), 5);
    assert_eq!(guard.lock.get_ref_count(), 2);
}

#[test]
fn a_copy_is_loaded_without_the_lock() {
    let mut cell = AtomicCell::new(9);
    let _ = cell.get_mut();
    assert_eq!(cell.load(), 9);
}
