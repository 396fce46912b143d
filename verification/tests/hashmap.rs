use crossync::atomic::AtomicHashMap;
use std::hash::{BuildHasher, Hash, Hasher};
use std::sync::atomic::{AtomicUsize, Ordering};
use std::sync::Arc;

fn at<K: Hash + Eq + Clone, V: Clone>(map: &mut AtomicHashMap<K, V>, key: K) -> Option<V> {
    match map.get(&key) {
        Some(guard) => {
            let value = guard.deref().clone();
            guard.unlock();
            Some(value)
        }
        None => None,
    }
}

#[derive(Clone)]
struct DropTracker {
    id: usize,
    counter: Arc<AtomicUsize>,
}

impl DropTracker {
    fn new(id: usize, counter: Arc<AtomicUsize>) -> Self {
        counter.fetch_add(1, Ordering::SeqCst);
        Self { id, counter }
    }
}

impl Drop for DropTracker {
    fn drop(&mut self) {
        self.counter.fetch_sub(1, Ordering::SeqCst);
    }
}

#[derive(Clone, PartialEq, Eq, Debug)]
struct BadHash(i32);

impl Hash for BadHash {
    fn hash<H: Hasher>(&self, state: &mut H) {
        0i32.hash(state);
    }
}

struct Zst(Arc<AtomicUsize>);

impl Drop for Zst {
    fn drop(&mut self) {
        self.0.fetch_sub(1, Ordering::SeqCst);
    }
}

#[test]
fn test_insert_get_remove() {
    let mut map = AtomicHashMap::new();
    map.insert("key1", 10);
    map.insert("key2", 20);
    assert_eq!(at(&mut map, "key1").unwrap(), 10);
    assert_eq!(at(&mut map, "key2").unwrap(), 20);
    assert_eq!(map.len(), 2);
    map.insert("key1", 99);
    assert_eq!(at(&mut map, "key1").unwrap(), 99);
    assert_eq!(map.len(), 2);
    assert_eq!(map.remove(&"key1"), Some(99));
    assert!(map.get(&"key1").is_none());
    assert_eq!(map.len(), 1);
    assert!(map.remove(&"nonexistent").is_none());
}

#[test]
fn hashmap_test_get_mut() {
    let mut map = AtomicHashMap::new();
    map.insert("x", vec![1, 2]);
    {
        let mut guard = map.get_mut(&"x").unwrap();
        guard.deref_mut().push(3);
        guard.unlock();
    }
    assert_eq!(at(&mut map, "x").unwrap(), vec![1, 2, 3]);
    assert!(map.get_mut(&"nonexistent").is_none());
}

#[test]
fn test_contains_and_iteration() {
    let mut map = AtomicHashMap::with_capacity(8);
    for i in 0..100 {
        map.insert(i, i * 10);
    }
    assert!(map.contains_key(&50));
    assert!(!map.contains_key(&200));
    let vec = map.as_vec::<i32, i32>();
    assert_eq!(vec.len(), 100);
    for (k, v) in &vec {
        assert_eq!(*v, *k * 10);
    }
}

#[test]
fn test_empty_map() {
    let mut map: AtomicHashMap<i32, i32> = AtomicHashMap::new();
    assert!(map.get(&1).is_none());
    assert!(map.get_mut(&1).is_none());
    assert!(map.remove(&1).is_none());
    assert!(!map.contains_key(&1));
    assert_eq!(map.len(), 0);
    assert!(map.is_empty());
    map.clear();
}

#[test]
fn test_clear() {
    let mut map = AtomicHashMap::new();
    for i in 0..100 {
        map.insert(i, i);
    }
    assert_eq!(map.len(), 100);
    map.clear();
    assert_eq!(map.len(), 0);
    assert!(map.is_empty());
    for i in 0..50 {
        map.insert(i, i * 2);
    }
    assert_eq!(map.len(), 50);
}

#[test]
fn hashmap_test_no_leaks() {
    let counter = Arc::new(AtomicUsize::new(0));
    {
        let mut map = AtomicHashMap::new();
        for i in 0..100 {
            map.insert(i, DropTracker::new(i, counter.clone()));
        }
        assert_eq!(counter.load(Ordering::SeqCst), 100);
        for i in 0..50 {
            map.insert(i, DropTracker::new(i + 1000, counter.clone()));
        }
        assert_eq!(counter.load(Ordering::SeqCst), 100, "Overwrite leak");
        for i in 0..25 {
            map.remove(&i);
        }
        assert_eq!(counter.load(Ordering::SeqCst), 75, "Remove leak");
        map.clear();
        assert_eq!(counter.load(Ordering::SeqCst), 0, "Clear leak");
        for i in 0..50 {
            map.insert(i, DropTracker::new(i, counter.clone()));
        }
        assert_eq!(counter.load(Ordering::SeqCst), 50);
        assert_eq!(map.get(&49).unwrap().deref().id, 49);
    }
    assert_eq!(counter.load(Ordering::SeqCst), 0, "Drop leak");
}

#[test]
fn hashmap_test_clone_refcount() {
    let counter = Arc::new(AtomicUsize::new(0));
    {
        let mut map = AtomicHashMap::new();
        for i in 0..50 {
            map.insert(i, DropTracker::new(i, counter.clone()));
        }
        map.clone_ref();
        map.clone_ref();
        assert_eq!(counter.load(Ordering::SeqCst), 50);
        map.insert(100, DropTracker::new(100, counter.clone()));
        assert!(map.contains_key(&100));
        assert!(!map.drop_ref());
        assert!(!map.drop_ref());
        assert_eq!(counter.load(Ordering::SeqCst), 51);
    }
    assert_eq!(counter.load(Ordering::SeqCst), 0);
}

#[test]
fn test_hash_collisions() {
    let counter = Arc::new(AtomicUsize::new(0));
    {
        let mut map = AtomicHashMap::new();
        for i in 0..100 {
            map.insert(BadHash(i), DropTracker::new(i as usize, counter.clone()));
        }
        assert_eq!(map.len(), 100);
        assert_eq!(counter.load(Ordering::SeqCst), 100);
        for i in 0..100 {
            let guard = map.get(&BadHash(i)).unwrap();
            assert_eq!(guard.deref().id, i as usize);
            guard.unlock();
        }
        for i in (0..100).step_by(2) {
            map.remove(&BadHash(i));
        }
        assert_eq!(map.len(), 50);
        assert_eq!(counter.load(Ordering::SeqCst), 50);
    }
    assert_eq!(counter.load(Ordering::SeqCst), 0);
}

#[test]
fn test_large_values() {
    let mut map = AtomicHashMap::new();
    let large_data: Vec<u8> = vec![0xAB; 1024 * 1024];
    for i in 0..5 {
        map.insert(i, large_data.clone());
    }
    for i in 0..5 {
        let guard = map.get(&i).unwrap();
        assert_eq!(guard.deref().len(), 1024 * 1024);
        assert!(guard.deref().iter().all(|&b| b == 0xAB));
        guard.unlock();
    }
}

#[test]
fn test_zst_values() {
    let counter = Arc::new(AtomicUsize::new(0));
    {
        let mut map = AtomicHashMap::new();
        for i in 0..100 {
            counter.fetch_add(1, Ordering::SeqCst);
            map.insert(i, Zst(counter.clone()));
        }
        assert_eq!(counter.load(Ordering::SeqCst), 100);
    }
    assert_eq!(counter.load(Ordering::SeqCst), 0);
}

#[test]
fn insert_and_get() {
    let mut map = AtomicHashMap::new();
    map.insert("key1", 10);
    map.insert("key2", 20);
    assert_eq!(at(&mut map, "key1").unwrap(), 10);
    assert_eq!(at(&mut map, "key2").unwrap(), 20);
    assert_eq!(map.len(), 2);
}

#[test]
fn overwrite_value() {
    let mut map = AtomicHashMap::new();
    map.insert("key", 42);
    let c = at(&mut map, "key");
    assert_eq!(c.unwrap(), 42);
    map.insert("key", 99);
    assert_eq!(at(&mut map, "key").unwrap(), 99);
    assert_eq!(map.len(), 1);
}

#[test]
fn remove_key() {
    let mut map = AtomicHashMap::new();
    map.insert("to_remove", 123);
    assert_eq!(map.len(), 1);
    let removed = map.remove(&"to_remove");
    assert_eq!(removed, Some(123));
    assert!(map.get(&"to_remove").is_none());
    assert_eq!(map.len(), 0);
}

#[test]
fn get_mut_changes_value() {
    let mut map = AtomicHashMap::new();
    map.insert("x", 5);
    {
        let mut val = map.get_mut(&"x").unwrap();
        *val.deref_mut() = 77;
        val.unlock();
    }
    assert_eq!(at(&mut map, "x").unwrap(), 77);
}

#[test]
fn iterates_all_items() {
    let mut map = AtomicHashMap::with_capacity(8);
    for i in 0..100 {
        map.insert(i, i * 10);
    }
    let mut seen = 0;
    for (k, v) in map.as_vec::<i32, i32>().iter() {
        assert_eq!(*v, *k * 10);
        seen += 1;
    }
    assert_eq!(seen, 100);
}

#[test]
fn clone_and_drop() {
    let mut map = AtomicHashMap::new();
    map.insert("k", 1);
    map.clone_ref();
    assert_eq!(at(&mut map, "k").unwrap(), 1);
    assert!(!map.drop_ref());
    assert_eq!(at(&mut map, "k").unwrap(), 1);
}

#[test]
fn an_insert_hands_the_replaced_value_back() {
    let mut map = AtomicHashMap::new();
    assert_eq!(map.insert(1, "one"), None);
    assert_eq!(map.insert(1, "uno"), Some("one"));
    assert_eq!(map.insert(2, "two"), None);
    assert_eq!(at(&mut map, 1), Some("uno"));
    assert_eq!(at(&mut map, 2), Some("two"));
}

#[test]
fn other_keys_survive_an_insert_and_a_remove() {
    let mut map = AtomicHashMap::with_shard_amount(2);
    for i in 0..200 {
        map.insert(i, i);
    }
    map.insert(7, 700);
    map.remove(&8);
    for i in 0..200 {
        let expected = match i {
            7 => Some(700),
            8 => None,
            _ => Some(i),
        };
        assert_eq!(at(&mut map, i), expected);
    }
}

#[test]
fn equal_hashes_are_told_apart_by_the_key() {
    let mut map: AtomicHashMap<u32, u32> = AtomicHashMap::with_shard_amount(4);
    assert_eq!(map.insert_hashed(1, 10, 0), None);
    assert_eq!(map.insert_hashed(2, 20, 0), None);
    assert_eq!(map.insert_hashed(3, 30, 1), None);
    assert_eq!(map.remove_by(0, &|k: &u32| *k == 2), Some(20));
    assert_eq!(map.remove_by(0, &|k: &u32| *k == 3), None);
    assert!(map.contains_by(1, &|k: &u32| *k == 3));
    assert!(!map.contains_by(1, &|k: &u32| *k == 1));
    assert_eq!(map.len(), 2);
}

#[test]
fn the_hasher_belongs_to_the_map() {
    let map: AtomicHashMap<u64, u64> = AtomicHashMap::new();
    let other: AtomicHashMap<u64, u64> = AtomicHashMap::new();
    assert_eq!(map.hasher().hash_one(5u64), map.hasher().hash_one(5u64));
    assert_ne!(map.hasher().hash_one(5u64), other.hasher().hash_one(5u64));
}

#[test]
fn a_report_counts_the_entries() {
    let mut map = AtomicHashMap::new();
    map.insert(1, 2);
    let report = map.report();
    assert_eq!(report.len, 1);
    assert!(format!("{:?}", report).contains("AtomicHashMap"));
    assert_eq!(report.ref_count, 1);
    assert!(map.capacity() >= 1);
}

#[test]
fn the_shard_is_told_by_the_hash_and_the_number_of_shards() {
    let map: AtomicHashMap<u8, u8> = AtomicHashMap::with_shard_amount(4);
    let top = u64::BITS - 7;
    assert_eq!(map.determine_shard(0), 0);
    assert_eq!(map.determine_shard(1 << (top - 2)), 1);
    assert_eq!(map.determine_shard(2 << (top - 2)), 2);
    assert_eq!(map.determine_shard(3 << (top - 2)), 3);
    assert_eq!(map.determine_shard(u64::MAX), 3);
    let other: AtomicHashMap<u8, u8> = AtomicHashMap::with_shard_amount(4);
    for hash in [5u64, 1 << 60, u64::MAX / 3, u64::MAX] {
        assert_eq!(map.determine_shard(hash), other.determine_shard(hash));
        assert!(map.determine_shard(hash) < 4);
    }
}
