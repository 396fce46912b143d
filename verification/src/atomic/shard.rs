//! The shards of a hash map: slots that hold chains of entries, each slot under a mutex of
//! its own.

use crate::sync::mutex::Mutex;
use crate::sync::watch_guard_mut::WatchGuardMut;
use crate::sync::watch_guard_ref::WatchGuardRef;
use vstd::prelude::*;
use vstd::std_specs::cmp::PartialEqSpec;
use vstd::std_specs::convert::IntoSpec;

verus! {

use crate::sync::mutex::{lemma_mutex_steps, MutexView};

/// A key with its value and its hash.
#[derive(Debug)]
pub struct Entry<K, V> {
    /// The key.
    pub key: K,
    /// The value.
    pub value: V,
    /// The hash of the key.
    pub hash: u64,
}

/// A chain of entries, the latest one first, and the mutex that protects it.
#[derive(Debug)]
pub struct Slot<K, V> {
    chain: Vec<Entry<K, V>>,
    mutex: Mutex,
}

/// What a slot says.
pub struct SlotView<K, V> {
    /// The entries, the latest one first.
    pub chain: Seq<Entry<K, V>>,
    /// The mutex.
    pub mutex: MutexView,
}

/// The entry `i` is the first of the chain that has the hash and whose key equals `key`.
pub open spec fn is_first<K: PartialEq, V>(
    chain: Seq<Entry<K, V>>,
    hash: u64,
    key: K,
    i: int,
) -> bool {
    &&& 0 <= i < chain.len()
    &&& chain[i].hash == hash && chain[i].key.eq_spec(&key)
    &&& forall|j: int|
        0 <= j < i ==> !((#[trigger] chain[j]).hash == hash && chain[j].key.eq_spec(&key))
}

/// No entry of the chain has the hash and a key that equals `key`.
pub open spec fn is_absent<K: PartialEq, V>(chain: Seq<Entry<K, V>>, hash: u64, key: K) -> bool {
    forall|j: int|
        0 <= j < chain.len() ==> !((#[trigger] chain[j]).hash == hash && chain[j].key.eq_spec(
            &key,
        ))
}

/// Where in the chain the first entry of a key is.
pub open spec fn lookup<K: PartialEq, V>(chain: Seq<Entry<K, V>>, hash: u64, key: K) -> Option<
    int,
> {
    if exists|i: int| is_first(chain, hash, key, i) {
        Some(choose|i: int| is_first(chain, hash, key, i))
    } else {
        None
    }
}

/// The value of the first entry of a key.
pub open spec fn value_of<K: PartialEq, V>(chain: Seq<Entry<K, V>>, hash: u64, key: K) -> Option<
    V,
> {
    match lookup(chain, hash, key) {
        Some(i) => Some(chain[i].value),
        None => None,
    }
}

/// The chain after a key was given a value: its entry has the new value, or there is a new
/// entry in front.
pub open spec fn with_value<K: PartialEq, V>(
    chain: Seq<Entry<K, V>>,
    hash: u64,
    key: K,
    value: V,
) -> Seq<Entry<K, V>> {
    match lookup(chain, hash, key) {
        Some(i) => chain.update(i, Entry { key: chain[i].key, value, hash: chain[i].hash }),
        None => seq![Entry { key, value, hash }] + chain,
    }
}

/// The chain after the first entry of a key was taken out.
pub open spec fn without_key<K: PartialEq, V>(
    chain: Seq<Entry<K, V>>,
    hash: u64,
    key: K,
) -> Seq<Entry<K, V>> {
    match lookup(chain, hash, key) {
        Some(i) => chain.remove(i),
        None => chain,
    }
}

/// No entry of the chain equals a later one in hash and key.
pub open spec fn is_distinct<K: PartialEq, V>(chain: Seq<Entry<K, V>>) -> bool {
    forall|i: int, j: int|
        0 <= i < j < chain.len() ==> !((#[trigger] chain[j]).hash == (#[trigger] chain[i]).hash
            && chain[j].key.eq_spec(&chain[i].key))
}

/// What [`lookup`] gives for a chain on which the first entry of the key is known.
pub proof fn lemma_lookup<K: PartialEq, V>(
    chain: Seq<Entry<K, V>>,
    hash: u64,
    key: K,
    found: Option<int>,
)
    requires
        match found {
            Some(i) => is_first(chain, hash, key, i),
            None => is_absent(chain, hash, key),
        },
    ensures
        lookup(chain, hash, key) == found,
{
    match found {
        Some(i) => {
            let k = choose|k: int| is_first(chain, hash, key, k);
            assert(is_first(chain, hash, key, k));
            if k < i {
                assert(!(chain[k].hash == hash && chain[k].key.eq_spec(&key)));
            }
            if i < k {
                assert(!(chain[i].hash == hash && chain[i].key.eq_spec(&key)));
            }
        },
        None => {
            assert forall|i: int| !is_first(chain, hash, key, i) by {
                if 0 <= i < chain.len() {
                    assert(!(chain[i].hash == hash && chain[i].key.eq_spec(&key)));
                }
            }
        },
    }
}

/// A key that [`lookup`] does not find is absent.
pub proof fn lemma_not_found<K: PartialEq, V>(chain: Seq<Entry<K, V>>, hash: u64, key: K)
    ensures
        match lookup(chain, hash, key) {
            Some(i) => is_first(chain, hash, key, i),
            None => is_absent(chain, hash, key),
        },
{
    if lookup(chain, hash, key) is None && !is_absent(chain, hash, key) {
        let j = choose|j: int|
            0 <= j < chain.len() && (#[trigger] chain[j]).hash == hash && chain[j].key.eq_spec(
                &key,
            );
        lemma_some_first(chain, hash, key, j);
    }
}

proof fn lemma_some_first<K: PartialEq, V>(chain: Seq<Entry<K, V>>, hash: u64, key: K, j: int)
    requires
        0 <= j < chain.len(),
        chain[j].hash == hash && chain[j].key.eq_spec(&key),
    ensures
        exists|i: int| is_first(chain, hash, key, i),
    decreases j,
{
    if !is_first(chain, hash, key, j) {
        let k = choose|k: int|
            0 <= k < j && (#[trigger] chain[k]).hash == hash && chain[k].key.eq_spec(&key);
        lemma_some_first(chain, hash, key, k);
    }
}

/// Equal keys are looked up alike.
pub proof fn lemma_equal_keys<K: PartialEq, V>(chain: Seq<Entry<K, V>>, hash: u64, a: K, b: K)
    requires
        vstd::laws_eq::obeys_eq::<K>(),
        a.eq_spec(&b),
    ensures
        lookup(chain, hash, a) == lookup(chain, hash, b),
{
    reveal(vstd::laws_eq::obeys_eq_spec_properties);
    assert(b.eq_spec(&a));
    assert forall|i: int| 0 <= i < chain.len() implies (#[trigger] chain[i]).key.eq_spec(&a)
        == chain[i].key.eq_spec(&b) by {
        let k = chain[i].key;
        assert(k.eq_spec(&a) && a.eq_spec(&b) ==> k.eq_spec(&b));
        assert(k.eq_spec(&b) && b.eq_spec(&a) ==> k.eq_spec(&a));
    }
    lemma_not_found(chain, hash, a);
    lemma_lookup(chain, hash, b, lookup(chain, hash, a));
}

/// What a key is looked up with afterwards is what it was given, and the value before is
/// what it was looked up with.
pub proof fn lemma_with_value_found<K: PartialEq, V>(
    chain: Seq<Entry<K, V>>,
    hash: u64,
    key: K,
    value: V,
)
    requires
        key.eq_spec(&key),
    ensures
        value_of(with_value(chain, hash, key, value), hash, key) == Some(value),
{
    lemma_not_found(chain, hash, key);
    let after = with_value(chain, hash, key, value);
    match lookup(chain, hash, key) {
        Some(i) => {
            assert(is_first(after, hash, key, i)) by {
                assert forall|j: int| 0 <= j < i implies !((#[trigger] after[j]).hash == hash
                    && after[j].key.eq_spec(&key)) by {
                    assert(after[j] == chain[j]);
                }
            }
            lemma_lookup(after, hash, key, Some(i));
        },
        None => {
            assert(is_first(after, hash, key, 0));
            lemma_lookup(after, hash, key, Some(0));
        },
    }
}

/// Giving one key a value changes nothing for a key that differs from it.
pub proof fn lemma_with_value_other<K: PartialEq, V>(
    chain: Seq<Entry<K, V>>,
    hash: u64,
    key: K,
    value: V,
    other_hash: u64,
    other: K,
)
    requires
        vstd::laws_eq::obeys_eq::<K>(),
        other_hash != hash || !key.eq_spec(&other),
    ensures
        value_of(with_value(chain, hash, key, value), other_hash, other) == value_of(
            chain,
            other_hash,
            other,
        ),
{
    reveal(vstd::laws_eq::obeys_eq_spec_properties);
    lemma_not_found(chain, hash, key);
    lemma_not_found(chain, other_hash, other);
    let after = with_value(chain, hash, key, value);
    let found = lookup(chain, other_hash, other);
    match lookup(chain, hash, key) {
        Some(i) => {
            assert forall|j: int| 0 <= j < chain.len() implies (#[trigger] after[j]).hash
                == chain[j].hash && after[j].key == chain[j].key by {}
            if let Some(k) = found {
                if k == i {
                    assert(chain[i].key.eq_spec(&key));
                    assert(key.eq_spec(&chain[i].key));
                    assert(key.eq_spec(&other));
                }
                assert(after[k] == chain[k]);
            }
            lemma_lookup(after, other_hash, other, found);
        },
        None => {
            assert forall|j: int| 0 < j < after.len() implies #[trigger] after[j] == chain[j
                - 1] by {}
            match found {
                Some(k) => {
                    assert(is_first(after, other_hash, other, k + 1)) by {
                        assert(after[k + 1] == chain[k]);
                        assert forall|j: int| 0 <= j < k + 1 implies !((#[trigger] after[j]).hash
                            == other_hash && after[j].key.eq_spec(&other)) by {
                            if j > 0 {
                                assert(after[j] == chain[j - 1]);
                            }
                        }
                    }
                    lemma_lookup(after, other_hash, other, Some(k + 1));
                },
                None => {
                    assert(is_absent(after, other_hash, other)) by {
                        assert forall|j: int| 0 <= j < after.len() implies !((
                        #[trigger] after[j]).hash == other_hash && after[j].key.eq_spec(&other)) by {
                            if j > 0 {
                                assert(after[j] == chain[j - 1]);
                            }
                        }
                    }
                    lemma_lookup(after, other_hash, other, None);
                },
            }
        },
    }
}

/// A key that was taken out is no longer found.
pub proof fn lemma_without_key_absent<K: PartialEq, V>(
    chain: Seq<Entry<K, V>>,
    hash: u64,
    key: K,
)
    requires
        vstd::laws_eq::obeys_eq::<K>(),
        is_distinct(chain),
    ensures
        value_of(without_key(chain, hash, key), hash, key) is None,
{
    reveal(vstd::laws_eq::obeys_eq_spec_properties);
    lemma_not_found(chain, hash, key);
    let after = without_key(chain, hash, key);
    match lookup(chain, hash, key) {
        None => {},
        Some(i) => {
            assert(is_absent(after, hash, key)) by {
                assert forall|j: int| 0 <= j < after.len() implies !((#[trigger] after[j]).hash
                    == hash && after[j].key.eq_spec(&key)) by {
                    if j < i {
                        assert(after[j] == chain[j]);
                    } else {
                        let later = chain[j + 1];
                        assert(after[j] == later);
                        assert(!(later.hash == chain[i].hash && later.key.eq_spec(
                            &chain[i].key,
                        )));
                        if later.hash == hash && later.key.eq_spec(&key) {
                            assert(key.eq_spec(&chain[i].key));
                            assert(later.key.eq_spec(&chain[i].key));
                        }
                    }
                }
            }
            lemma_lookup(after, hash, key, None);
        },
    }
}

/// Taking one key out changes nothing for a key that differs from it.
pub proof fn lemma_without_key_other<K: PartialEq, V>(
    chain: Seq<Entry<K, V>>,
    hash: u64,
    key: K,
    other_hash: u64,
    other: K,
)
    requires
        vstd::laws_eq::obeys_eq::<K>(),
        other_hash != hash || !key.eq_spec(&other),
    ensures
        value_of(without_key(chain, hash, key), other_hash, other) == value_of(
            chain,
            other_hash,
            other,
        ),
{
    reveal(vstd::laws_eq::obeys_eq_spec_properties);
    lemma_not_found(chain, hash, key);
    lemma_not_found(chain, other_hash, other);
    let after = without_key(chain, hash, key);
    let found = lookup(chain, other_hash, other);
    match lookup(chain, hash, key) {
        None => {},
        Some(i) => {
            assert forall|j: int| 0 <= j < after.len() implies #[trigger] after[j] == (if j < i {
                chain[j]
            } else {
                chain[j + 1]
            }) by {}
            match found {
                Some(k) => {
                    if k == i {
                        assert(key.eq_spec(&chain[i].key));
                        assert(key.eq_spec(&other));
                    }
                    let place = if k < i {
                        k
                    } else {
                        k - 1
                    };
                    assert(after[place] == chain[k]);
                    assert(is_first(after, other_hash, other, place));
                    lemma_lookup(after, other_hash, other, Some(place));
                },
                None => {
                    assert(is_absent(after, other_hash, other));
                    lemma_lookup(after, other_hash, other, None);
                },
            }
        },
    }
}

/// Giving a key a value keeps the entries of a chain distinct.
pub proof fn lemma_with_value_distinct<K: PartialEq, V>(
    chain: Seq<Entry<K, V>>,
    hash: u64,
    key: K,
    value: V,
)
    requires
        is_distinct(chain),
    ensures
        is_distinct(with_value(chain, hash, key, value)),
{
    lemma_not_found(chain, hash, key);
    let after = with_value(chain, hash, key, value);
    assert forall|i: int, j: int| 0 <= i < j < after.len() implies !((#[trigger] after[j]).hash == (
    #[trigger] after[i]).hash && after[j].key.eq_spec(&after[i].key)) by {
        match lookup(chain, hash, key) {
            Some(_) => {
                assert(after[i].key == chain[i].key && after[i].hash == chain[i].hash);
                assert(after[j].key == chain[j].key && after[j].hash == chain[j].hash);
            },
            None => {
                assert(after[j] == chain[j - 1]);
                if i > 0 {
                    assert(after[i] == chain[i - 1]);
                }
            },
        }
    }
}

/// Taking a key out keeps the entries of a chain distinct.
pub proof fn lemma_without_key_distinct<K: PartialEq, V>(
    chain: Seq<Entry<K, V>>,
    hash: u64,
    key: K,
)
    requires
        is_distinct(chain),
    ensures
        is_distinct(without_key(chain, hash, key)),
{
    lemma_not_found(chain, hash, key);
}

/// The entry `i` is the first of the chain that has the hash and that `is_key` accepts.
pub open spec fn is_picked<K, V, F: Fn(&K) -> bool>(
    chain: Seq<Entry<K, V>>,
    hash: u64,
    is_key: F,
    i: int,
) -> bool {
    &&& 0 <= i < chain.len()
    &&& chain[i].hash == hash
    &&& is_key.ensures((&chain[i].key,), true)
    &&& forall|j: int|
        0 <= j < i && (#[trigger] chain[j]).hash == hash ==> is_key.ensures(
            (&chain[j].key,),
            false,
        )
}

/// The chain has no entry with the hash that `is_key` accepts.
pub open spec fn is_none_picked<K, V, F: Fn(&K) -> bool>(
    chain: Seq<Entry<K, V>>,
    hash: u64,
    is_key: F,
) -> bool {
    forall|j: int|
        0 <= j < chain.len() && (#[trigger] chain[j]).hash == hash ==> is_key.ensures(
            (&chain[j].key,),
            false,
        )
}

/// `is_key` can be asked about every key of the chain that has the hash.
pub open spec fn is_askable<K, V, F: Fn(&K) -> bool>(
    chain: Seq<Entry<K, V>>,
    hash: u64,
    is_key: F,
) -> bool {
    forall|j: int|
        0 <= j < chain.len() && (#[trigger] chain[j]).hash == hash ==> is_key.requires(
            (&chain[j].key,),
        )
}

/// `is_key` accepts the keys that equal `key`, and no others.
pub open spec fn is_test_for<K: PartialEq, F: Fn(&K) -> bool>(is_key: F, key: K) -> bool {
    &&& forall|k: K| #[trigger] is_key.requires((&k,))
    &&& K::obeys_eq_spec() ==> forall|k: K, same: bool| #[trigger]
        is_key.ensures((&k,), same) ==> same == k.eq_spec(&key)
}

/// What a test for a key picks is what [`lookup`] finds.
pub proof fn lemma_test_finds<K: PartialEq, V, F: Fn(&K) -> bool>(
    chain: Seq<Entry<K, V>>,
    hash: u64,
    key: K,
    is_key: F,
    found: Option<int>,
)
    requires
        K::obeys_eq_spec(),
        is_test_for(is_key, key),
        match found {
            Some(i) => is_picked(chain, hash, is_key, i),
            None => is_none_picked(chain, hash, is_key),
        },
    ensures
        lookup(chain, hash, key) == found,
{
    lemma_lookup(chain, hash, key, found);
}

impl<K, V> View for Slot<K, V> {
    type V = SlotView<K, V>;

    closed spec fn view(&self) -> SlotView<K, V> {
        SlotView { chain: self.chain@, mutex: self.mutex@ }
    }
}

impl<K, V> Slot<K, V> {
    /// An empty slot.
    fn new() -> (slot: Self)
        ensures
            slot@.chain == Seq::<Entry<K, V>>::empty(),
            slot@.mutex == MutexView::fresh(),
    {
        Slot { chain: Vec::new(), mutex: Mutex::new() }
    }

    /// Where the first entry is that has the hash and that `is_key` accepts.
    fn find_by<F: Fn(&K) -> bool>(&self, hash: u64, is_key: &F) -> (found: Option<usize>)
        requires
            is_askable(self@.chain, hash, *is_key),
        ensures
            match found {
                Some(i) => is_picked(self@.chain, hash, *is_key, i as int),
                None => is_none_picked(self@.chain, hash, *is_key),
            },
    {
        let mut i: usize = 0;
        while i < self.chain.len()
            invariant
                i <= self.chain@.len(),
                is_askable(self.chain@, hash, *is_key),
                forall|j: int|
                    0 <= j < i && (#[trigger] self.chain@[j]).hash == hash ==> is_key.ensures(
                        (&self.chain@[j].key,),
                        false,
                    ),
            decreases self.chain@.len() - i,
        {
            if self.chain[i].hash == hash && is_key(&self.chain[i].key) {
                return Some(i);
            }
            i += 1;
        }
        None
    }

    /// Gives the key the value. Returns the value before, if the key had one.
    fn insert(&mut self, key: K, value: V, hash: u64) -> (result: Option<V>) where K: Eq
        requires
            old(self)@.mutex.lock.is_free(),
        ensures
            final(self)@.mutex == old(self)@.mutex.claimed().released(),
            final(self)@.chain.len() == old(self)@.chain.len() + if result is Some {
                0int
            } else {
                1
            },
            forall|i: int|
                0 <= i < final(self)@.chain.len() ==> (#[trigger] final(self)@.chain[i]).hash
                    == if result is Some {
                    old(self)@.chain[i].hash
                } else if i == 0 {
                    hash
                } else {
                    old(self)@.chain[i - 1].hash
                },
            K::obeys_eq_spec() ==> {
                &&& result == value_of(old(self)@.chain, hash, key)
                &&& final(self)@.chain == with_value(old(self)@.chain, hash, key, value)
            },
    {
        self.mutex.lock_exclusive();
        let found = {
            let is_key = |k: &K| -> (same: bool)
                ensures
                    K::obeys_eq_spec() ==> same == k.eq_spec(&key),
                { *k == key };
            let found = self.find_by(hash, &is_key);
            proof {
                if K::obeys_eq_spec() {
                    lemma_test_finds(
                        self.chain@,
                        hash,
                        key,
                        is_key,
                        match found {
                            Some(i) => Some(i as int),
                            None => None,
                        },
                    );
                }
            }
            found
        };
        match found {
            Some(i) => {
                let mut value = value;
                std::mem::swap(&mut self.chain[i].value, &mut value);
                self.mutex.unlock_exclusive();
                Some(value)
            },
            None => {
                self.chain.insert(0, Entry { key, value, hash });
                proof {
                    assert(self.chain@ =~= seq![Entry { key, value, hash }] + old(self)@.chain);
                }
                self.mutex.unlock_exclusive();
                None
            },
        }
    }

    /// Takes the entry out that `is_key` accepts. Returns its value.
    fn remove_by<F: Fn(&K) -> bool>(&mut self, hash: u64, is_key: &F) -> (result: Option<V>)
        requires
            old(self)@.mutex.lock.is_free(),
            is_askable(old(self)@.chain, hash, *is_key),
        ensures
            final(self)@.mutex == old(self)@.mutex.claimed().released(),
            match result {
                Some(value) => exists|i: int|
                    {
                        &&& #[trigger] is_picked(old(self)@.chain, hash, *is_key, i)
                        &&& value == old(self)@.chain[i].value
                        &&& final(self)@.chain == old(self)@.chain.remove(i)
                    },
                None => {
                    &&& is_none_picked(old(self)@.chain, hash, *is_key)
                    &&& final(self)@.chain == old(self)@.chain
                },
            },
    {
        self.mutex.lock_exclusive();
        match self.find_by(hash, is_key) {
            Some(i) => {
                proof {
                    assert(is_picked(old(self)@.chain, hash, *is_key, i as int));
                }
                let entry = self.chain.remove(i);
                self.mutex.unlock_exclusive();
                Some(entry.value)
            },
            None => {
                self.mutex.unlock_exclusive();
                None
            },
        }
    }

    /// Whether `is_key` accepts an entry.
    fn contains_by<F: Fn(&K) -> bool>(&mut self, hash: u64, is_key: &F) -> (found: bool)
        requires
            !old(self)@.mutex.lock.writer,
            is_askable(old(self)@.chain, hash, *is_key),
        ensures
            final(self)@.mutex == old(self)@.mutex.entered().left(),
            final(self)@.chain == old(self)@.chain,
            found ==> exists|i: int| #[trigger] is_picked(old(self)@.chain, hash, *is_key, i),
            !found ==> is_none_picked(old(self)@.chain, hash, *is_key),
    {
        self.mutex.lock_shared();
        let found = self.find_by(hash, is_key);
        self.mutex.unlock_shared();
        match found {
            Some(i) => {
                proof {
                    assert(is_picked(old(self)@.chain, hash, *is_key, i as int));
                }
                true
            },
            None => false,
        }
    }

    /// Locks the slot for reading and gives the value of the entry that `is_key` accepts. The
    /// lock is given up at once where there is none.
    fn get_by<F: Fn(&K) -> bool>(&mut self, hash: u64, is_key: &F) -> (result: Option<
        WatchGuardRef<'_, V>,
    >)
        requires
            !old(self)@.mutex.lock.writer,
            is_askable(old(self)@.chain, hash, *is_key),
        ensures
            final(self)@.chain == old(self)@.chain,
            match result {
                Some(guard) => {
                    &&& guard.lock@ == old(self)@.mutex.entered().with_handle()
                    &&& final(self)@.mutex == final(guard.lock)@
                    &&& exists|i: int|
                        #[trigger] is_picked(old(self)@.chain, hash, *is_key, i) && *guard.data
                            == old(self)@.chain[i].value
                },
                None => {
                    &&& is_none_picked(old(self)@.chain, hash, *is_key)
                    &&& final(self)@.mutex == old(self)@.mutex.entered().left()
                },
            },
    {
        self.mutex.lock_shared();
        match self.find_by(hash, is_key) {
            Some(i) => {
                proof {
                    assert(is_picked(old(self)@.chain, hash, *is_key, i as int));
                }
                self.mutex.clone_ref();
                Some(WatchGuardRef::new(&self.chain[i].value, &mut self.mutex))
            },
            None => {
                self.mutex.unlock_shared();
                None
            },
        }
    }

    /// Locks the slot for writing and gives the value of the entry that `is_key` accepts. The
    /// lock is given up at once where there is none.
    fn get_mut_by<F: Fn(&K) -> bool>(&mut self, hash: u64, is_key: &F) -> (result: Option<
        WatchGuardMut<'_, V>,
    >)
        requires
            old(self)@.mutex.lock.is_free(),
            is_askable(old(self)@.chain, hash, *is_key),
        ensures
            match result {
                Some(guard) => {
                    &&& guard.lock@ == old(self)@.mutex.claimed().with_handle()
                    &&& final(self)@.mutex == final(guard.lock)@
                    &&& exists|i: int|
                        {
                            &&& #[trigger] is_picked(old(self)@.chain, hash, *is_key, i)
                            &&& *guard.data == old(self)@.chain[i].value
                            &&& final(self)@.chain == old(self)@.chain.update(
                                i,
                                Entry {
                                    key: old(self)@.chain[i].key,
                                    value: *final(guard.data),
                                    hash: old(self)@.chain[i].hash,
                                },
                            )
                        }
                },
                None => {
                    &&& is_none_picked(old(self)@.chain, hash, *is_key)
                    &&& final(self)@.chain == old(self)@.chain
                    &&& final(self)@.mutex == old(self)@.mutex.claimed().released()
                },
            },
    {
        self.mutex.lock_exclusive();
        match self.find_by(hash, is_key) {
            Some(i) => {
                proof {
                    assert(is_picked(old(self)@.chain, hash, *is_key, i as int));
                }
                self.mutex.clone_ref();
                Some(WatchGuardMut::new(&mut self.chain[i].value, &mut self.mutex))
            },
            None => {
                self.mutex.unlock_exclusive();
                None
            },
        }
    }

    /// Drops every entry.
    fn clear(&mut self)
        requires
            old(self)@.mutex.lock.is_free(),
        ensures
            final(self)@.chain == Seq::<Entry<K, V>>::empty(),
            final(self)@.mutex == old(self)@.mutex.claimed().released(),
    {
        self.mutex.lock_exclusive();
        self.chain = Vec::new();
        self.mutex.unlock_exclusive();
    }
}

/// The slots of a shard, and the count of its entries.
#[derive(Debug)]
pub struct Shard<K, V> {
    slots: Vec<Slot<K, V>>,
    capacity: usize,
    count: usize,
}

/// What a shard says.
pub struct ShardView<K, V> {
    /// The slots.
    pub slots: Seq<SlotView<K, V>>,
    /// How many entries there are.
    pub count: usize,
}

/// The slot of a hash among `capacity` slots.
pub open spec fn slot_of(hash: u64, capacity: nat) -> int {
    (hash as usize) as int % capacity as int
}

/// How many entries the slots hold.
pub open spec fn total<K, V>(slots: Seq<SlotView<K, V>>) -> nat
    decreases slots.len(),
{
    if slots.len() == 0 {
        0
    } else {
        total(slots.drop_last()) + slots.last().chain.len()
    }
}

/// The entries of the slots, slot by slot.
pub open spec fn entries<K, V>(slots: Seq<SlotView<K, V>>) -> Seq<Entry<K, V>>
    decreases slots.len(),
{
    if slots.len() == 0 {
        Seq::empty()
    } else {
        entries(slots.drop_last()) + slots.last().chain
    }
}

/// There are as many entries as [`total`] says.
pub proof fn lemma_entries_len<K, V>(slots: Seq<SlotView<K, V>>)
    ensures
        entries(slots).len() == total(slots),
    decreases slots.len(),
{
    if slots.len() > 0 {
        lemma_entries_len(slots.drop_last());
    }
}

pub proof fn lemma_total_update<K, V>(slots: Seq<SlotView<K, V>>, s: int, slot: SlotView<K, V>)
    requires
        0 <= s < slots.len(),
    ensures
        total(slots.update(s, slot)) == total(slots) - slots[s].chain.len() + slot.chain.len(),
        slots[s].chain.len() <= total(slots),
    decreases slots.len(),
{
    let after = slots.update(s, slot);
    if s == slots.len() - 1 {
        assert(after.drop_last() =~= slots.drop_last());
    } else {
        lemma_total_update(slots.drop_last(), s, slot);
        assert(after.drop_last() =~= slots.drop_last().update(s, slot));
    }
}

proof fn lemma_total_empty<K, V>(slots: Seq<SlotView<K, V>>)
    requires
        forall|s: int| 0 <= s < slots.len() ==> (#[trigger] slots[s]).chain.len() == 0,
    ensures
        total(slots) == 0,
    decreases slots.len(),
{
    if slots.len() > 0 {
        lemma_total_empty(slots.drop_last());
    }
}

impl<K, V> ShardView<K, V> {
    /// The slot of a hash.
    pub open spec fn slot(self, hash: u64) -> SlotView<K, V> {
        self.slots[slot_of(hash, self.slots.len())]
    }

    /// The shard with another slot in the place of a hash.
    pub open spec fn with_slot(self, hash: u64, slot: SlotView<K, V>) -> Self {
        ShardView {
            slots: self.slots.update(slot_of(hash, self.slots.len()), slot),
            count: (self.count + slot.chain.len() - self.slot(hash).chain.len()) as usize,
        }
    }

    /// The slots are counted right, and every entry is in the slot of its hash.
    pub open spec fn is_ordered(self) -> bool {
        &&& self.slots.len() > 0
        &&& self.count == total(self.slots)
        &&& forall|s: int, i: int|
            #![trigger self.slots[s].chain[i]]
            0 <= s < self.slots.len() && 0 <= i < self.slots[s].chain.len() ==> slot_of(
                self.slots[s].chain[i].hash,
                self.slots.len(),
            ) == s
    }

    /// The shard after a thread locked each slot and dropped its entries.
    pub open spec fn cleared(self) -> Self {
        ShardView {
            slots: Seq::new(
                self.slots.len(),
                |s: int| SlotView {
                    chain: Seq::<Entry<K, V>>::empty(),
                    mutex: self.slots[s].mutex.claimed().released(),
                },
            ),
            count: 0,
        }
    }

    /// The shard after a thread read each slot.
    pub open spec fn read_through(self) -> Self {
        ShardView {
            slots: Seq::new(
                self.slots.len(),
                |s: int| SlotView {
                    chain: self.slots[s].chain,
                    mutex: self.slots[s].mutex.entered().left(),
                },
            ),
            ..self
        }
    }

    /// Nobody holds a slot.
    pub open spec fn is_free(self) -> bool {
        forall|s: int|
            0 <= s < self.slots.len() ==> (#[trigger] self.slots[s]).mutex.lock.is_free()
    }
}

impl<K: PartialEq, V> ShardView<K, V> {
    /// No slot has two entries of the same key.
    pub open spec fn is_distinct(self) -> bool {
        forall|s: int| 0 <= s < self.slots.len() ==> is_distinct((#[trigger] self.slots[s]).chain)
    }
}

impl<K, V> View for Shard<K, V> {
    type V = ShardView<K, V>;

    closed spec fn view(&self) -> ShardView<K, V> {
        ShardView {
            slots: Seq::new(self.slots@.len(), |s: int| self.slots@[s]@),
            count: self.count,
        }
    }
}

impl<K, V> Shard<K, V> {
    /// The shard has as many slots as its capacity says, and is ordered.
    pub closed spec fn wf(self) -> bool {
        &&& self.slots@.len() == self.capacity
        &&& self@.is_ordered()
    }

    /// What well-formedness says about the view.
    pub proof fn lemma_wf(self)
        requires
            self.wf(),
        ensures
            self@.is_ordered(),
            0 < self@.slots.len() <= usize::MAX,
    {
    }

    /// A shard of `capacity` empty slots.
    pub fn new(capacity: usize) -> (shard: Self)
        requires
            capacity > 0,
        ensures
            shard.wf(),
            shard@.count == 0,
            shard@.slots.len() == capacity,
            forall|s: int|
                0 <= s < capacity ==> {
                    &&& (#[trigger] shard@.slots[s]).chain == Seq::<Entry<K, V>>::empty()
                    &&& shard@.slots[s].mutex == MutexView::fresh()
                },
    {
        let mut slots: Vec<Slot<K, V>> = Vec::new();
        while slots.len() < capacity
            invariant
                slots@.len() <= capacity,
                forall|s: int|
                    0 <= s < slots@.len() ==> {
                        &&& (#[trigger] slots@[s]@).chain == Seq::<Entry<K, V>>::empty()
                        &&& slots@[s]@.mutex == MutexView::fresh()
                    },
            decreases capacity - slots@.len(),
        {
            slots.push(Slot::new());
        }
        let shard = Shard { slots, capacity, count: 0 };
        proof {
            assert forall|s: int| 0 <= s < capacity implies {
                &&& (#[trigger] shard@.slots[s]).chain == Seq::<Entry<K, V>>::empty()
                &&& shard@.slots[s].mutex == MutexView::fresh()
            } by {
                assert(slots@[s]@.chain == Seq::<Entry<K, V>>::empty());
            }
            lemma_total_empty(shard@.slots);
        }
        shard
    }

    /// The number of the slot of a hash.
    fn get_slot(&self, hash: u64) -> (s: usize)
        requires
            self.wf(),
        ensures
            s == slot_of(hash, self@.slots.len()),
            s < self@.slots.len(),
    {
        #[verifier::truncate]
        let low: usize = hash as usize;
        low % self.capacity
    }

    /// How many entries there are.
    pub fn len(&self) -> (len: usize)
        ensures
            len == self@.count,
    {
        self.count
    }

    /// How many slots there are.
    pub fn capacity(&self) -> (capacity: usize)
        requires
            self.wf(),
        ensures
            capacity == self@.slots.len(),
    {
        self.capacity
    }

    /// Only the slot of a hash differs from `before`, and the count with it. What is left of
    /// the old entries and what is new there has that hash.
    proof fn lemma_slot_changed(self, before: Self, hash: u64, slot: SlotView<K, V>)
        requires
            before.wf(),
            self.capacity == before.capacity,
            self.slots@.len() == before.slots@.len(),
            forall|s: int|
                0 <= s < before.slots@.len() && s != slot_of(hash, before@.slots.len())
                    ==> #[trigger] self.slots@[s] == before.slots@[s],
            self.slots@[slot_of(hash, before@.slots.len())]@ == slot,
            self.count == before.count + slot.chain.len() - before@.slot(hash).chain.len(),
            forall|i: int|
                0 <= i < slot.chain.len() ==> slot_of(
                    (#[trigger] slot.chain[i]).hash,
                    before@.slots.len(),
                ) == slot_of(hash, before@.slots.len()),
        ensures
            self.wf(),
            self@ == before@.with_slot(hash, slot),
    {
        let s = slot_of(hash, before@.slots.len());
        lemma_total_update(before@.slots, s, slot);
        assert(self@.slots =~= before@.slots.update(s, slot));
        assert forall|t: int, i: int|
            #![trigger self@.slots[t].chain[i]]
            0 <= t < self@.slots.len() && 0 <= i < self@.slots[t].chain.len() implies slot_of(
            self@.slots[t].chain[i].hash,
            self@.slots.len(),
        ) == t by {
            if t != s {
                let entry = before@.slots[t].chain[i];
            } else {
                let entry = slot.chain[i];
            }
        }
    }

    /// Takes the entry out that has the hash and that `is_key` accepts. Returns its value.
    pub fn remove_by<F: Fn(&K) -> bool>(&mut self, hash: u64, is_key: &F) -> (result: Option<V>)
        requires
            old(self).wf(),
            old(self)@.slot(hash).mutex.lock.is_free(),
            is_askable(old(self)@.slot(hash).chain, hash, *is_key),
        ensures
            final(self).wf(),
            ({
                let slot = old(self)@.slot(hash);
                let mutex = slot.mutex.claimed().released();
                match result {
                    Some(value) => exists|i: int|
                        {
                            &&& #[trigger] is_picked(slot.chain, hash, *is_key, i)
                            &&& value == slot.chain[i].value
                            &&& final(self)@ == old(self)@.with_slot(
                                hash,
                                SlotView { chain: slot.chain.remove(i), mutex },
                            )
                        },
                    None => {
                        &&& is_none_picked(slot.chain, hash, *is_key)
                        &&& final(self)@ == old(self)@.with_slot(
                            hash,
                            SlotView { chain: slot.chain, mutex },
                        )
                    },
                }
            }),
    {
        let s: usize = self.get_slot(hash);
        let ghost slot = self@.slot(hash);
        proof {
            lemma_total_update(self@.slots, s as int, slot);
        }
        let result = self.slots[s].remove_by(hash, is_key);
        if result.is_some() {
            self.count = self.count - 1;
        }
        proof {
            let after = self.slots@[s as int]@;
            assert forall|i: int| 0 <= i < after.chain.len() implies slot_of(
                (#[trigger] after.chain[i]).hash,
                old(self)@.slots.len(),
            ) == s by {
                let at = old(self)@.slots[s as int].chain[i];
                let next = old(self)@.slots[s as int].chain[i + 1];
            }
            self.lemma_slot_changed(*old(self), hash, after);
        }
        result
    }

    /// Whether an entry has the hash and `is_key` accepts it.
    pub fn contains_by<F: Fn(&K) -> bool>(&mut self, hash: u64, is_key: &F) -> (found: bool)
        requires
            old(self).wf(),
            !old(self)@.slot(hash).mutex.lock.writer,
            is_askable(old(self)@.slot(hash).chain, hash, *is_key),
        ensures
            final(self).wf(),
            ({
                let slot = old(self)@.slot(hash);
                &&& found ==> exists|i: int| #[trigger] is_picked(slot.chain, hash, *is_key, i)
                &&& !found ==> is_none_picked(slot.chain, hash, *is_key)
                &&& final(self)@ == old(self)@.with_slot(
                    hash,
                    SlotView { chain: slot.chain, mutex: slot.mutex.entered().left() },
                )
            }),
    {
        let s: usize = self.get_slot(hash);
        let found = self.slots[s].contains_by(hash, is_key);
        proof {
            let after = self.slots@[s as int]@;
            assert forall|i: int| 0 <= i < after.chain.len() implies slot_of(
                (#[trigger] after.chain[i]).hash,
                old(self)@.slots.len(),
            ) == s by {
                let at = old(self)@.slots[s as int].chain[i];
            }
            self.lemma_slot_changed(*old(self), hash, after);
        }
        found
    }

    /// Locks the slot of the hash for reading and gives the value of the entry that `is_key`
    /// accepts.
    pub fn get_by<F: Fn(&K) -> bool>(&mut self, hash: u64, is_key: &F) -> (result: Option<
        WatchGuardRef<'_, V>,
    >)
        requires
            old(self).wf(),
            !old(self)@.slot(hash).mutex.lock.writer,
            is_askable(old(self)@.slot(hash).chain, hash, *is_key),
        ensures
            final(self).wf(),
            ({
                let slot = old(self)@.slot(hash);
                match result {
                    Some(guard) => {
                        &&& guard.lock@ == slot.mutex.entered().with_handle()
                        &&& final(self)@ == old(self)@.with_slot(
                            hash,
                            SlotView { chain: slot.chain, mutex: final(guard.lock)@ },
                        )
                        &&& exists|i: int| #[trigger]
                            is_picked(slot.chain, hash, *is_key, i) && *guard.data
                                == slot.chain[i].value
                    },
                    None => {
                        &&& is_none_picked(slot.chain, hash, *is_key)
                        &&& final(self)@ == old(self)@.with_slot(
                            hash,
                            SlotView { chain: slot.chain, mutex: slot.mutex.entered().left() },
                        )
                    },
                }
            }),
    {
        let s: usize = self.get_slot(hash);
        proof {
            self.lemma_rehashed(hash);
        }
        self.slots[s].get_by(hash, is_key)
    }

    /// Only the slot of a hash differs from `before`, and there the entries have the hashes
    /// that they had.
    spec fn is_rehashed(self, before: Self, hash: u64) -> bool {
        let s = slot_of(hash, before@.slots.len());
        &&& self.capacity == before.capacity
        &&& self.count == before.count
        &&& self.slots@.len() == before.slots@.len()
        &&& forall|t: int|
            0 <= t < before.slots@.len() && t != s ==> #[trigger] self.slots@[t]
                == before.slots@[t]
        &&& self.slots@[s]@.chain.len() == before.slots@[s]@.chain.len()
        &&& forall|i: int|
            0 <= i < self.slots@[s]@.chain.len() ==> (#[trigger] self.slots@[s]@.chain[i]).hash
                == before.slots@[s]@.chain[i].hash
    }

    proof fn lemma_rehashed(self, hash: u64)
        requires
            self.wf(),
        ensures
            forall|after: Self|
                #![trigger after.wf()]
                #![trigger after.view()]
                after.is_rehashed(self, hash) ==> {
                    &&& after.wf()
                    &&& after@ == self@.with_slot(
                        hash,
                        after.slots@[slot_of(hash, self@.slots.len())]@,
                    )
                },
    {
        let s = slot_of(hash, self@.slots.len());
        assert forall|after: Self|
            #![trigger after.wf()]
            #![trigger after.view()]
            after.is_rehashed(self, hash) implies {
            &&& after.wf()
            &&& after@ == self@.with_slot(hash, after.slots@[s]@)
        } by {
            let slot = after.slots@[s]@;
            assert forall|i: int| 0 <= i < slot.chain.len() implies slot_of(
                (#[trigger] slot.chain[i]).hash,
                self@.slots.len(),
            ) == s by {
                let at = self@.slots[s].chain[i];
            }
            after.lemma_slot_changed(self, hash, slot);
        }
    }

    /// Locks the slot of the hash for writing and gives the value of the entry that `is_key`
    /// accepts.
    pub fn get_mut_by<F: Fn(&K) -> bool>(&mut self, hash: u64, is_key: &F) -> (result: Option<
        WatchGuardMut<'_, V>,
    >)
        requires
            old(self).wf(),
            old(self)@.slot(hash).mutex.lock.is_free(),
            is_askable(old(self)@.slot(hash).chain, hash, *is_key),
        ensures
            final(self).wf(),
            ({
                let slot = old(self)@.slot(hash);
                match result {
                    Some(guard) => {
                        &&& guard.lock@ == slot.mutex.claimed().with_handle()
                        &&& exists|i: int|
                            {
                                &&& #[trigger] is_picked(slot.chain, hash, *is_key, i)
                                &&& *guard.data == slot.chain[i].value
                                &&& final(self)@ == old(self)@.with_slot(
                                    hash,
                                    SlotView {
                                        chain: slot.chain.update(
                                            i,
                                            Entry {
                                                key: slot.chain[i].key,
                                                value: *final(guard.data),
                                                hash: slot.chain[i].hash,
                                            },
                                        ),
                                        mutex: final(guard.lock)@,
                                    },
                                )
                            }
                    },
                    None => {
                        &&& is_none_picked(slot.chain, hash, *is_key)
                        &&& final(self)@ == old(self)@.with_slot(
                            hash,
                            SlotView { chain: slot.chain, mutex: slot.mutex.claimed().released() },
                        )
                    },
                }
            }),
    {
        let s: usize = self.get_slot(hash);
        proof {
            self.lemma_rehashed(hash);
        }
        self.slots[s].get_mut_by(hash, is_key)
    }

    /// Drops every entry.
    pub fn clear(&mut self)
        requires
            old(self).wf(),
            old(self)@.is_free(),
        ensures
            final(self).wf(),
            final(self)@ == old(self)@.cleared(),
    {
        let mut s: usize = 0;
        while s < self.slots.len()
            invariant
                s <= self.slots@.len(),
                self.slots@.len() == old(self).slots@.len(),
                self.capacity == old(self).capacity,
                old(self)@.is_free(),
                forall|t: int|
                    0 <= t < self.slots@.len() ==> #[trigger] self.slots@[t]@ == if t < s {
                        SlotView {
                            chain: Seq::<Entry<K, V>>::empty(),
                            mutex: old(self)@.slots[t].mutex.claimed().released(),
                        }
                    } else {
                        old(self)@.slots[t]
                    },
            decreases self.slots@.len() - s,
        {
            proof {
                assert(self.slots@[s as int]@ == old(self)@.slots[s as int]);
            }
            self.slots[s].clear();
            s += 1;
        }
        self.count = 0;
        proof {
            assert forall|t: int| 0 <= t < self@.slots.len() implies #[trigger] self@.slots[t]
                == (SlotView {
                chain: Seq::<Entry<K, V>>::empty(),
                mutex: old(self)@.slots[t].mutex.claimed().released(),
            }) by {
                assert(self@.slots[t] == self.slots@[t]@);
            }
            assert(self@.slots =~= old(self)@.cleared().slots);
            lemma_total_empty(self@.slots);
        }
    }
}

impl<K: Eq, V> Shard<K, V> {
    /// Gives the key the value. Returns the value before, if the key had one.
    pub fn insert(&mut self, key: K, value: V, hash: u64) -> (result: Option<V>)
        requires
            old(self).wf(),
            old(self)@.count < usize::MAX,
            old(self)@.slot(hash).mutex.lock.is_free(),
        ensures
            final(self).wf(),
            result is Some ==> final(self)@.count == old(self)@.count,
            result is None ==> final(self)@.count == old(self)@.count + 1,
            final(self)@ == old(self)@.with_slot(
                hash,
                SlotView {
                    chain: final(self)@.slot(hash).chain,
                    mutex: old(self)@.slot(hash).mutex.claimed().released(),
                },
            ),
            final(self)@.slot(hash).chain.len() == old(self)@.slot(hash).chain.len() + if result
                is Some {
                0int
            } else {
                1
            },
            forall|i: int|
                0 <= i < final(self)@.slot(hash).chain.len() ==> (#[trigger] final(self)@.slot(
                    hash,
                ).chain[i]).hash == if result is Some {
                    old(self)@.slot(hash).chain[i].hash
                } else if i == 0 {
                    hash
                } else {
                    old(self)@.slot(hash).chain[i - 1].hash
                },
            K::obeys_eq_spec() ==> {
                let chain = old(self)@.slot(hash).chain;
                &&& result == value_of(chain, hash, key)
                &&& final(self)@.slot(hash).chain == with_value(chain, hash, key, value)
                &&& old(self)@.is_distinct() ==> final(self)@.is_distinct()
            },
    {
        let s: usize = self.get_slot(hash);
        let ghost slot = self@.slot(hash);
        let result = self.slots[s].insert(key, value, hash);
        if result.is_none() {
            self.count = self.count + 1;
        }
        proof {
            let after = self.slots@[s as int]@;
            assert forall|i: int| 0 <= i < after.chain.len() implies slot_of(
                (#[trigger] after.chain[i]).hash,
                old(self)@.slots.len(),
            ) == s by {
                let at = old(self)@.slots[s as int].chain[i];
                let before = old(self)@.slots[s as int].chain[i - 1];
            }
            self.lemma_slot_changed(*old(self), hash, after);
            if K::obeys_eq_spec() && old(self)@.is_distinct() {
                assert(is_distinct(old(self)@.slots[s as int].chain));
                lemma_with_value_distinct(slot.chain, hash, key, value);
            }
        }
        result
    }
}

/// The pair is made of clones of an entry's key and value, each converted.
pub open spec fn is_pair_of<K, V, KC, VC>(entry: Entry<K, V>, pair: (KC, VC)) -> bool where
    K: Clone + Into<KC>,
    V: Clone + Into<VC>,
 {
    &&& exists|key: K| #[trigger]
        cloned(entry.key, key) && (<K as IntoSpec<KC>>::obeys_into_spec() ==> pair.0
            == <K as IntoSpec<KC>>::into_spec(key))
    &&& exists|value: V| #[trigger]
        cloned(entry.value, value) && (<V as IntoSpec<VC>>::obeys_into_spec() ==> pair.1
            == <V as IntoSpec<VC>>::into_spec(value))
}

/// The pairs are made of the entries, one for one and in their order.
pub open spec fn are_pairs_of<K, V, KC, VC>(
    all: Seq<Entry<K, V>>,
    pairs: Seq<(KC, VC)>,
) -> bool where K: Clone + Into<KC>, V: Clone + Into<VC> {
    &&& pairs.len() == all.len()
    &&& forall|i: int| 0 <= i < all.len() ==> is_pair_of(all[i], #[trigger] pairs[i])
}

impl<K, V> Slot<K, V> {
    /// Appends clones of the entries, converted, while the slot is locked for reading.
    fn collect<KC, VC>(&mut self, out: &mut Vec<(KC, VC)>) where
        K: Clone + Into<KC>,
        V: Clone + Into<VC>,

        requires
            !old(self)@.mutex.lock.writer,
        ensures
            final(self)@.chain == old(self)@.chain,
            final(self)@.mutex == old(self)@.mutex.entered().left(),
            forall|all: Seq<Entry<K, V>>| #[trigger]
                are_pairs_of(all, old(out)@) ==> are_pairs_of(
                    all + old(self)@.chain,
                    final(out)@,
                ),
    {
        self.mutex.lock_shared();
        let mut i: usize = 0;
        while i < self.chain.len()
            invariant
                i <= self.chain@.len(),
                out@.len() == old(out)@.len() + i,
                forall|j: int| 0 <= j < old(out)@.len() ==> #[trigger] out@[j] == old(out)@[j],
                forall|j: int|
                    old(out)@.len() <= j < out@.len() ==> is_pair_of(
                        self.chain@[j - old(out)@.len()],
                        #[trigger] out@[j],
                    ),
            decreases self.chain@.len() - i,
        {
            let ghost before = out@;
            let key = self.chain[i].key.clone();
            let value = self.chain[i].value.clone();
            let ghost (k, v) = (key, value);
            let pair: (KC, VC) = (key.into(), value.into());
            proof {
                assert(cloned(self.chain@[i as int].key, k));
                assert(cloned(self.chain@[i as int].value, v));
                assert(is_pair_of(self.chain@[i as int], pair));
            }
            out.push(pair);
            i += 1;
        }
        self.mutex.unlock_shared();
        proof {
            assert forall|all: Seq<Entry<K, V>>| #[trigger]
                are_pairs_of(all, old(out)@) implies are_pairs_of(
                all + old(self)@.chain,
                out@,
            ) by {
                assert forall|j: int| 0 <= j < out@.len() implies is_pair_of(
                    (all + old(self)@.chain)[j],
                    #[trigger] out@[j],
                ) by {
                    if j < all.len() {
                        assert(out@[j] == old(out)@[j]);
                    }
                }
            }
        }
    }
}

impl<K, V> Shard<K, V> {
    /// Appends clones of the entries, converted, slot by slot.
    pub fn collect<KC, VC>(&mut self, out: &mut Vec<(KC, VC)>) where
        K: Clone + Into<KC>,
        V: Clone + Into<VC>,

        requires
            old(self).wf(),
            forall|s: int|
                0 <= s < old(self)@.slots.len() ==> !(
                #[trigger] old(self)@.slots[s]).mutex.lock.writer,
        ensures
            final(self).wf(),
            final(self)@ == old(self)@.read_through(),
            forall|all: Seq<Entry<K, V>>| #[trigger]
                are_pairs_of(all, old(out)@) ==> are_pairs_of(
                    all + entries(old(self)@.slots),
                    final(out)@,
                ),
    {
        let mut s: usize = 0;
        proof {
            assert(old(self)@.slots.take(0) =~= Seq::<SlotView<K, V>>::empty());
            assert forall|all: Seq<Entry<K, V>>| #[trigger]
                are_pairs_of(all, old(out)@) implies are_pairs_of(
                all + entries(old(self)@.slots.take(0)),
                out@,
            ) by {
                assert(all + Seq::<Entry<K, V>>::empty() =~= all);
            }
        }
        while s < self.slots.len()
            invariant
                s <= self.slots@.len(),
                old(self).wf(),
                forall|t: int|
                    0 <= t < old(self)@.slots.len() ==> !(
                    #[trigger] old(self)@.slots[t]).mutex.lock.writer,
                self.capacity == old(self).capacity,
                self.count == old(self).count,
                self.slots@.len() == old(self).slots@.len(),
                forall|t: int|
                    0 <= t < self.slots@.len() ==> {
                        &&& (#[trigger] self.slots@[t])@.chain == old(self)@.slots[t].chain
                        &&& self.slots@[t]@.mutex == if t < s {
                            old(self)@.slots[t].mutex.entered().left()
                        } else {
                            old(self)@.slots[t].mutex
                        }
                    },
                forall|all: Seq<Entry<K, V>>| #[trigger]
                    are_pairs_of(all, old(out)@) ==> are_pairs_of(
                        all + entries(old(self)@.slots.take(s as int)),
                        out@,
                    ),
            decreases self.slots@.len() - s,
        {
            let ghost before = out@;
            proof {
                let slot = old(self)@.slots[s as int];
                let here = self.slots@[s as int];
            }
            self.slots[s].collect(out);
            proof {
                let done = entries(old(self)@.slots.take(s as int));
                let chain = old(self)@.slots[s as int].chain;
                assert(old(self)@.slots.take(s + 1).drop_last() =~= old(self)@.slots.take(s as int));
                assert forall|all: Seq<Entry<K, V>>| #[trigger]
                    are_pairs_of(all, old(out)@) implies are_pairs_of(
                    all + entries(old(self)@.slots.take(s + 1)),
                    out@,
                ) by {
                    assert(are_pairs_of(all + done, before));
                    assert(all + done + chain =~= all + (done + chain));
                }
            }
            s += 1;
        }
        proof {
            assert(old(self)@.slots.take(s as int) =~= old(self)@.slots);
            assert forall|t: int| 0 <= t < self@.slots.len() implies #[trigger] self@.slots[t]
                == old(self)@.read_through().slots[t] by {
                let slot = self.slots@[t];
            }
            assert(self@.slots =~= old(self)@.read_through().slots);
            lemma_total_same(old(self)@.slots, self@.slots);
            assert forall|t: int, i: int|
                #![trigger self@.slots[t].chain[i]]
                0 <= t < self@.slots.len() && 0 <= i < self@.slots[t].chain.len() implies slot_of(
                self@.slots[t].chain[i].hash,
                self@.slots.len(),
            ) == t by {
                let entry = old(self)@.slots[t].chain[i];
            }
        }
    }
}

proof fn lemma_total_same<K, V>(before: Seq<SlotView<K, V>>, after: Seq<SlotView<K, V>>)
    requires
        before.len() == after.len(),
        forall|s: int| 0 <= s < before.len() ==> (#[trigger] after[s]).chain == before[s].chain,
    ensures
        total(after) == total(before),
        entries(after) == entries(before),
    decreases before.len(),
{
    if before.len() > 0 {
        assert forall|s: int| 0 <= s < before.len() - 1 implies (
        #[trigger] after.drop_last()[s]).chain == before.drop_last()[s].chain by {
            let slot = after[s];
        }
        assert(after.last().chain == before.last().chain);
        lemma_total_same(before.drop_last(), after.drop_last());
    }
}

/// The entries of slots are those of their chains, one slot after the other: the entries of
/// two rows of slots put together are those of the first and behind them those of the second,
/// one slot has the entries of its chain, and no slot has none. So are the lengths.
pub proof fn lemma_entries_in_turn<K, V>(
    a: Seq<SlotView<K, V>>,
    b: Seq<SlotView<K, V>>,
    slot: SlotView<K, V>,
)
    ensures
        entries(Seq::<SlotView<K, V>>::empty()) == Seq::<Entry<K, V>>::empty(),
        entries(seq![slot]) == slot.chain,
        entries(a + b) == entries(a) + entries(b),
        total(Seq::<SlotView<K, V>>::empty()) == 0,
        total(seq![slot]) == slot.chain.len(),
        total(a + b) == total(a) + total(b),
    decreases b.len(),
{
    let one = seq![slot];
    assert(one.drop_last() =~= Seq::<SlotView<K, V>>::empty());
    assert(entries(one.drop_last()) + slot.chain =~= slot.chain);
    if b.len() == 0 {
        assert(a + b =~= a);
        assert(entries(a) + entries(b) =~= entries(a));
    } else {
        lemma_entries_in_turn(a, b.drop_last(), slot);
        assert((a + b).drop_last() =~= a + b.drop_last());
        assert((a + b).last() == b.last());
        assert(entries(a + b) =~= entries(a) + entries(b));
    }
}

/// Where an entry of a chain stands among the entries of all slots: behind those of the slots
/// before its own, as far as it stands in its chain.
pub proof fn lemma_entry_position<K, V>(slots: Seq<SlotView<K, V>>, s: int, i: int)
    requires
        0 <= s < slots.len(),
        0 <= i < slots[s].chain.len(),
    ensures
        entries(slots.take(s)).len() + i < entries(slots).len(),
        entries(slots)[entries(slots.take(s)).len() + i] == slots[s].chain[i],
{
    let before = slots.take(s);
    let own = seq![slots[s]];
    let behind = slots.skip(s + 1);
    assert(slots =~= before + own + behind);
    lemma_entries_in_turn(before + own, behind, slots[s]);
    lemma_entries_in_turn(before, own, slots[s]);
}

/// Every entry that is listed stands in a chain.
pub proof fn lemma_entry_origin<K, V>(slots: Seq<SlotView<K, V>>, j: int) -> (at: (int, int))
    requires
        0 <= j < entries(slots).len(),
    ensures
        0 <= at.0 < slots.len(),
        0 <= at.1 < slots[at.0].chain.len(),
        slots[at.0].chain[at.1] == entries(slots)[j],
        j == entries(slots.take(at.0)).len() + at.1,
    decreases slots.len(),
{
    let rest = slots.drop_last();
    let n = rest.len() as int;
    assert(slots =~= rest + seq![slots.last()]);
    lemma_entries_in_turn(rest, seq![slots.last()], slots.last());
    if j < entries(rest).len() {
        let at = lemma_entry_origin(rest, j);
        assert(rest.take(at.0) =~= slots.take(at.0));
        at
    } else {
        assert(slots.take(n) =~= rest);
        (n, j - entries(rest).len())
    }
}

/// What a key has in a chain: the value of the first entry with the key's hash and an equal
/// key, and none where there is no such entry.
pub proof fn lemma_value_is_first_match<K: PartialEq, V>(
    chain: Seq<Entry<K, V>>,
    hash: u64,
    key: K,
)
    ensures
        match value_of(chain, hash, key) {
            Some(value) => exists|i: int|
                {
                    &&& 0 <= i < chain.len()
                    &&& (#[trigger] chain[i]).hash == hash
                    &&& chain[i].key.eq_spec(&key)
                    &&& chain[i].value == value
                    &&& forall|j: int|
                        0 <= j < i ==> (#[trigger] chain[j]).hash != hash || !chain[j].key.eq_spec(
                            &key,
                        )
                },
            None => forall|j: int|
                0 <= j < chain.len() ==> (#[trigger] chain[j]).hash != hash
                    || !chain[j].key.eq_spec(&key),
        },
{
    lemma_not_found(chain, hash, key);
    match lookup(chain, hash, key) {
        Some(i) => {
            assert(chain[i].value == value_of(chain, hash, key)->0);
        },
        None => {},
    }
}

/// What giving a key a value does to a chain. A key that has none is put in front, and the
/// chain stays behind it. Of a key that has one, the value of the first entry changes, and
/// nothing else.
pub proof fn lemma_with_value_shape<K: PartialEq, V>(
    chain: Seq<Entry<K, V>>,
    hash: u64,
    key: K,
    value: V,
)
    ensures
        ({
            let after = with_value(chain, hash, key, value);
            &&& value_of(chain, hash, key) is None ==> {
                &&& after.len() == chain.len() + 1
                &&& after[0].key == key && after[0].value == value && after[0].hash == hash
                &&& after.skip(1) == chain
            }
            &&& value_of(chain, hash, key) is Some ==> {
                &&& after.len() == chain.len()
                &&& exists|i: int|
                    {
                        &&& 0 <= i < chain.len()
                        &&& (#[trigger] chain[i]).hash == hash && chain[i].key.eq_spec(&key)
                        &&& after[i].key == chain[i].key && after[i].hash == hash
                        &&& after[i].value == value
                        &&& forall|j: int|
                            0 <= j < chain.len() && j != i ==> #[trigger] after[j] == chain[j]
                        &&& forall|j: int|
                            0 <= j < i ==> (#[trigger] chain[j]).hash != hash
                                || !chain[j].key.eq_spec(&key)
                    }
            }
        }),
{
    lemma_not_found(chain, hash, key);
    let after = with_value(chain, hash, key, value);
    match lookup(chain, hash, key) {
        Some(i) => {
            assert(chain[i].key.eq_spec(&key));
        },
        None => {
            assert(after.skip(1) =~= chain);
        },
    }
}

/// What taking a key out does to a chain. A key that has no value leaves the chain as it is. Of
/// a key that has one, the first entry goes, and the others stay in their order.
pub proof fn lemma_without_key_shape<K: PartialEq, V>(
    chain: Seq<Entry<K, V>>,
    hash: u64,
    key: K,
)
    ensures
        ({
            let after = without_key(chain, hash, key);
            &&& value_of(chain, hash, key) is None ==> after == chain
            &&& value_of(chain, hash, key) is Some ==> exists|i: int|
                {
                    &&& 0 <= i < chain.len()
                    &&& (#[trigger] chain[i]).hash == hash && chain[i].key.eq_spec(&key)
                    &&& after == chain.take(i) + chain.skip(i + 1)
                    &&& forall|j: int|
                        0 <= j < i ==> (#[trigger] chain[j]).hash != hash || !chain[j].key.eq_spec(
                            &key,
                        )
                }
        }),
{
    lemma_not_found(chain, hash, key);
    match lookup(chain, hash, key) {
        Some(i) => {
            assert(chain[i].key.eq_spec(&key));
            assert(without_key(chain, hash, key) =~= chain.take(i) + chain.skip(i + 1));
        },
        None => {},
    }
}

/// The slot of a hash is one of the slots; hashes that lie a whole number of rounds apart share
/// a slot, and a hash below the number of slots names the slot of that number.
pub proof fn lemma_slot_of_hash(hash: u64, rounds: nat, capacity: nat)
    requires
        0 < capacity,
        hash + rounds * capacity <= u64::MAX,
        hash + rounds * capacity <= usize::MAX,
    ensures
        0 <= slot_of(hash, capacity) < capacity,
        slot_of((hash + rounds * capacity) as u64, capacity) == slot_of(hash, capacity),
        hash < capacity ==> slot_of(hash, capacity) == hash,
{
    let n = capacity as int;
    assert(0 <= rounds * capacity) by (nonlinear_arith);
    vstd::arithmetic::div_mod::lemma_mod_bound(hash as int, n);
    vstd::arithmetic::div_mod::lemma_mod_multiples_vanish(rounds as int, hash as int, n);
    assert(n * rounds + hash == hash + rounds * capacity) by (nonlinear_arith)
        requires
            n == capacity,
    ;
    if hash < capacity {
        vstd::arithmetic::div_mod::lemma_small_mod(hash as nat, capacity);
    }
}

/// What a listed pair is of an entry whose key and value are cloned as they are: the key and the
/// value, converted.
pub proof fn lemma_pair_of_entry<K, V, KC, VC>(entry: Entry<K, V>, pair: (KC, VC)) where
    K: Clone + Into<KC>,
    V: Clone + Into<VC>,

    requires
        is_pair_of(entry, pair),
    ensures
        (forall|key: K| #[trigger] cloned(entry.key, key) ==> key == entry.key)
            && <K as IntoSpec<KC>>::obeys_into_spec() ==> pair.0 == <K as IntoSpec<
            KC,
        >>::into_spec(entry.key),
        (forall|value: V| #[trigger] cloned(entry.value, value) ==> value == entry.value)
            && <V as IntoSpec<VC>>::obeys_into_spec() ==> pair.1 == <V as IntoSpec<
            VC,
        >>::into_spec(entry.value),
{
}

/// A listing has one pair for each entry, in the order of the entries.
pub proof fn lemma_pairs_in_order<K, V, KC, VC>(all: Seq<Entry<K, V>>, pairs: Seq<(KC, VC)>) where
    K: Clone + Into<KC>,
    V: Clone + Into<VC>,

    requires
        are_pairs_of(all, pairs),
    ensures
        pairs.len() == all.len(),
        forall|i: int| 0 <= i < all.len() ==> is_pair_of(all[i], #[trigger] pairs[i]),
{
}

/// A shard with another slot in the place of a hash differs there and nowhere else: that slot is
/// as given, the others are as they were, and the count moves by what the slot gained or lost.
pub proof fn lemma_only_slot_differs<K, V>(
    shard: ShardView<K, V>,
    hash: u64,
    slot: SlotView<K, V>,
    s: int,
)
    requires
        shard.slots.len() > 0,
        0 <= s < shard.slots.len(),
        shard.count == total(shard.slots),
        total(shard.slots) + slot.chain.len() <= usize::MAX,
    ensures
        0 <= slot_of(hash, shard.slots.len()) < shard.slots.len(),
        shard.slot(hash) == shard.slots[slot_of(hash, shard.slots.len())],
        shard.with_slot(hash, slot).slots.len() == shard.slots.len(),
        shard.with_slot(hash, slot).slot(hash) == slot,
        s != slot_of(hash, shard.slots.len()) ==> shard.with_slot(hash, slot).slots[s]
            == shard.slots[s],
        shard.with_slot(hash, slot).count + shard.slot(hash).chain.len() == shard.count
            + slot.chain.len(),
        shard.with_slot(hash, slot).count == total(shard.with_slot(hash, slot).slots),
{
    let at = slot_of(hash, shard.slots.len());
    vstd::arithmetic::div_mod::lemma_mod_bound(hash as int, shard.slots.len() as int);
    lemma_total_update(shard.slots, at, slot);
}

/// Clearing a shard leaves as many slots, each without an entry, and counts nothing; reading it
/// through leaves every entry in its place, and the count. Of the slots that nobody holds, both
/// leave the locks free.
pub proof fn lemma_shard_gone_through<K, V>(shard: ShardView<K, V>, s: int)
    requires
        0 <= s < shard.slots.len(),
    ensures
        shard.cleared().slots.len() == shard.slots.len(),
        shard.cleared().slots[s].chain.len() == 0,
        shard.cleared().count == 0,
        total(shard.cleared().slots) == 0,
        entries(shard.cleared().slots).len() == 0,
        shard.cleared().slots[s].mutex.lock.is_free(),
        shard.cleared().slots[s].mutex.ref_count == shard.slots[s].mutex.ref_count,
        shard.read_through().slots.len() == shard.slots.len(),
        shard.read_through().slots[s].chain == shard.slots[s].chain,
        shard.read_through().count == shard.count,
        shard.slots[s].mutex.lock.is_free() ==> shard.read_through().slots[s].mutex.lock.is_free(),
        shard.read_through().slots[s].mutex.ref_count == shard.slots[s].mutex.ref_count,
{
    lemma_total_empty(shard.cleared().slots);
    lemma_entries_len(shard.cleared().slots);
    lemma_mutex_steps(shard.slots[s].mutex);
    lemma_mutex_steps(shard.slots[s].mutex.claimed());
    lemma_mutex_steps(shard.slots[s].mutex.entered());
}

/// Where a shard is in order, it counts its entries one by one, and each of them stands in the
/// slot that its hash names.
pub proof fn lemma_ordered_shard<K, V>(shard: ShardView<K, V>, s: int, i: int)
    requires
        shard.is_ordered(),
        0 <= s < shard.slots.len(),
        0 <= i < shard.slots[s].chain.len(),
    ensures
        shard.count == entries(shard.slots).len(),
        s == slot_of(shard.slots[s].chain[i].hash, shard.slots.len()),
        shard.slot(shard.slots[s].chain[i].hash).chain.contains(shard.slots[s].chain[i]),
{
    lemma_entries_len(shard.slots);
    assert(shard.slots[s].chain[i] == shard.slots[s].chain[i]);
}

/// Where nobody holds a shard's slots, no slot has a holder of either kind; where no slot has two
/// entries of the same key, no two entries of a chain have the same hash and equal keys.
pub proof fn lemma_shard_parts<K: PartialEq, V>(shard: ShardView<K, V>, s: int)
    requires
        0 <= s < shard.slots.len(),
    ensures
        shard.is_free() ==> !shard.slots[s].mutex.lock.writer
            && shard.slots[s].mutex.lock.readers == 0,
        shard.is_distinct() ==> forall|i: int, j: int|
            0 <= i < j < shard.slots[s].chain.len() ==> !((#[trigger] shard.slots[s].chain[i]).hash
                == (#[trigger] shard.slots[s].chain[j]).hash && shard.slots[s].chain[j].key.eq_spec(
                &shard.slots[s].chain[i].key,
            )),
{
    if shard.is_distinct() {
        assert(is_distinct(shard.slots[s].chain));
    }
}

/// What a test picks is an entry with the hash, and the first that the test can accept: of every
/// entry before it that has the hash the test can say no. Where nothing is picked, the test can
/// say no of every entry with the hash. A test that can be asked about any key can be asked
/// about those of the chain.
pub proof fn lemma_picks<K, V, F: Fn(&K) -> bool>(
    chain: Seq<Entry<K, V>>,
    hash: u64,
    is_key: F,
    i: int,
    j: int,
)
    requires
        0 <= j < chain.len(),
        chain[j].hash == hash,
    ensures
        is_picked(chain, hash, is_key, i) ==> {
            &&& 0 <= i < chain.len()
            &&& chain[i].hash == hash
            &&& is_key.ensures((&chain[i].key,), true)
            &&& j < i ==> is_key.ensures((&chain[j].key,), false)
        },
        is_none_picked(chain, hash, is_key) ==> is_key.ensures((&chain[j].key,), false),
        is_askable(chain, hash, is_key) ==> is_key.requires((&chain[j].key,)),
        (forall|k: K| #[trigger] is_key.requires((&k,))) ==> is_askable(chain, hash, is_key),
{
}

} // verus!
