//! A hash map in shards.
//!
//! [`AtomicHashMap`] is the record that the threads share: the shards, each under a lock of
//! its own, the builder of hashers, and the number of handles. A hash tells the shard by its
//! high bits and the slot in the shard by its remainder.

use crate::atomic::shard::Shard;
use crate::sync::mutex::Mutex;
use crate::sync::watch_guard_mut::WatchGuardMut;
use crate::sync::watch_guard_ref::WatchGuardRef;
use std::collections::hash_map::RandomState;
use std::hash::{BuildHasher, Hash};
use vstd::prelude::*;
use vstd::std_specs::cmp::PartialEqSpec;

verus! {

use crate::atomic::shard::{
    are_pairs_of, entries, is_askable, is_none_picked, is_picked, is_test_for,
    lemma_shard_gone_through, lemma_test_finds, lemma_total_update, lemma_without_key_shape, lookup,
    slot_of, value_of, with_value, without_key, Entry, ShardView, SlotView,
};
use crate::bits::{bumped, lemma_mask_is_mod, lemma_pow2_exponent, lowered};
use crate::sync::mutex::{lemma_mutex_steps, MutexView};
use vstd::arithmetic::power2::{
    is_pow2, lemma_pow2_adds, lemma_pow2_pos, lemma_pow2_strictly_increases, lemma_pow2_unfold,
    pow2,
};

/// How many shards a map has for which none are asked.
pub const DEFAULT_SHARD_AMOUNT: usize = 64;

/// How many slots a shard has for which none are asked.
pub const DEFAULT_SHARD_CAPACITY: usize = 16;

/// A shard and the lock around it.
#[derive(Debug)]
struct Cell<K, V> {
    lock: Mutex,
    shard: Shard<K, V>,
}

/// What a shard and its lock say.
pub struct CellView<K, V> {
    /// The lock.
    pub lock: MutexView,
    /// The shard.
    pub shard: ShardView<K, V>,
}

/// What a map says.
pub struct MapView<K, V> {
    /// The shards.
    pub shards: Seq<CellView<K, V>>,
    /// How far a hash is shifted to tell its shard.
    pub shift: usize,
    /// How many handles share the map.
    pub ref_count: usize,
}

/// What a debug print of an [`AtomicHashMap`] shows.
#[derive(Clone, Copy, Debug, PartialEq, Eq, Structural)]
pub struct AtomicHashMapReport {
    /// How many shards there are.
    pub shards: usize,
    /// How many entries there are.
    pub len: usize,
    /// How many handles share the map.
    pub ref_count: usize,
}

/// The shared record of a hash map.
#[derive(Debug)]
pub struct AtomicHashMap<K, V, S = RandomState> {
    shift: usize,
    shards: Vec<Cell<K, V>>,
    hasher: S,
    ref_count: usize,
}

/// The shard of a hash.
pub open spec fn shard_of(hash: u64, shift: usize) -> usize {
    ((hash as usize) << 7usize) >> shift
}

/// How many slots each shard has: the capacity asked for, divided among the shards and
/// rounded up.
pub open spec fn slots_per_shard(capacity: nat, shard_amount: nat) -> nat {
    if capacity == 0 {
        DEFAULT_SHARD_CAPACITY as nat
    } else {
        ((capacity + shard_amount - 1) / shard_amount as int) as nat
    }
}

/// How many entries the shards hold.
pub open spec fn entry_count<K, V>(shards: Seq<CellView<K, V>>) -> nat
    decreases shards.len(),
{
    if shards.len() == 0 {
        0
    } else {
        entry_count(shards.drop_last()) + shards.last().shard.count as nat
    }
}

/// How many slots the shards have.
pub open spec fn slot_count<K, V>(shards: Seq<CellView<K, V>>) -> nat
    decreases shards.len(),
{
    if shards.len() == 0 {
        0
    } else {
        slot_count(shards.drop_last()) + shards.last().shard.slots.len()
    }
}

/// The entries of the shards, shard by shard and slot by slot.
pub open spec fn all_entries<K, V>(shards: Seq<CellView<K, V>>) -> Seq<Entry<K, V>>
    decreases shards.len(),
{
    if shards.len() == 0 {
        Seq::empty()
    } else {
        all_entries(shards.drop_last()) + entries(shards.last().shard.slots)
    }
}

proof fn lemma_count_update<K, V>(shards: Seq<CellView<K, V>>, d: int, cell: CellView<K, V>)
    requires
        0 <= d < shards.len(),
    ensures
        entry_count(shards.update(d, cell)) == entry_count(shards) - shards[d].shard.count
            + cell.shard.count,
        shards[d].shard.count <= entry_count(shards),
        slot_count(shards.update(d, cell)) == slot_count(shards) - shards[d].shard.slots.len()
            + cell.shard.slots.len(),
    decreases shards.len(),
{
    let after = shards.update(d, cell);
    if d == shards.len() - 1 {
        assert(after.drop_last() =~= shards.drop_last());
    } else {
        lemma_count_update(shards.drop_last(), d, cell);
        assert(after.drop_last() =~= shards.drop_last().update(d, cell));
    }
}

proof fn lemma_counts_alike<K, V>(shards: Seq<CellView<K, V>>, count: nat, slots: nat)
    requires
        forall|d: int|
            0 <= d < shards.len() ==> {
                &&& (#[trigger] shards[d]).shard.count == count
                &&& shards[d].shard.slots.len() == slots
            },
    ensures
        entry_count(shards) == shards.len() * count,
        slot_count(shards) == shards.len() * slots,
    decreases shards.len(),
{
    if shards.len() > 0 {
        lemma_counts_alike(shards.drop_last(), count, slots);
        let n = (shards.len() - 1) as nat;
        assert((n + 1) * count == n * count + count) by (nonlinear_arith);
        assert((n + 1) * slots == n * slots + slots) by (nonlinear_arith);
    }
}

proof fn lemma_same_counts<K, V>(shards: Seq<CellView<K, V>>, after: Seq<CellView<K, V>>)
    requires
        shards.len() == after.len(),
        forall|d: int|
            0 <= d < shards.len() ==> {
                &&& (#[trigger] after[d]).shard.count == shards[d].shard.count
                &&& after[d].shard.slots.len() == shards[d].shard.slots.len()
            },
    ensures
        entry_count(after) == entry_count(shards),
        slot_count(after) == slot_count(shards),
    decreases shards.len(),
{
    if shards.len() > 0 {
        assert(after.last().shard.count == shards.last().shard.count);
        assert forall|d: int| 0 <= d < shards.len() - 1 implies {
            &&& (#[trigger] after.drop_last()[d]).shard.count == shards.drop_last()[d].shard.count
            &&& after.drop_last()[d].shard.slots.len() == shards.drop_last()[d].shard.slots.len()
        } by {
            let cell = after[d];
        }
        lemma_same_counts(shards.drop_last(), after.drop_last());
    }
}

/// A power of two as its exponent.
fn exponent(power: usize) -> (n: usize)
    requires
        is_pow2(power as int),
    ensures
        pow2(n as nat) == power,
        n < usize::BITS,
{
    let ghost k = lemma_pow2_exponent(power);
    let mut n: usize = 0;
    let mut reached: usize = 1;
    proof {
        vstd::arithmetic::power2::lemma2_to64();
    }
    while reached < power
        invariant
            n <= k,
            k < usize::BITS,
            pow2(k) == power,
            reached == pow2(n as nat),
        decreases k - n,
    {
        proof {
            if n == k {
                assert(false);
            }
            if n + 1 < k {
                lemma_pow2_strictly_increases((n + 1) as nat, k);
            }
            lemma_pow2_unfold((n + 1) as nat);
        }
        reached = reached * 2;
        n += 1;
    }
    proof {
        if n < k {
            lemma_pow2_strictly_increases(n as nat, k);
        }
    }
    n
}

/// A capacity rounded up to a multiple of `unit`, a power of two.
fn round_up(capacity: usize, unit: usize) -> (rounded: usize)
    requires
        is_pow2(unit as int),
        capacity + unit - 1 <= usize::MAX,
    ensures
        unit > 0,
        rounded == (capacity + unit - 1) / unit as int * unit,
{
    proof {
        let x = (capacity + unit - 1) as usize;
        let m = (unit - 1) as usize;
        lemma_mask_is_mod(x, unit);
        assert(x & !m == x - (x & m)) by (bit_vector);
        vstd::arithmetic::div_mod::lemma_fundamental_div_mod(x as int, unit as int);
        assert(unit as int * (x as int / unit as int) == x as int / unit as int * unit)
            by (nonlinear_arith);
    }
    (capacity + (unit - 1)) & !(unit - 1)
}

impl<K, V> MapView<K, V> {
    /// An empty map.
    pub open spec fn empty(shard_amount: nat, slots: nat, shift: usize) -> Self {
        MapView {
            shards: Seq::new(
                shard_amount,
                |d: int| CellView {
                    lock: MutexView::fresh(),
                    shard: ShardView {
                        slots: Seq::new(
                            slots,
                            |s: int| SlotView {
                                chain: Seq::<Entry<K, V>>::empty(),
                                mutex: MutexView::fresh(),
                            },
                        ),
                        count: 0,
                    },
                },
            ),
            shift,
            ref_count: 1,
        }
    }

    /// The shard of a hash, with its lock.
    pub open spec fn cell(self, hash: u64) -> CellView<K, V> {
        self.shards[shard_of(hash, self.shift) as int]
    }

    /// The slot of a hash.
    pub open spec fn slot(self, hash: u64) -> SlotView<K, V> {
        self.cell(hash).shard.slot(hash)
    }

    /// The map after a thread went through the lock of a hash's shard and left the slot of
    /// the hash as given.
    pub open spec fn with_slot(self, hash: u64, slot: SlotView<K, V>) -> Self {
        MapView {
            shards: self.shards.update(
                shard_of(hash, self.shift) as int,
                CellView {
                    lock: self.cell(hash).lock.entered().left(),
                    shard: self.cell(hash).shard.with_slot(hash, slot),
                },
            ),
            ..self
        }
    }

    /// A thread that reads under the hash need not wait: nobody holds the hash's shard for
    /// itself, and nobody writes to the hash's slot.
    pub open spec fn admits_reader(self, hash: u64) -> bool {
        !self.cell(hash).lock.lock.writer && !self.slot(hash).mutex.lock.writer
    }

    /// A thread that writes under the hash need not wait: nobody holds the hash's shard for
    /// itself, and nobody holds the hash's slot.
    pub open spec fn admits_writer(self, hash: u64) -> bool {
        !self.cell(hash).lock.lock.writer && self.slot(hash).mutex.lock.is_free()
    }

    /// Nobody writes to a shard as a whole.
    pub open spec fn is_open(self) -> bool {
        forall|d: int| 0 <= d < self.shards.len() ==> !(#[trigger] self.shards[d]).lock.lock.writer
    }

    /// Nobody writes to a slot.
    pub open spec fn is_readable(self) -> bool {
        forall|d: int, s: int|
            #![trigger self.shards[d].shard.slots[s]]
            0 <= d < self.shards.len() && 0 <= s < self.shards[d].shard.slots.len()
                ==> !self.shards[d].shard.slots[s].mutex.lock.writer
    }

    /// Nobody holds a slot.
    pub open spec fn is_free(self) -> bool {
        forall|d: int, s: int|
            #![trigger self.shards[d].shard.slots[s]]
            0 <= d < self.shards.len() && 0 <= s < self.shards[d].shard.slots.len()
                ==> self.shards[d].shard.slots[s].mutex.lock.is_free()
    }

    /// Nobody holds a shard or a slot.
    pub open spec fn is_idle(self) -> bool {
        &&& self.is_free()
        &&& forall|d: int|
            0 <= d < self.shards.len() ==> (#[trigger] self.shards[d]).lock.lock.is_free()
    }

    /// Every entry is in the shard of its hash.
    pub open spec fn is_placed(self) -> bool {
        forall|d: int, s: int, i: int|
            #![trigger self.shards[d].shard.slots[s].chain[i]]
            0 <= d < self.shards.len() && 0 <= s < self.shards[d].shard.slots.len() && 0 <= i
                < self.shards[d].shard.slots[s].chain.len() ==> shard_of(
                self.shards[d].shard.slots[s].chain[i].hash,
                self.shift,
            ) == d
    }

    /// In every shard the slots are counted right, and the entries are in the slots of their
    /// hashes.
    pub open spec fn is_ordered(self) -> bool {
        forall|d: int|
            0 <= d < self.shards.len() ==> (#[trigger] self.shards[d]).shard.is_ordered()
    }

    /// The number of shards is a power of two, and the shift leaves as many bits of a hash.
    pub open spec fn is_sharded(self) -> bool {
        &&& 0 < self.shift < usize::BITS
        &&& self.shards.len() == pow2((usize::BITS - self.shift) as nat)
    }
}

impl<K: PartialEq, V> MapView<K, V> {
    /// The value of a key.
    pub open spec fn value(self, hash: u64, key: K) -> Option<V> {
        value_of(self.slot(hash).chain, hash, key)
    }

    /// No key has a value.
    pub open spec fn is_vacant(self) -> bool {
        forall|hash: u64, key: K| (#[trigger] self.value(hash, key)) is None
    }

    /// No slot has two entries of the same key.
    pub open spec fn is_distinct(self) -> bool {
        forall|d: int|
            0 <= d < self.shards.len() ==> (#[trigger] self.shards[d]).shard.is_distinct()
    }
}

/// A hash names one of the shards, whatever the hash is.
pub proof fn lemma_shard_in_range<K, V>(map: MapView<K, V>, hash: u64)
    requires
        map.is_sharded(),
    ensures
        shard_of(hash, map.shift) < map.shards.len(),
{
    let x = (hash as usize) << 7usize;
    let bits = (usize::BITS - map.shift) as nat;
    vstd::bits::lemma_usize_shr_is_div(x, map.shift);
    vstd::layout::unsigned_int_max_values();
    lemma_pow2_adds(map.shift as nat, bits);
    lemma_pow2_pos(map.shift as nat);
    assert(pow2(usize::BITS as nat) == pow2(map.shift as nat) * pow2(bits));
    vstd::arithmetic::div_mod::lemma_multiply_divide_lt(
        x as int,
        pow2(map.shift as nat) as int,
        pow2(bits) as int,
    );
}

/// The shard of a hash depends on the hash and on the number of shards only.
pub proof fn lemma_shard_by_amount<K, V>(a: MapView<K, V>, b: MapView<K, V>, hash: u64)
    requires
        a.is_sharded(),
        b.is_sharded(),
        a.shards.len() == b.shards.len(),
    ensures
        a.shift == b.shift,
        shard_of(hash, a.shift) == shard_of(hash, b.shift),
        shard_of(hash, a.shift) < a.shards.len(),
{
    let m = (usize::BITS - a.shift) as nat;
    let n = (usize::BITS - b.shift) as nat;
    if m < n {
        vstd::arithmetic::power2::lemma_pow2_strictly_increases(m, n);
    } else if n < m {
        vstd::arithmetic::power2::lemma_pow2_strictly_increases(n, m);
    }
    lemma_shard_in_range(a, hash);
}

/// What it means for the holders and for the counts that the slot of a hash is replaced.
proof fn lemma_slot_replaced<K, V>(map: MapView<K, V>, hash: u64)
    requires
        map.is_sharded(),
        map.is_ordered(),
    ensures
        map.is_idle() ==> map.is_open() && map.is_readable() && map.is_free(),
        forall|slot: SlotView<K, V>|
            #![trigger map.with_slot(hash, slot)]
            {
                let after = map.with_slot(hash, slot);
                &&& map.is_idle() && slot.mutex.lock.is_free() ==> after.is_idle()
                &&& slot_count(after.shards) == slot_count(map.shards)
                &&& slot.chain.len() == map.slot(hash).chain.len() ==> entry_count(after.shards)
                    == entry_count(map.shards)
            },
{
    lemma_shard_in_range(map, hash);
    let d = shard_of(hash, map.shift) as int;
    assert(map.shards[d].shard.is_ordered());
    assert forall|slot: SlotView<K, V>| #![trigger map.with_slot(hash, slot)] {
        let after = map.with_slot(hash, slot);
        &&& map.is_idle() && slot.mutex.lock.is_free() ==> after.is_idle()
        &&& slot_count(after.shards) == slot_count(map.shards)
        &&& slot.chain.len() == map.slot(hash).chain.len() ==> entry_count(after.shards)
            == entry_count(map.shards)
    } by {
        let after = map.with_slot(hash, slot);
        lemma_count_update(map.shards, d, after.shards[d]);
        if map.is_idle() && slot.mutex.lock.is_free() {
            assert forall|e: int, s: int|
                #![trigger after.shards[e].shard.slots[s]]
                0 <= e < after.shards.len() && 0 <= s < after.shards[e].shard.slots.len()
                implies after.shards[e].shard.slots[s].mutex.lock.is_free() by {
                let before = map.shards[e].shard.slots[s];
            }
        }
    }
}

/// What a new map is like.
pub proof fn lemma_empty<K: PartialEq, V>(shard_amount: nat, slots: nat, shift: usize)
    ensures
        ({
            let map = MapView::<K, V>::empty(shard_amount, slots, shift);
            &&& map.is_idle()
            &&& map.is_distinct()
            &&& entry_count(map.shards) == 0
            &&& slot_count(map.shards) == shard_amount * slots
            &&& map.is_sharded() && slots > 0 ==> map.is_vacant()
        }),
{
    let map = MapView::<K, V>::empty(shard_amount, slots, shift);
    lemma_counts_alike(map.shards, 0, slots);
    if map.is_sharded() && slots > 0 {
        assert forall|hash: u64, key: K| (#[trigger] map.value(hash, key)) is None by {
            lemma_shard_in_range(map, hash);
            let chain = map.slot(hash).chain;
            assert(chain.len() == 0);
            crate::atomic::shard::lemma_lookup(chain, hash, key, None);
        }
    }
}

/// The hash of a key, by `std::hash::BuildHasher::hash_one`. Nothing is claimed of the
/// number: it depends on the builder, which may be seeded anew in each process, and on what
/// the key's type feeds to a hasher. Which numbers it can be is told by [`gives_hash`].
#[verifier::external_body]
fn hash_key<K: Hash, S: BuildHasher>(hasher: &S, key: &K) -> (hash: u64) {
    hasher.hash_one(key)
}

/// The builder can give the key this hash.
pub closed spec fn gives_hash<K: Hash, S: BuildHasher>(hasher: S, key: K, hash: u64) -> bool {
    call_ensures(hash_key::<K, S>, (&hasher, &key), hash)
}

/// The builder gives both keys the same hash, whenever it is asked. A map finds a key again
/// if this holds of the key with itself and with every key that is equal to it.
pub open spec fn hashes_alike<K: Hash, S: BuildHasher>(hasher: S, a: K, b: K) -> bool {
    forall|x: u64, y: u64| #[trigger]
        gives_hash(hasher, a, x) && #[trigger] gives_hash(hasher, b, y) ==> x == y
}

impl<K, V> MapView<K, V> {
    /// A thread that reads the key need not wait, whichever hash the builder gives the key.
    /// This is so of every key where nobody holds anything.
    pub open spec fn opens_to_reader<S>(self, hasher: S, key: K) -> bool where
        K: Hash,
        S: BuildHasher,
     {
        ||| self.is_idle()
        ||| forall|hash: u64| #[trigger]
            gives_hash(hasher, key, hash) ==> self.admits_reader(hash)
    }

    /// A thread that writes the key need not wait, whichever hash the builder gives the key.
    /// This is so of every key where nobody holds anything.
    pub open spec fn opens_to_writer<S>(self, hasher: S, key: K) -> bool where
        K: Hash,
        S: BuildHasher,
     {
        ||| self.is_idle()
        ||| forall|hash: u64| #[trigger]
            gives_hash(hasher, key, hash) ==> self.admits_writer(hash)
    }
}

/// What `f` gives for a key.
fn ask<K, S, F: Fn(&S, &K) -> u64>(f: F, hasher: &S, key: &K) -> (hash: u64)
    requires
        f.requires((hasher, key)),
    ensures
        f.ensures((hasher, key), hash),
{
    f(hasher, key)
}

/// A builder of hashers with keys of its own, by `std::hash::RandomState::new`. Nothing is
/// claimed of it: the keys are random.
#[verifier::external_body]
fn random_state() -> (state: RandomState) {
    RandomState::new()
}

impl<K, V, S> View for AtomicHashMap<K, V, S> {
    type V = MapView<K, V>;

    closed spec fn view(&self) -> MapView<K, V> {
        MapView {
            shards: Seq::new(
                self.shards@.len(),
                |d: int| CellView {
                    lock: self.shards@[d].lock@,
                    shard: self.shards@[d].shard@,
                },
            ),
            shift: self.shift,
            ref_count: self.ref_count,
        }
    }
}

impl<K, V, S> AtomicHashMap<K, V, S> {
    /// The shards are in order, and their counts fit in a word.
    pub closed spec fn wf(self) -> bool {
        &&& forall|d: int| 0 <= d < self.shards@.len() ==> (#[trigger] self.shards@[d]).shard.wf()
        &&& self@.is_sharded()
        &&& self@.is_placed()
        &&& entry_count(self@.shards) <= usize::MAX
        &&& slot_count(self@.shards) <= usize::MAX
    }

    /// The builder of hashers.
    pub closed spec fn hash_builder(self) -> S {
        self.hasher
    }

    /// What well-formedness says about the view.
    pub proof fn lemma_wf(self)
        requires
            self.wf(),
        ensures
            self@.is_sharded(),
            self@.is_placed(),
            entry_count(self@.shards) <= usize::MAX,
            slot_count(self@.shards) <= usize::MAX,
            self@.is_ordered(),
    {
        assert forall|d: int| 0 <= d < self@.shards.len() implies (
        #[trigger] self@.shards[d]).shard.is_ordered() by {
            self.shards@[d].shard.lemma_wf();
        }
    }

    /// An empty map of `shard_amount` shards, a power of two above one, with slots for
    /// `capacity` entries in all.
    pub fn with_capacity_hasher_and_shard_amount(
        capacity: usize,
        hasher: S,
        shard_amount: usize,
    ) -> (map: Self)
        requires
            shard_amount > 1,
            is_pow2(shard_amount as int),
            capacity + shard_amount - 1 <= usize::MAX,
            capacity == 0 ==> DEFAULT_SHARD_CAPACITY * shard_amount <= usize::MAX,
        ensures
            map.wf(),
            map.hash_builder() == hasher,
            map@ == MapView::<K, V>::empty(
                shard_amount as nat,
                slots_per_shard(capacity as nat, shard_amount as nat),
                map@.shift,
            ),
            map@.is_sharded(),
            0 < slots_per_shard(capacity as nat, shard_amount as nat),
    {
        let shift: usize = usize::BITS as usize - exponent(shard_amount);
        let slots: usize = if capacity == 0 {
            DEFAULT_SHARD_CAPACITY
        } else {
            let rounded: usize = round_up(capacity, shard_amount);
            proof {
                let q = (capacity + shard_amount - 1) / shard_amount as int;
                vstd::arithmetic::div_mod::lemma_div_by_multiple(q, shard_amount as int);
            }
            rounded / shard_amount
        };
        proof {
            lemma_slots_fit(capacity as nat, shard_amount as nat);
            vstd::arithmetic::power2::lemma2_to64();
        }
        let mut shards: Vec<Cell<K, V>> = Vec::new();
        while shards.len() < shard_amount
            invariant
                shards@.len() <= shard_amount,
                slots > 0,
                forall|d: int|
                    0 <= d < shards@.len() ==> {
                        &&& (#[trigger] shards@[d]).shard.wf()
                        &&& shards@[d].lock@ == MutexView::fresh()
                        &&& shards@[d].shard@.count == 0
                        &&& shards@[d].shard@.slots == Seq::new(
                            slots as nat,
                            |s: int| SlotView {
                                chain: Seq::<Entry<K, V>>::empty(),
                                mutex: MutexView::fresh(),
                            },
                        )
                    },
            decreases shard_amount - shards@.len(),
        {
            let shard = Shard::new(slots);
            proof {
                assert(shard@.slots =~= Seq::new(
                    slots as nat,
                    |s: int| SlotView {
                        chain: Seq::<Entry<K, V>>::empty(),
                        mutex: MutexView::fresh(),
                    },
                ));
            }
            shards.push(Cell { lock: Mutex::new(), shard });
        }
        let map = AtomicHashMap { shift, shards, hasher, ref_count: 1 };
        proof {
            assert(map@.shards =~= MapView::<K, V>::empty(
                shard_amount as nat,
                slots as nat,
                shift,
            ).shards);
            lemma_counts_alike(map@.shards, 0, slots as nat);
            assert(shard_amount as nat * slots as nat == slots as nat * shard_amount as nat)
                by (nonlinear_arith);
        }
        map
    }
}

proof fn lemma_slots_fit(capacity: nat, shard_amount: nat)
    requires
        shard_amount > 1,
        capacity + shard_amount - 1 <= usize::MAX,
        capacity == 0 ==> DEFAULT_SHARD_CAPACITY * shard_amount <= usize::MAX,
    ensures
        0 < slots_per_shard(capacity, shard_amount),
        slots_per_shard(capacity, shard_amount) * shard_amount <= usize::MAX,
{
    if capacity > 0 {
        let sum = capacity + shard_amount - 1;
        let q = sum / shard_amount as int;
        vstd::arithmetic::div_mod::lemma_fundamental_div_mod(sum, shard_amount as int);
        vstd::arithmetic::div_mod::lemma_mod_bound(sum, shard_amount as int);
        assert(q >= 1 && q * shard_amount <= sum) by (nonlinear_arith)
            requires
                sum == shard_amount as int * q + sum % shard_amount as int,
                0 <= sum % (shard_amount as int) < shard_amount,
                sum >= shard_amount,
        ;
    }
}

/// What giving a key a value does to a map, and what it returns.
pub open spec fn is_inserted<K: PartialEq, V>(
    before: MapView<K, V>,
    hash: u64,
    key: K,
    value: V,
    result: Option<V>,
    after: MapView<K, V>,
) -> bool {
    let slot = before.slot(hash);
    &&& after == before.with_slot(
        hash,
        SlotView {
            chain: after.slot(hash).chain,
            mutex: slot.mutex.claimed().released(),
        },
    )
    &&& entry_count(after.shards) == entry_count(before.shards) + if result is Some {
        0nat
    } else {
        1
    }
    &&& K::obeys_eq_spec() ==> {
        &&& result == before.value(hash, key)
        &&& after.slot(hash).chain == with_value(slot.chain, hash, key, value)
        &&& before.is_distinct() ==> after.is_distinct()
    }
}

/// What taking a key out does to a map, and what it returns.
pub open spec fn is_removed<K: PartialEq, V>(
    before: MapView<K, V>,
    hash: u64,
    key: K,
    result: Option<V>,
    after: MapView<K, V>,
) -> bool {
    let slot = before.slot(hash);
    &&& after == before.with_slot(
        hash,
        SlotView {
            chain: after.slot(hash).chain,
            mutex: slot.mutex.claimed().released(),
        },
    )
    &&& K::obeys_eq_spec() ==> {
        &&& result == before.value(hash, key)
        &&& after.slot(hash).chain == without_key(slot.chain, hash, key)
    }
}

impl<K, V, S> AtomicHashMap<K, V, S> {
    /// The number of the shard of a hash: one of the shards, told by the hash and the number of
    /// shards alone.
    pub fn determine_shard(&self, hash: u64) -> (d: usize)
        requires
            self.wf(),
        ensures
            d == shard_of(hash, self@.shift),
            d < self@.shards.len(),
    {
        proof {
            lemma_shard_in_range(self@, hash);
        }
        #[verifier::truncate]
        let low: usize = hash as usize;
        (low << 7usize) >> self.shift
    }

    /// Only the shard of a hash differs from `before`; in it only the slot of the hash does,
    /// and a thread went through the lock around it.
    spec fn is_slot_changed(self, before: Self, hash: u64, slot: SlotView<K, V>) -> bool {
        let d = shard_of(hash, before.shift) as int;
        &&& self.shift == before.shift
        &&& self.hasher == before.hasher
        &&& self.ref_count == before.ref_count
        &&& self.shards@.len() == before.shards@.len()
        &&& forall|e: int|
            0 <= e < before.shards@.len() && e != d ==> #[trigger] self.shards@[e]
                == before.shards@[e]
        &&& self.shards@[d].lock@ == before.shards@[d].lock@.entered().left()
        &&& self.shards@[d].shard.wf()
        &&& self.shards@[d].shard@ == before.shards@[d].shard@.with_slot(hash, slot)
        &&& forall|i: int|
            0 <= i < slot.chain.len() ==> shard_of(
                (#[trigger] slot.chain[i]).hash,
                before.shift,
            ) == d
    }

    proof fn lemma_slot_changed(self, before: Self, hash: u64, slot: SlotView<K, V>)
        requires
            before.wf(),
            self.is_slot_changed(before, hash, slot),
            entry_count(before@.shards) + slot.chain.len() - before@.slot(hash).chain.len()
                <= usize::MAX,
        ensures
            self.wf(),
            self@ == before@.with_slot(hash, slot),
            entry_count(self@.shards) == entry_count(before@.shards) + slot.chain.len()
                - before@.slot(hash).chain.len(),
    {
        let d = shard_of(hash, before.shift) as int;
        lemma_shard_in_range(before@, hash);
        before.shards@[d].shard.lemma_wf();
        self.shards@[d].shard.lemma_wf();
        let cell = self@.shards[d];
        let s = slot_of(hash, before@.shards[d].shard.slots.len());
        crate::atomic::shard::lemma_total_update(before@.shards[d].shard.slots, s, slot);
        lemma_count_update(before@.shards, d, cell);
        assert forall|e: int| 0 <= e < self.shards@.len() implies (
        #[trigger] self.shards@[e]).shard.wf() by {
            if e != d {
                assert(self.shards@[e] == before.shards@[e]);
            }
        }
        assert(self@.shards =~= before@.shards.update(d, cell));
        assert forall|e: int, t: int, i: int|
            #![trigger self@.shards[e].shard.slots[t].chain[i]]
            0 <= e < self@.shards.len() && 0 <= t < self@.shards[e].shard.slots.len() && 0 <= i
                < self@.shards[e].shard.slots[t].chain.len() implies shard_of(
            self@.shards[e].shard.slots[t].chain[i].hash,
            self@.shift,
        ) == e by {
            if e == d && t == s {
                let entry = slot.chain[i];
            } else {
                let entry = before@.shards[e].shard.slots[t].chain[i];
            }
        }
    }

    /// Takes the entry out that has the hash and that `is_key` accepts. Returns its value.
    pub fn remove_by<F: Fn(&K) -> bool>(&mut self, hash: u64, is_key: &F) -> (result: Option<V>)
        requires
            old(self).wf(),
            old(self)@.admits_writer(hash),
            is_askable(old(self)@.slot(hash).chain, hash, *is_key),
        ensures
            final(self).wf(),
            final(self).hash_builder() == old(self).hash_builder(),
            ({
                let slot = old(self)@.slot(hash);
                let mutex = slot.mutex.claimed().released();
                match result {
                    Some(value) => exists|i: int|
                        {
                            &&& #[trigger] is_picked(slot.chain, hash, *is_key, i)
                            &&& value == slot.chain[i].value
                            &&& final(self)@ == old(self)@.with_slot(
                                hash,
                                SlotView { chain: slot.chain.remove(i), mutex },
                            )
                        },
                    None => {
                        &&& is_none_picked(slot.chain, hash, *is_key)
                        &&& final(self)@ == old(self)@.with_slot(
                            hash,
                            SlotView { chain: slot.chain, mutex },
                        )
                    },
                }
            }),
            entry_count(final(self)@.shards) == entry_count(old(self)@.shards) - if result
                is Some {
                1int
            } else {
                0
            },
    {
        let d: usize = self.determine_shard(hash);
        let ghost slot = self@.slot(hash);
        proof {
            self.shards@[d as int].shard.lemma_wf();
        }
        self.shards[d].lock.lock_shared();
        let result = self.shards[d].shard.remove_by(hash, is_key);
        self.shards[d].lock.unlock_shared();
        proof {
            let after = self.shards@[d as int].shard@.slot(hash);
            assert forall|i: int| 0 <= i < after.chain.len() implies shard_of(
                (#[trigger] after.chain[i]).hash,
                old(self).shift,
            ) == d by {
                let at = slot.chain[i];
                let next = slot.chain[i + 1];
            }
            self.lemma_slot_changed(*old(self), hash, after);
        }
        result
    }

    /// Whether an entry has the hash and `is_key` accepts it.
    pub fn contains_by<F: Fn(&K) -> bool>(&mut self, hash: u64, is_key: &F) -> (found: bool)
        requires
            old(self).wf(),
            old(self)@.admits_reader(hash),
            is_askable(old(self)@.slot(hash).chain, hash, *is_key),
        ensures
            final(self).wf(),
            final(self).hash_builder() == old(self).hash_builder(),
            ({
                let slot = old(self)@.slot(hash);
                &&& found ==> exists|i: int| #[trigger] is_picked(slot.chain, hash, *is_key, i)
                &&& !found ==> is_none_picked(slot.chain, hash, *is_key)
                &&& final(self)@ == old(self)@.with_slot(
                    hash,
                    SlotView { chain: slot.chain, mutex: slot.mutex.entered().left() },
                )
            }),
    {
        let d: usize = self.determine_shard(hash);
        let ghost slot = self@.slot(hash);
        proof {
            self.shards@[d as int].shard.lemma_wf();
        }
        self.shards[d].lock.lock_shared();
        let found = self.shards[d].shard.contains_by(hash, is_key);
        self.shards[d].lock.unlock_shared();
        proof {
            let after = self.shards@[d as int].shard@.slot(hash);
            assert forall|i: int| 0 <= i < after.chain.len() implies shard_of(
                (#[trigger] after.chain[i]).hash,
                old(self).shift,
            ) == d by {
                let at = slot.chain[i];
            }
            self.lemma_slot_changed(*old(self), hash, after);
        }
        found
    }

    /// Only the slot of a hash differs from `before`, and there the entries have the hashes
    /// that they had. A thread went through the lock around the shard.
    spec fn is_rehashed(self, before: Self, hash: u64) -> bool {
        let d = shard_of(hash, before.shift) as int;
        let slot = self.shards@[d].shard@.slot(hash);
        let chain = before.shards@[d].shard@.slot(hash).chain;
        &&& self.shift == before.shift
        &&& self.hasher == before.hasher
        &&& self.ref_count == before.ref_count
        &&& self.shards@.len() == before.shards@.len()
        &&& forall|e: int|
            0 <= e < before.shards@.len() && e != d ==> #[trigger] self.shards@[e]
                == before.shards@[e]
        &&& self.shards@[d].lock@ == before.shards@[d].lock@.entered().left()
        &&& self.shards@[d].shard.wf()
        &&& self.shards@[d].shard@ == before.shards@[d].shard@.with_slot(hash, slot)
        &&& slot.chain.len() == chain.len()
        &&& forall|i: int|
            0 <= i < slot.chain.len() ==> (#[trigger] slot.chain[i]).hash == chain[i].hash
    }

    proof fn lemma_rehashed(self, hash: u64)
        requires
            self.wf(),
        ensures
            forall|after: Self|
                #![trigger after.wf()]
                #![trigger after.view()]
                after.is_rehashed(self, hash) ==> {
                    &&& after.wf()
                    &&& after@ == self@.with_slot(hash, after@.slot(hash))
                    &&& after@.slot(hash) == after.shards@[shard_of(
                        hash,
                        self.shift,
                    ) as int].shard@.slot(hash)
                },
    {
        let d = shard_of(hash, self.shift) as int;
        lemma_shard_in_range(self@, hash);
        self.shards@[d].shard.lemma_wf();
        assert forall|after: Self|
            #![trigger after.wf()]
            #![trigger after.view()]
            after.is_rehashed(self, hash) implies {
            &&& after.wf()
            &&& after@ == self@.with_slot(hash, after@.slot(hash))
            &&& after@.slot(hash) == after.shards@[d].shard@.slot(hash)
        } by {
            let slot = after.shards@[d].shard@.slot(hash);
            assert forall|i: int| 0 <= i < slot.chain.len() implies shard_of(
                (#[trigger] slot.chain[i]).hash,
                self.shift,
            ) == d by {
                let at = self@.slot(hash).chain[i];
            }
            after.lemma_slot_changed(self, hash, slot);
        }
    }

    /// Locks the slot of the hash for reading and gives the value of the entry that `is_key`
    /// accepts. The lock is given up at once where there is none.
    pub fn get_by<F: Fn(&K) -> bool>(&mut self, hash: u64, is_key: &F) -> (result: Option<
        WatchGuardRef<'_, V>,
    >)
        requires
            old(self).wf(),
            old(self)@.admits_reader(hash),
            is_askable(old(self)@.slot(hash).chain, hash, *is_key),
        ensures
            final(self).wf(),
            final(self).hash_builder() == old(self).hash_builder(),
            ({
                let slot = old(self)@.slot(hash);
                match result {
                    Some(guard) => {
                        &&& guard.lock@ == slot.mutex.entered().with_handle()
                        &&& final(self)@ == old(self)@.with_slot(
                            hash,
                            SlotView { chain: slot.chain, mutex: final(guard.lock)@ },
                        )
                        &&& exists|i: int| #[trigger]
                            is_picked(slot.chain, hash, *is_key, i) && *guard.data
                                == slot.chain[i].value
                    },
                    None => {
                        &&& is_none_picked(slot.chain, hash, *is_key)
                        &&& final(self)@ == old(self)@.with_slot(
                            hash,
                            SlotView { chain: slot.chain, mutex: slot.mutex.entered().left() },
                        )
                    },
                }
            }),
    {
        let d: usize = self.determine_shard(hash);
        proof {
            self.shards@[d as int].shard.lemma_wf();
            self.lemma_rehashed(hash);
        }
        let cell = &mut self.shards[d];
        cell.lock.lock_shared();
        cell.lock.unlock_shared();
        cell.shard.get_by(hash, is_key)
    }

    /// Locks the slot of the hash for writing and gives the value of the entry that `is_key`
    /// accepts. The lock is given up at once where there is none.
    pub fn get_mut_by<F: Fn(&K) -> bool>(&mut self, hash: u64, is_key: &F) -> (result: Option<
        WatchGuardMut<'_, V>,
    >)
        requires
            old(self).wf(),
            old(self)@.admits_writer(hash),
            is_askable(old(self)@.slot(hash).chain, hash, *is_key),
        ensures
            final(self).wf(),
            final(self).hash_builder() == old(self).hash_builder(),
            ({
                let slot = old(self)@.slot(hash);
                match result {
                    Some(guard) => {
                        &&& guard.lock@ == slot.mutex.claimed().with_handle()
                        &&& exists|i: int|
                            {
                                &&& #[trigger] is_picked(slot.chain, hash, *is_key, i)
                                &&& *guard.data == slot.chain[i].value
                                &&& final(self)@ == old(self)@.with_slot(
                                    hash,
                                    SlotView {
                                        chain: slot.chain.update(
                                            i,
                                            Entry {
                                                key: slot.chain[i].key,
                                                value: *final(guard.data),
                                                hash: slot.chain[i].hash,
                                            },
                                        ),
                                        mutex: final(guard.lock)@,
                                    },
                                )
                            }
                    },
                    None => {
                        &&& is_none_picked(slot.chain, hash, *is_key)
                        &&& final(self)@ == old(self)@.with_slot(
                            hash,
                            SlotView { chain: slot.chain, mutex: slot.mutex.claimed().released() },
                        )
                    },
                }
            }),
    {
        let d: usize = self.determine_shard(hash);
        proof {
            self.shards@[d as int].shard.lemma_wf();
            self.lemma_rehashed(hash);
        }
        let cell = &mut self.shards[d];
        cell.lock.lock_shared();
        cell.lock.unlock_shared();
        cell.shard.get_mut_by(hash, is_key)
    }
}

impl<K: Eq, V, S> AtomicHashMap<K, V, S> {
    /// Gives the key the value, under the given hash. Returns the value before, if the key had
    /// one. A thread waits for whoever holds the shard for itself or holds the slot.
    pub fn insert_hashed(&mut self, key: K, value: V, hash: u64) -> (result: Option<V>)
        requires
            old(self).wf(),
            entry_count(old(self)@.shards) < usize::MAX,
            old(self)@.admits_writer(hash),
        ensures
            final(self).wf(),
            final(self).hash_builder() == old(self).hash_builder(),
            is_inserted(old(self)@, hash, key, value, result, final(self)@),
    {
        let d: usize = self.determine_shard(hash);
        let ghost slot = self@.slot(hash);
        proof {
            self.shards@[d as int].shard.lemma_wf();
            lemma_count_update(self@.shards, d as int, self@.shards[d as int]);
        }
        self.shards[d].lock.lock_shared();
        let result = self.shards[d].shard.insert(key, value, hash);
        self.shards[d].lock.unlock_shared();
        proof {
            let after = self.shards@[d as int].shard@.slot(hash);
            assert forall|i: int| 0 <= i < after.chain.len() implies shard_of(
                (#[trigger] after.chain[i]).hash,
                old(self).shift,
            ) == d by {
                let at = slot.chain[i];
                let before = slot.chain[i - 1];
            }
            self.lemma_slot_changed(*old(self), hash, after);
            if K::obeys_eq_spec() && old(self)@.is_distinct() {
                assert(old(self)@.shards[d as int].shard.is_distinct());
                assert forall|e: int| 0 <= e < self@.shards.len() implies (
                #[trigger] self@.shards[e]).shard.is_distinct() by {
                    if e != d {
                        assert(self@.shards[e].shard == old(self)@.shards[e].shard);
                    }
                }
            }
        }
        result
    }
}

impl<K: Eq + Hash, V> AtomicHashMap<K, V, RandomState> {
    /// An empty map with the default numbers of shards and slots.
    pub fn new() -> (map: Self)
        ensures
            map.wf(),
            map@ == MapView::<K, V>::empty(
                DEFAULT_SHARD_AMOUNT as nat,
                DEFAULT_SHARD_CAPACITY as nat,
                map@.shift,
            ),
            map@.is_idle(),
            map@.is_vacant(),
            map@.is_distinct(),
            entry_count(map@.shards) == 0,
    {
        Self::with_capacity_and_hasher(0, random_state())
    }

    /// An empty map with the default number of shards and slots for `capacity` entries.
    pub fn with_capacity(capacity: usize) -> (map: Self)
        requires
            capacity <= usize::MAX - 63,
        ensures
            map.wf(),
            map@ == MapView::<K, V>::empty(
                DEFAULT_SHARD_AMOUNT as nat,
                slots_per_shard(capacity as nat, DEFAULT_SHARD_AMOUNT as nat),
                map@.shift,
            ),
            map@.is_idle(),
            map@.is_vacant(),
            map@.is_distinct(),
            entry_count(map@.shards) == 0,
    {
        Self::with_capacity_and_hasher(capacity, random_state())
    }

    /// An empty map of `shard_amount` shards, a power of two above one.
    pub fn with_shard_amount(shard_amount: usize) -> (map: Self)
        requires
            shard_amount > 1,
            is_pow2(shard_amount as int),
            DEFAULT_SHARD_CAPACITY * shard_amount <= usize::MAX,
        ensures
            map.wf(),
            map@ == MapView::<K, V>::empty(
                shard_amount as nat,
                DEFAULT_SHARD_CAPACITY as nat,
                map@.shift,
            ),
            map@.is_idle(),
            map@.is_vacant(),
            map@.is_distinct(),
            entry_count(map@.shards) == 0,
    {
        let map = Self::with_capacity_hasher_and_shard_amount(0, random_state(), shard_amount);
        proof {
            lemma_empty::<K, V>(
                shard_amount as nat,
                DEFAULT_SHARD_CAPACITY as nat,
                map@.shift,
            );
        }
        map
    }
}

impl<K: Eq + Hash, V, S: BuildHasher + Clone> AtomicHashMap<K, V, S> {
    /// An empty map with the default numbers of shards and slots.
    pub fn with_hasher(hasher: S) -> (map: Self)
        ensures
            map.wf(),
            map.hash_builder() == hasher,
            map@ == MapView::<K, V>::empty(
                DEFAULT_SHARD_AMOUNT as nat,
                DEFAULT_SHARD_CAPACITY as nat,
                map@.shift,
            ),
            map@.is_idle(),
            map@.is_vacant(),
            map@.is_distinct(),
            entry_count(map@.shards) == 0,
    {
        Self::with_capacity_and_hasher(0, hasher)
    }

    /// An empty map with the default number of shards and slots for `capacity` entries.
    pub fn with_capacity_and_hasher(capacity: usize, hasher: S) -> (map: Self)
        requires
            capacity <= usize::MAX - 63,
        ensures
            map.wf(),
            map.hash_builder() == hasher,
            map@ == MapView::<K, V>::empty(
                DEFAULT_SHARD_AMOUNT as nat,
                slots_per_shard(capacity as nat, DEFAULT_SHARD_AMOUNT as nat),
                map@.shift,
            ),
            map@.is_idle(),
            map@.is_vacant(),
            map@.is_distinct(),
            entry_count(map@.shards) == 0,
    {
        proof {
            reveal(is_pow2);
            reveal_with_fuel(is_pow2, 8);
        }
        let map = Self::with_capacity_hasher_and_shard_amount(
            capacity,
            hasher,
            DEFAULT_SHARD_AMOUNT,
        );
        proof {
            lemma_empty::<K, V>(
                DEFAULT_SHARD_AMOUNT as nat,
                slots_per_shard(capacity as nat, DEFAULT_SHARD_AMOUNT as nat),
                map@.shift,
            );
        }
        map
    }

    /// The hash of a key.
    fn hash(&self, key: &K) -> (hash: u64)
        ensures
            gives_hash(self.hash_builder(), *key, hash),
    {
        ask(hash_key::<K, S>, &self.hasher, key)
    }

    /// Gives the key the value. Returns the value before, if the key had one. A thread
    /// waits for whoever holds the slot of the key's hash, or its shard for itself.
    pub fn insert(&mut self, key: K, value: V) -> (result: Option<V>)
        requires
            old(self).wf(),
            entry_count(old(self)@.shards) < usize::MAX,
            old(self)@.opens_to_writer(old(self).hash_builder(), key),
        ensures
            final(self).wf(),
            final(self).hash_builder() == old(self).hash_builder(),
            exists|hash: u64| #[trigger]
                gives_hash(old(self).hash_builder(), key, hash) && is_inserted(
                    old(self)@,
                    hash,
                    key,
                    value,
                    result,
                    final(self)@,
                ),
            old(self)@.is_idle() ==> final(self)@.is_idle(),
            slot_count(final(self)@.shards) == slot_count(old(self)@.shards),
    {
        let hash: u64 = self.hash(&key);
        proof {
            self.lemma_wf();
            self.lemma_slot_in_range(hash);
            lemma_slot_replaced(self@, hash);
        }
        self.insert_hashed(key, value, hash)
    }

    /// Locks the key's slot for reading and gives the key's value. The lock is given up at
    /// once where the key has none. A thread waits for whoever writes to the slot of the key's
    /// hash, or holds its shard for itself.
    pub fn get(&mut self, key: &K) -> (result: Option<WatchGuardRef<'_, V>>)
        requires
            old(self).wf(),
            old(self)@.opens_to_reader(old(self).hash_builder(), *key),
        ensures
            final(self).wf(),
            final(self).hash_builder() == old(self).hash_builder(),
            exists|hash: u64| #[trigger]
                gives_hash(old(self).hash_builder(), *key, hash) && {
                    let slot = old(self)@.slot(hash);
                    match result {
                        Some(guard) => {
                            &&& guard.lock@ == slot.mutex.entered().with_handle()
                            &&& final(self)@ == old(self)@.with_slot(
                                hash,
                                SlotView { chain: slot.chain, mutex: final(guard.lock)@ },
                            )
                            &&& K::obeys_eq_spec() ==> old(self)@.value(hash, *key) == Some(
                                *guard.data,
                            )
                        },
                        None => {
                            &&& final(self)@ == old(self)@.with_slot(
                                hash,
                                SlotView { chain: slot.chain, mutex: slot.mutex.entered().left() },
                            )
                            &&& K::obeys_eq_spec() ==> old(self)@.value(hash, *key) is None
                        },
                    }
                },
            old(self)@.is_idle() ==> (result matches Some(guard)
                ==> guard.lock@.left().lock.is_free()),
            old(self)@.is_idle() && (result matches Some(guard)
                ==> final(guard.lock)@.lock.is_free()) ==> final(self)@.is_idle(),
            entry_count(final(self)@.shards) == entry_count(old(self)@.shards),
            slot_count(final(self)@.shards) == slot_count(old(self)@.shards),
    {
        let hash: u64 = self.hash(key);
        let is_key = |k: &K| -> (same: bool)
            ensures
                K::obeys_eq_spec() ==> same == k.eq_spec(key),
            { *k == *key };
        let ghost chain = self@.slot(hash).chain;
        proof {
            self.lemma_wf();
            self.lemma_slot_in_range(hash);
            lemma_slot_replaced(self@, hash);
            lemma_test_finds_any(chain, hash, *key, is_key);
        }
        self.get_by(hash, &is_key)
    }

    /// Locks the key's slot for writing and gives the key's value. The lock is given up at
    /// once where the key has none. A thread waits for whoever holds the slot of the key's hash,
    /// or its shard for itself.
    pub fn get_mut(&mut self, key: &K) -> (result: Option<WatchGuardMut<'_, V>>)
        requires
            old(self).wf(),
            old(self)@.opens_to_writer(old(self).hash_builder(), *key),
        ensures
            final(self).wf(),
            final(self).hash_builder() == old(self).hash_builder(),
            exists|hash: u64| #[trigger]
                gives_hash(old(self).hash_builder(), *key, hash) && {
                    let slot = old(self)@.slot(hash);
                    match result {
                        Some(guard) => {
                            &&& guard.lock@ == slot.mutex.claimed().with_handle()
                            &&& final(self)@ == old(self)@.with_slot(
                                hash,
                                SlotView {
                                    chain: final(self)@.slot(hash).chain,
                                    mutex: final(guard.lock)@,
                                },
                            )
                            &&& K::obeys_eq_spec() ==> {
                                &&& old(self)@.value(hash, *key) == Some(*guard.data)
                                &&& final(self)@.slot(hash).chain == with_value(
                                    slot.chain,
                                    hash,
                                    *key,
                                    *final(guard.data),
                                )
                            }
                        },
                        None => {
                            &&& final(self)@ == old(self)@.with_slot(
                                hash,
                                SlotView {
                                    chain: slot.chain,
                                    mutex: slot.mutex.claimed().released(),
                                },
                            )
                            &&& K::obeys_eq_spec() ==> old(self)@.value(hash, *key) is None
                        },
                    }
                },
            old(self)@.is_idle() && (result matches Some(guard)
                ==> final(guard.lock)@.lock.is_free()) ==> final(self)@.is_idle(),
            entry_count(final(self)@.shards) == entry_count(old(self)@.shards),
            slot_count(final(self)@.shards) == slot_count(old(self)@.shards),
    {
        let hash: u64 = self.hash(key);
        let is_key = |k: &K| -> (same: bool)
            ensures
                K::obeys_eq_spec() ==> same == k.eq_spec(key),
            { *k == *key };
        let ghost chain = self@.slot(hash).chain;
        proof {
            self.lemma_wf();
            self.lemma_slot_in_range(hash);
            lemma_slot_replaced(self@, hash);
            lemma_test_finds_any(chain, hash, *key, is_key);
        }
        self.get_mut_by(hash, &is_key)
    }

    /// Takes the key out. Returns its value, if it had one. A thread waits for whoever holds
    /// the slot of the key's hash, or its shard for itself.
    pub fn remove(&mut self, key: &K) -> (result: Option<V>)
        requires
            old(self).wf(),
            old(self)@.opens_to_writer(old(self).hash_builder(), *key),
        ensures
            final(self).wf(),
            final(self).hash_builder() == old(self).hash_builder(),
            exists|hash: u64| #[trigger]
                gives_hash(old(self).hash_builder(), *key, hash) && is_removed(
                    old(self)@,
                    hash,
                    *key,
                    result,
                    final(self)@,
                ),
            entry_count(final(self)@.shards) == entry_count(old(self)@.shards) - if result
                is Some {
                1int
            } else {
                0
            },
            old(self)@.is_idle() ==> final(self)@.is_idle(),
            slot_count(final(self)@.shards) == slot_count(old(self)@.shards),
    {
        let hash: u64 = self.hash(key);
        let is_key = |k: &K| -> (same: bool)
            ensures
                K::obeys_eq_spec() ==> same == k.eq_spec(key),
            { *k == *key };
        let ghost chain = self@.slot(hash).chain;
        proof {
            self.lemma_wf();
            self.lemma_slot_in_range(hash);
            lemma_slot_replaced(self@, hash);
            lemma_test_finds_any(chain, hash, *key, is_key);
        }
        let result = self.remove_by(hash, &is_key);
        proof {
            assert(is_removed(old(self)@, hash, *key, result, self@));
        }
        result
    }

    /// Whether the key has a value. A thread waits for whoever writes to the slot of the key's
    /// hash, or holds its shard for itself.
    pub fn contains_key(&mut self, key: &K) -> (found: bool)
        requires
            old(self).wf(),
            old(self)@.opens_to_reader(old(self).hash_builder(), *key),
        ensures
            final(self).wf(),
            final(self).hash_builder() == old(self).hash_builder(),
            exists|hash: u64| #[trigger]
                gives_hash(old(self).hash_builder(), *key, hash) && {
                    let slot = old(self)@.slot(hash);
                    &&& final(self)@ == old(self)@.with_slot(
                        hash,
                        SlotView { chain: slot.chain, mutex: slot.mutex.entered().left() },
                    )
                    &&& K::obeys_eq_spec() ==> found == (old(self)@.value(hash, *key) is Some)
                },
            old(self)@.is_idle() ==> final(self)@.is_idle(),
            entry_count(final(self)@.shards) == entry_count(old(self)@.shards),
            slot_count(final(self)@.shards) == slot_count(old(self)@.shards),
    {
        let hash: u64 = self.hash(key);
        let is_key = |k: &K| -> (same: bool)
            ensures
                K::obeys_eq_spec() ==> same == k.eq_spec(key),
            { *k == *key };
        let ghost chain = self@.slot(hash).chain;
        proof {
            self.lemma_wf();
            self.lemma_slot_in_range(hash);
            lemma_slot_replaced(self@, hash);
            lemma_test_finds_any(chain, hash, *key, is_key);
        }
        self.contains_by(hash, &is_key)
    }

    /// The builder of hashers.
    pub fn hasher(&self) -> (hasher: &S)
        ensures
            *hasher == self.hash_builder(),
    {
        &self.hasher
    }
}

impl<K: Eq + Hash, V> Default for AtomicHashMap<K, V, RandomState> {
    fn default() -> (map: Self)
        ensures
            map.wf(),
            map@ == MapView::<K, V>::empty(
                DEFAULT_SHARD_AMOUNT as nat,
                DEFAULT_SHARD_CAPACITY as nat,
                map@.shift,
            ),
            map@.is_idle(),
            map@.is_vacant(),
            map@.is_distinct(),
            entry_count(map@.shards) == 0,
    {
        Self::new()
    }
}

/// Whatever a test for a key picks is what [`crate::atomic::shard::lookup`] finds.
proof fn lemma_test_finds_any<K: PartialEq, V, F: Fn(&K) -> bool>(
    chain: Seq<Entry<K, V>>,
    hash: u64,
    key: K,
    is_key: F,
)
    requires
        is_test_for(is_key, key),
    ensures
        is_askable(chain, hash, is_key),
        K::obeys_eq_spec() ==> {
            &&& forall|i: int| #[trigger]
                is_picked(chain, hash, is_key, i) ==> lookup(chain, hash, key) == Some(i)
            &&& is_none_picked(chain, hash, is_key) ==> lookup(chain, hash, key) is None
        },
{
    if K::obeys_eq_spec() {
        assert forall|i: int| #[trigger] is_picked(chain, hash, is_key, i) implies lookup(
            chain,
            hash,
            key,
        ) == Some(i) by {
            lemma_test_finds(chain, hash, key, is_key, Some(i));
        }
        if is_none_picked(chain, hash, is_key) {
            lemma_test_finds(chain, hash, key, is_key, None);
        }
    }
}

impl<K, V, S> AtomicHashMap<K, V, S> {
    /// Every hash names a shard and a slot of it. Where nobody holds any of them, nobody holds
    /// those of the hash.
    pub proof fn lemma_slot_in_range(self, hash: u64)
        requires
            self.wf(),
        ensures
            shard_of(hash, self@.shift) < self@.shards.len(),
            self@.is_open() && self@.is_readable() ==> self@.admits_reader(hash),
            self@.is_open() && self@.is_free() ==> self@.admits_writer(hash),
            forall|slot: SlotView<K, V>| (#[trigger] self@.with_slot(hash, slot)).slot(hash)
                == slot,
    {
        lemma_shard_in_range(self@, hash);
        let d = shard_of(hash, self@.shift) as int;
        self.shards@[d].shard.lemma_wf();
        let cell = self@.shards[d];
        let slot = self@.shards[d].shard.slots[slot_of(hash, cell.shard.slots.len())];
    }
}

impl<K, V> MapView<K, V> {
    /// The map after a thread went through the lock of each shard in turn.
    pub open spec fn visited(self) -> Self {
        MapView {
            shards: Seq::new(
                self.shards.len(),
                |d: int| CellView {
                    lock: self.shards[d].lock.entered().left(),
                    shard: self.shards[d].shard,
                },
            ),
            ..self
        }
    }

    /// The map after a thread locked each shard for itself and dropped its entries.
    pub open spec fn cleared(self) -> Self {
        MapView {
            shards: Seq::new(
                self.shards.len(),
                |d: int| CellView {
                    lock: self.shards[d].lock.claimed().released(),
                    shard: self.shards[d].shard.cleared(),
                },
            ),
            ..self
        }
    }

    /// The map after a thread read every slot.
    pub open spec fn read_through(self) -> Self {
        MapView {
            shards: Seq::new(
                self.shards.len(),
                |d: int| CellView {
                    lock: self.shards[d].lock.entered().left(),
                    shard: self.shards[d].shard.read_through(),
                },
            ),
            ..self
        }
    }
}

/// Going through the locks of a map changes nothing for its keys, and leaves a map idle that
/// was idle.
pub proof fn lemma_visit_keeps<K: PartialEq, V>(map: MapView<K, V>, hash: u64, key: K)
    requires
        map.is_sharded(),
        map.is_ordered(),
    ensures
        map.visited().value(hash, key) == map.value(hash, key),
        map.read_through().value(hash, key) == map.value(hash, key),
        map.is_distinct() ==> map.visited().is_distinct() && map.read_through().is_distinct(),
{
    lemma_shard_in_range(map, hash);
    let d = shard_of(hash, map.shift) as int;
    assert(map.shards[d].shard.is_ordered());
    if map.is_distinct() {
        assert forall|e: int| 0 <= e < map.shards.len() implies (
        #[trigger] map.visited().shards[e]).shard.is_distinct() by {
            assert(map.shards[e].shard.is_distinct());
        }
        assert forall|e: int| 0 <= e < map.shards.len() implies (
        #[trigger] map.read_through().shards[e]).shard.is_distinct() by {
            assert(map.shards[e].shard.is_distinct());
        }
    }
}

proof fn lemma_visit_counts<K, V>(map: MapView<K, V>)
    ensures
        entry_count(map.visited().shards) == entry_count(map.shards),
        slot_count(map.visited().shards) == slot_count(map.shards),
        entry_count(map.read_through().shards) == entry_count(map.shards),
        slot_count(map.read_through().shards) == slot_count(map.shards),
        map.is_idle() ==> {
            &&& map.visited().is_idle()
            &&& map.read_through().is_idle()
            &&& map.cleared().is_idle()
        },
{
    lemma_same_counts(map.shards, map.visited().shards);
    lemma_same_counts(map.shards, map.read_through().shards);
    if map.is_idle() {
        assert forall|d: int, s: int|
            #![trigger map.visited().shards[d].shard.slots[s]]
            0 <= d < map.shards.len() && 0 <= s < map.shards[d].shard.slots.len()
            implies map.visited().shards[d].shard.slots[s].mutex.lock.is_free() by {
            let slot = map.shards[d].shard.slots[s];
        }
        assert forall|d: int, s: int|
            #![trigger map.read_through().shards[d].shard.slots[s]]
            0 <= d < map.shards.len() && 0 <= s < map.shards[d].shard.slots.len()
            implies map.read_through().shards[d].shard.slots[s].mutex.lock.is_free() by {
            let slot = map.shards[d].shard.slots[s];
        }
        assert forall|d: int|
            0 <= d < map.shards.len() implies (
            #[trigger] map.visited().shards[d]).lock.lock.is_free() by {
            let cell = map.shards[d];
        }
        assert forall|d: int|
            0 <= d < map.shards.len() implies (
            #[trigger] map.read_through().shards[d]).lock.lock.is_free() by {
            let cell = map.shards[d];
        }
    }
}

proof fn lemma_count_prefix<K, V>(shards: Seq<CellView<K, V>>, n: int)
    requires
        0 <= n <= shards.len(),
    ensures
        entry_count(shards.take(n)) <= entry_count(shards),
        slot_count(shards.take(n)) <= slot_count(shards),
        n < shards.len() ==> {
            &&& entry_count(shards.take(n + 1)) == entry_count(shards.take(n))
                + shards[n].shard.count
            &&& slot_count(shards.take(n + 1)) == slot_count(shards.take(n))
                + shards[n].shard.slots.len()
        },
    decreases shards.len() - n,
{
    if n < shards.len() {
        assert(shards.take(n + 1).drop_last() =~= shards.take(n));
        lemma_count_prefix(shards, n + 1);
    } else {
        assert(shards.take(n) =~= shards);
    }
}

impl<K, V, S> AtomicHashMap<K, V, S> {
    /// Only the locks around the shards differ from `before`.
    proof fn lemma_relocked(self, before: Self)
        requires
            before.wf(),
            self.shift == before.shift,
            self.shards@.len() == before.shards@.len(),
            forall|d: int|
                0 <= d < before.shards@.len() ==> (#[trigger] self.shards@[d]).shard
                    == before.shards@[d].shard,
        ensures
            self.wf(),
    {
        assert forall|d: int| 0 <= d < self.shards@.len() implies (
        #[trigger] self.shards@[d]).shard.wf() by {
            let cell = before.shards@[d];
        }
        assert forall|d: int| 0 <= d < self@.shards.len() implies {
            &&& (#[trigger] self@.shards[d]).shard.count == before@.shards[d].shard.count
            &&& self@.shards[d].shard.slots.len() == before@.shards[d].shard.slots.len()
        } by {
            let cell = self.shards@[d];
        }
        lemma_same_counts(before@.shards, self@.shards);
        assert forall|d: int, s: int, i: int|
            #![trigger self@.shards[d].shard.slots[s].chain[i]]
            0 <= d < self@.shards.len() && 0 <= s < self@.shards[d].shard.slots.len() && 0 <= i
                < self@.shards[d].shard.slots[s].chain.len() implies shard_of(
            self@.shards[d].shard.slots[s].chain[i].hash,
            self@.shift,
        ) == d by {
            let cell = self.shards@[d];
            let entry = before@.shards[d].shard.slots[s].chain[i];
        }
    }

    /// How many entries there are. Nobody may hold a shard for itself.
    pub fn len(&mut self) -> (len: usize)
        requires
            old(self).wf(),
            old(self)@.is_open(),
        ensures
            final(self).wf(),
            final(self).hash_builder() == old(self).hash_builder(),
            final(self)@ == old(self)@.visited(),
            len == entry_count(old(self)@.shards),
            old(self)@.is_idle() ==> final(self)@.is_idle(),
            entry_count(final(self)@.shards) == entry_count(old(self)@.shards),
            slot_count(final(self)@.shards) == slot_count(old(self)@.shards),
    {
        let mut sum: usize = 0;
        let mut d: usize = 0;
        proof {
            lemma_visit_counts(self@);
            assert(self@.shards.take(0) =~= Seq::<CellView<K, V>>::empty());
        }
        while d < self.shards.len()
            invariant
                d <= self.shards@.len(),
                old(self).wf(),
                old(self)@.is_open(),
                self.shift == old(self).shift,
                self.hasher == old(self).hasher,
                self.ref_count == old(self).ref_count,
                self.shards@.len() == old(self).shards@.len(),
                forall|e: int|
                    0 <= e < self.shards@.len() ==> {
                        &&& (#[trigger] self.shards@[e]).shard == old(self).shards@[e].shard
                        &&& self.shards@[e].lock@ == if e < d {
                            old(self).shards@[e].lock@.entered().left()
                        } else {
                            old(self).shards@[e].lock@
                        }
                    },
                sum == entry_count(old(self)@.shards.take(d as int)),
            decreases self.shards@.len() - d,
        {
            proof {
                lemma_count_prefix(old(self)@.shards, d as int);
                lemma_count_prefix(old(self)@.shards, d + 1);
                let cell = old(self)@.shards[d as int];
                let here = self.shards@[d as int];
            }
            self.shards[d].lock.lock_shared();
            sum = sum + self.shards[d].shard.len();
            self.shards[d].lock.unlock_shared();
            d += 1;
        }
        proof {
            assert(old(self)@.shards.take(d as int) =~= old(self)@.shards);
            self.lemma_relocked(*old(self));
            assert(self@.shards =~= old(self)@.visited().shards) by {
                assert forall|e: int| 0 <= e < self@.shards.len() implies #[trigger] self@.shards[e]
                    == old(self)@.visited().shards[e] by {
                    let cell = self.shards@[e];
                }
            }
        }
        sum
    }

    /// Whether there is no entry. Nobody may hold a shard for itself.
    pub fn is_empty(&mut self) -> (empty: bool)
        requires
            old(self).wf(),
            old(self)@.is_open(),
        ensures
            final(self).wf(),
            final(self).hash_builder() == old(self).hash_builder(),
            final(self)@ == old(self)@.visited(),
            empty == (entry_count(old(self)@.shards) == 0),
            old(self)@.is_idle() ==> final(self)@.is_idle(),
            entry_count(final(self)@.shards) == entry_count(old(self)@.shards),
            slot_count(final(self)@.shards) == slot_count(old(self)@.shards),
    {
        self.len() == 0
    }

    /// How many slots there are. Nobody may hold a shard for itself.
    pub fn capacity(&mut self) -> (capacity: usize)
        requires
            old(self).wf(),
            old(self)@.is_open(),
        ensures
            final(self).wf(),
            final(self).hash_builder() == old(self).hash_builder(),
            final(self)@ == old(self)@.visited(),
            capacity == slot_count(old(self)@.shards),
            old(self)@.is_idle() ==> final(self)@.is_idle(),
            entry_count(final(self)@.shards) == entry_count(old(self)@.shards),
            slot_count(final(self)@.shards) == slot_count(old(self)@.shards),
    {
        let mut sum: usize = 0;
        let mut d: usize = 0;
        proof {
            lemma_visit_counts(self@);
            assert(self@.shards.take(0) =~= Seq::<CellView<K, V>>::empty());
        }
        while d < self.shards.len()
            invariant
                d <= self.shards@.len(),
                old(self).wf(),
                old(self)@.is_open(),
                self.shift == old(self).shift,
                self.hasher == old(self).hasher,
                self.ref_count == old(self).ref_count,
                self.shards@.len() == old(self).shards@.len(),
                forall|e: int|
                    0 <= e < self.shards@.len() ==> {
                        &&& (#[trigger] self.shards@[e]).shard == old(self).shards@[e].shard
                        &&& self.shards@[e].lock@ == if e < d {
                            old(self).shards@[e].lock@.entered().left()
                        } else {
                            old(self).shards@[e].lock@
                        }
                    },
                sum == slot_count(old(self)@.shards.take(d as int)),
            decreases self.shards@.len() - d,
        {
            proof {
                lemma_count_prefix(old(self)@.shards, d as int);
                lemma_count_prefix(old(self)@.shards, d + 1);
                let cell = old(self)@.shards[d as int];
                let here = self.shards@[d as int];
            }
            self.shards[d].lock.lock_shared();
            sum = sum + self.shards[d].shard.capacity();
            self.shards[d].lock.unlock_shared();
            d += 1;
        }
        proof {
            assert(old(self)@.shards.take(d as int) =~= old(self)@.shards);
            self.lemma_relocked(*old(self));
            assert(self@.shards =~= old(self)@.visited().shards) by {
                assert forall|e: int| 0 <= e < self@.shards.len() implies #[trigger] self@.shards[e]
                    == old(self)@.visited().shards[e] by {
                    let cell = self.shards@[e];
                }
            }
        }
        sum
    }

    /// Drops every entry. Nobody may hold a shard or a slot.
    pub fn clear(&mut self)
        requires
            old(self).wf(),
            old(self)@.is_free(),
            forall|d: int|
                0 <= d < old(self)@.shards.len() ==> (
                #[trigger] old(self)@.shards[d]).lock.lock.is_free(),
        ensures
            final(self).wf(),
            final(self).hash_builder() == old(self).hash_builder(),
            final(self)@ == old(self)@.cleared(),
            entry_count(final(self)@.shards) == 0,
            old(self)@.is_idle() ==> final(self)@.is_idle(),
            slot_count(final(self)@.shards) == slot_count(old(self)@.shards),
    {
        proof {
            lemma_visit_counts(self@);
        }
        let mut d: usize = 0;
        while d < self.shards.len()
            invariant
                d <= self.shards@.len(),
                old(self).wf(),
                old(self)@.is_free(),
                forall|e: int|
                    0 <= e < old(self)@.shards.len() ==> (
                    #[trigger] old(self)@.shards[e]).lock.lock.is_free(),
                self.shift == old(self).shift,
                self.hasher == old(self).hasher,
                self.ref_count == old(self).ref_count,
                self.shards@.len() == old(self).shards@.len(),
                forall|e: int|
                    0 <= e < self.shards@.len() ==> if e < d {
                        &&& (#[trigger] self.shards@[e]).shard.wf()
                        &&& self.shards@[e].shard@ == old(self).shards@[e].shard@.cleared()
                        &&& self.shards@[e].lock@ == old(self).shards@[e].lock@.claimed().released()
                    } else {
                        self.shards@[e] == old(self).shards@[e]
                    },
            decreases self.shards@.len() - d,
        {
            proof {
                let cell = old(self)@.shards[d as int];
                let here = self.shards@[d as int];
                assert forall|s: int| 0 <= s < cell.shard.slots.len() implies (
                #[trigger] cell.shard.slots[s]).mutex.lock.is_free() by {
                    let slot = old(self)@.shards[d as int].shard.slots[s];
                }
            }
            self.shards[d].lock.lock_exclusive();
            self.shards[d].shard.clear();
            self.shards[d].lock.unlock_exclusive();
            d += 1;
        }
        proof {
            assert forall|e: int| 0 <= e < self@.shards.len() implies #[trigger] self@.shards[e]
                == old(self)@.cleared().shards[e] by {
                let cell = self.shards@[e];
            }
            assert(self@.shards =~= old(self)@.cleared().shards);
            lemma_cleared_counts(old(self)@.shards, self@.shards);
        }
    }

    /// Counts one handle more.
    pub fn clone_ref(&mut self)
        requires
            old(self).wf(),
        ensures
            final(self).wf(),
            final(self).hash_builder() == old(self).hash_builder(),
            final(self)@ == (MapView { ref_count: bumped(old(self)@.ref_count), ..old(self)@ }),
    {
        self.ref_count = self.ref_count.wrapping_add(1);
        proof {
            self.lemma_relocked(*old(self));
        }
    }

    /// Counts one handle less, and says whether it was the last.
    pub fn drop_ref(&mut self) -> (last: bool)
        requires
            old(self).wf(),
        ensures
            final(self).wf(),
            final(self).hash_builder() == old(self).hash_builder(),
            last == (old(self)@.ref_count == 1),
            final(self)@ == (MapView { ref_count: lowered(old(self)@.ref_count), ..old(self)@ }),
    {
        let previous: usize = self.ref_count;
        self.ref_count = previous.wrapping_sub(1);
        proof {
            self.lemma_relocked(*old(self));
        }
        previous == 1
    }

    /// What a debug print of the map shows. Nobody may hold a shard for itself.
    pub fn report(&mut self) -> (report: AtomicHashMapReport)
        requires
            old(self).wf(),
            old(self)@.is_open(),
        ensures
            final(self).wf(),
            final(self).hash_builder() == old(self).hash_builder(),
            final(self)@ == old(self)@.visited(),
            report.shards == old(self)@.shards.len(),
            report.len == entry_count(old(self)@.shards),
            report.ref_count == old(self)@.ref_count,
            old(self)@.is_idle() ==> final(self)@.is_idle(),
            entry_count(final(self)@.shards) == entry_count(old(self)@.shards),
            slot_count(final(self)@.shards) == slot_count(old(self)@.shards),
    {
        let len: usize = self.len();
        AtomicHashMapReport { shards: self.shards.len(), len, ref_count: self.ref_count }
    }
}

proof fn lemma_cleared_counts<K, V>(before: Seq<CellView<K, V>>, after: Seq<CellView<K, V>>)
    requires
        before.len() == after.len(),
        forall|d: int|
            0 <= d < before.len() ==> {
                &&& (#[trigger] after[d]).shard.count == 0
                &&& after[d].shard.slots.len() == before[d].shard.slots.len()
            },
    ensures
        entry_count(after) == 0,
        slot_count(after) == slot_count(before),
    decreases before.len(),
{
    if before.len() > 0 {
        assert(after.last().shard.count == 0);
        assert forall|d: int| 0 <= d < before.len() - 1 implies {
            &&& (#[trigger] after.drop_last()[d]).shard.count == 0
            &&& after.drop_last()[d].shard.slots.len() == before.drop_last()[d].shard.slots.len()
        } by {
            let cell = after[d];
        }
        lemma_cleared_counts(before.drop_last(), after.drop_last());
    }
}

impl<K, V, S> AtomicHashMap<K, V, S> {
    /// Clones of the entries, converted, shard by shard and slot by slot. Nobody may write to
    /// a slot or a shard.
    pub fn as_vec<KC, VC>(&mut self) -> (result: Vec<(KC, VC)>) where
        K: Clone + Into<KC>,
        V: Clone + Into<VC>,

        requires
            old(self).wf(),
            old(self)@.is_open(),
            old(self)@.is_readable(),
        ensures
            final(self).wf(),
            final(self).hash_builder() == old(self).hash_builder(),
            final(self)@ == old(self)@.read_through(),
            are_pairs_of(all_entries(old(self)@.shards), result@),
            old(self)@.is_idle() ==> final(self)@.is_idle(),
            entry_count(final(self)@.shards) == entry_count(old(self)@.shards),
            slot_count(final(self)@.shards) == slot_count(old(self)@.shards),
    {
        let mut result: Vec<(KC, VC)> = Vec::new();
        let mut d: usize = 0;
        proof {
            lemma_visit_counts(self@);
            assert(self@.shards.take(0) =~= Seq::<CellView<K, V>>::empty());
        }
        while d < self.shards.len()
            invariant
                d <= self.shards@.len(),
                old(self).wf(),
                old(self)@.is_open(),
                old(self)@.is_readable(),
                self.shift == old(self).shift,
                self.hasher == old(self).hasher,
                self.ref_count == old(self).ref_count,
                self.shards@.len() == old(self).shards@.len(),
                forall|e: int|
                    0 <= e < self.shards@.len() ==> if e < d {
                        &&& (#[trigger] self.shards@[e]).shard.wf()
                        &&& self.shards@[e].shard@ == old(self).shards@[e].shard@.read_through()
                        &&& self.shards@[e].lock@ == old(self).shards@[e].lock@.entered().left()
                    } else {
                        self.shards@[e] == old(self).shards@[e]
                    },
                are_pairs_of(all_entries(old(self)@.shards.take(d as int)), result@),
            decreases self.shards@.len() - d,
        {
            let ghost before = result@;
            proof {
                let cell = old(self)@.shards[d as int];
                let here = self.shards@[d as int];
                assert forall|s: int| 0 <= s < cell.shard.slots.len() implies !(
                #[trigger] cell.shard.slots[s]).mutex.lock.writer by {
                    let slot = old(self)@.shards[d as int].shard.slots[s];
                }
            }
            self.shards[d].lock.lock_shared();
            self.shards[d].shard.collect(&mut result);
            self.shards[d].lock.unlock_shared();
            proof {
                assert(old(self)@.shards.take(d + 1).drop_last() =~= old(self)@.shards.take(
                    d as int,
                ));
            }
            d += 1;
        }
        proof {
            assert(old(self)@.shards.take(d as int) =~= old(self)@.shards);
            assert forall|e: int| 0 <= e < self@.shards.len() implies #[trigger] self@.shards[e]
                == old(self)@.read_through().shards[e] by {
                let cell = self.shards@[e];
            }
            assert(self@.shards =~= old(self)@.read_through().shards);
            lemma_same_counts(old(self)@.shards, self@.shards);
            assert forall|e: int, s: int, i: int|
                #![trigger self@.shards[e].shard.slots[s].chain[i]]
                0 <= e < self@.shards.len() && 0 <= s < self@.shards[e].shard.slots.len() && 0 <= i
                    < self@.shards[e].shard.slots[s].chain.len() implies shard_of(
                self@.shards[e].shard.slots[s].chain[i].hash,
                self@.shift,
            ) == e by {
                let entry = old(self)@.shards[e].shard.slots[s].chain[i];
            }
        }
        result
    }
}

/// There are as many entries as the counts of the shards say.
pub proof fn lemma_all_entries_len<K, V>(shards: Seq<CellView<K, V>>)
    requires
        forall|d: int| 0 <= d < shards.len() ==> (#[trigger] shards[d]).shard.is_ordered(),
    ensures
        all_entries(shards).len() == entry_count(shards),
    decreases shards.len(),
{
    if shards.len() > 0 {
        assert forall|d: int| 0 <= d < shards.len() - 1 implies (
        #[trigger] shards.drop_last()[d]).shard.is_ordered() by {
            let cell = shards[d];
        }
        lemma_all_entries_len(shards.drop_last());
        assert(shards.last().shard.is_ordered());
        crate::atomic::shard::lemma_entries_len(shards.last().shard.slots);
    }
}

/// What a read gives back of a write: after a key was given a value, the map has that value
/// for it, under the same hash.
pub proof fn lemma_insert_then_get<K: PartialEq, V>(
    before: MapView<K, V>,
    hash: u64,
    key: K,
    value: V,
    result: Option<V>,
    after: MapView<K, V>,
)
    requires
        K::obeys_eq_spec(),
        key.eq_spec(&key),
        is_inserted(before, hash, key, value, result, after),
    ensures
        result == before.value(hash, key),
        after.value(hash, key) == Some(value),
{
    crate::atomic::shard::lemma_with_value_found(before.slot(hash).chain, hash, key, value);
}

/// What a key was given is what it, or a key equal to it, is found with, whichever hash the
/// builder gives, as long as the builder gives both the same.
pub proof fn lemma_insert_then_get_key<K: PartialEq + Hash, V, S: BuildHasher>(
    hasher: S,
    before: MapView<K, V>,
    hash: u64,
    key: K,
    value: V,
    result: Option<V>,
    after: MapView<K, V>,
    other_hash: u64,
    other: K,
)
    requires
        vstd::laws_eq::obeys_eq::<K>(),
        key.eq_spec(&other),
        hashes_alike(hasher, key, other),
        gives_hash(hasher, key, hash),
        gives_hash(hasher, other, other_hash),
        is_inserted(before, hash, key, value, result, after),
    ensures
        after.value(other_hash, other) == Some(value),
{
    reveal(vstd::laws_eq::obeys_eq_spec_properties);
    assert(other.eq_spec(&key) && key.eq_spec(&key));
    lemma_insert_then_get(before, hash, key, value, result, after);
    crate::atomic::shard::lemma_equal_keys(after.slot(hash).chain, hash, key, other);
}

/// Giving a key a value changes nothing for any other key.
pub proof fn lemma_insert_keeps_others<K: PartialEq, V>(
    before: MapView<K, V>,
    hash: u64,
    key: K,
    value: V,
    result: Option<V>,
    after: MapView<K, V>,
    other_hash: u64,
    other: K,
)
    requires
        vstd::laws_eq::obeys_eq::<K>(),
        before.is_sharded(),
        before.is_ordered(),
        is_inserted(before, hash, key, value, result, after),
        other_hash != hash || !key.eq_spec(&other),
    ensures
        after.value(other_hash, other) == before.value(other_hash, other),
{
    let slot = SlotView {
        chain: after.slot(hash).chain,
        mutex: before.slot(hash).mutex.claimed().released(),
    };
    lemma_slot_update(before, hash, slot, other_hash);
    crate::atomic::shard::lemma_with_value_other(
        before.slot(hash).chain,
        hash,
        key,
        value,
        other_hash,
        other,
    );
}

/// A key that was taken out is no longer found.
pub proof fn lemma_remove_then_get<K: PartialEq, V>(
    before: MapView<K, V>,
    hash: u64,
    key: K,
    result: Option<V>,
    after: MapView<K, V>,
)
    requires
        vstd::laws_eq::obeys_eq::<K>(),
        before.is_sharded(),
        before.is_ordered(),
        before.is_distinct(),
        is_removed(before, hash, key, result, after),
    ensures
        result == before.value(hash, key),
        after.value(hash, key) is None,
{
    lemma_shard_in_range(before, hash);
    let d = shard_of(hash, before.shift) as int;
    assert(before.shards[d].shard.is_ordered());
    assert(before.shards[d].shard.is_distinct());
    assert(crate::atomic::shard::is_distinct(
        before.shards[d].shard.slots[slot_of(hash, before.shards[d].shard.slots.len())].chain,
    ));
    crate::atomic::shard::lemma_without_key_absent(before.slot(hash).chain, hash, key);
}

/// A key that was taken out is no longer found, nor is a key equal to it, whichever hash the
/// builder gives, as long as the builder gives both the same.
pub proof fn lemma_remove_then_get_key<K: PartialEq + Hash, V, S: BuildHasher>(
    hasher: S,
    before: MapView<K, V>,
    hash: u64,
    key: K,
    result: Option<V>,
    after: MapView<K, V>,
    other_hash: u64,
    other: K,
)
    requires
        vstd::laws_eq::obeys_eq::<K>(),
        key.eq_spec(&other),
        hashes_alike(hasher, key, other),
        gives_hash(hasher, key, hash),
        gives_hash(hasher, other, other_hash),
        before.is_sharded(),
        before.is_ordered(),
        before.is_distinct(),
        is_removed(before, hash, key, result, after),
    ensures
        result == before.value(other_hash, other),
        after.value(other_hash, other) is None,
{
    lemma_remove_then_get(before, hash, key, result, after);
    crate::atomic::shard::lemma_equal_keys(before.slot(hash).chain, hash, key, other);
    crate::atomic::shard::lemma_equal_keys(after.slot(hash).chain, hash, key, other);
}

/// Taking a key out changes nothing for any other key.
pub proof fn lemma_remove_keeps_others<K: PartialEq, V>(
    before: MapView<K, V>,
    hash: u64,
    key: K,
    result: Option<V>,
    after: MapView<K, V>,
    other_hash: u64,
    other: K,
)
    requires
        vstd::laws_eq::obeys_eq::<K>(),
        before.is_sharded(),
        before.is_ordered(),
        is_removed(before, hash, key, result, after),
        other_hash != hash || !key.eq_spec(&other),
    ensures
        after.value(other_hash, other) == before.value(other_hash, other),
{
    let slot = SlotView {
        chain: after.slot(hash).chain,
        mutex: before.slot(hash).mutex.claimed().released(),
    };
    lemma_slot_update(before, hash, slot, other_hash);
    crate::atomic::shard::lemma_without_key_other(
        before.slot(hash).chain,
        hash,
        key,
        other_hash,
        other,
    );
}

/// Nothing is found in a map that was cleared.
pub proof fn lemma_clear_then_get<K: PartialEq, V>(before: MapView<K, V>, hash: u64, key: K)
    requires
        before.is_sharded(),
        before.is_ordered(),
    ensures
        before.cleared().value(hash, key) is None,
{
    lemma_shard_in_range(before, hash);
    let d = shard_of(hash, before.shift) as int;
    assert(before.shards[d].shard.is_ordered());
    let chain = before.cleared().slot(hash).chain;
    assert(chain.len() == 0);
    crate::atomic::shard::lemma_lookup(chain, hash, key, None);
}

/// A map that was cleared has no key twice.
pub proof fn lemma_cleared_is_distinct<K: PartialEq, V>(map: MapView<K, V>)
    ensures
        map.cleared().is_distinct(),
{
}

/// A map with no key twice still has none when the chain of one slot is replaced by a chain
/// with no key twice: by the same chain, as looking a key up does, or by one in which a key
/// was given another value, as writing through a guard does.
pub proof fn lemma_slot_keeps_distinct<K: PartialEq, V>(
    map: MapView<K, V>,
    hash: u64,
    slot: SlotView<K, V>,
)
    requires
        map.is_sharded(),
        map.is_ordered(),
        map.is_distinct(),
        crate::atomic::shard::is_distinct(slot.chain),
    ensures
        map.with_slot(hash, slot).is_distinct(),
{
    lemma_shard_in_range(map, hash);
    let d = shard_of(hash, map.shift) as int;
    let after = map.with_slot(hash, slot);
    assert(map.shards[d].shard.is_distinct());
    assert forall|e: int| 0 <= e < after.shards.len() implies (
    #[trigger] after.shards[e]).shard.is_distinct() by {
        assert(map.shards[e].shard.is_distinct());
        assert forall|s: int| 0 <= s < after.shards[e].shard.slots.len() implies
            crate::atomic::shard::is_distinct((#[trigger] after.shards[e].shard.slots[s]).chain) by {
            let old_slot = map.shards[e].shard.slots[s];
            assert(crate::atomic::shard::is_distinct(old_slot.chain));
        }
    }
}

/// Taking a key out of a map with no key twice leaves a map with no key twice.
pub proof fn lemma_remove_keeps_distinct<K: PartialEq, V>(
    before: MapView<K, V>,
    hash: u64,
    key: K,
    result: Option<V>,
    after: MapView<K, V>,
)
    requires
        K::obeys_eq_spec(),
        before.is_sharded(),
        before.is_ordered(),
        before.is_distinct(),
        is_removed(before, hash, key, result, after),
    ensures
        after.is_distinct(),
{
    lemma_shard_in_range(before, hash);
    let d = shard_of(hash, before.shift) as int;
    assert(before.shards[d].shard.is_ordered());
    assert(before.shards[d].shard.is_distinct());
    let chain = before.slot(hash).chain;
    assert(crate::atomic::shard::is_distinct(
        before.shards[d].shard.slots[slot_of(hash, before.shards[d].shard.slots.len())].chain,
    ));
    crate::atomic::shard::lemma_without_key_distinct(chain, hash, key);
    lemma_slot_keeps_distinct(
        before,
        hash,
        SlotView {
            chain: after.slot(hash).chain,
            mutex: before.slot(hash).mutex.claimed().released(),
        },
    );
}

/// Which slot another hash has after the slot of a hash was replaced.
proof fn lemma_slot_update<K, V>(
    before: MapView<K, V>,
    hash: u64,
    slot: SlotView<K, V>,
    other_hash: u64,
)
    requires
        before.is_sharded(),
        before.is_ordered(),
    ensures
        before.with_slot(hash, slot).slot(other_hash) == before.slot(other_hash) || (
        before.slot(other_hash) == before.slot(hash) && before.with_slot(hash, slot).slot(
            other_hash,
        ) == slot),
{
    lemma_shard_in_range(before, hash);
    lemma_shard_in_range(before, other_hash);
    let d = shard_of(hash, before.shift) as int;
    assert(before.shards[d].shard.is_ordered());
}

/// The entries of shards are those of their slots, one shard after the other: the entries of
/// two rows of shards put together are those of the first and behind them those of the second.
/// So are the counts of entries and of slots.
pub proof fn lemma_all_entries_in_turn<K, V>(
    a: Seq<CellView<K, V>>,
    b: Seq<CellView<K, V>>,
    cell: CellView<K, V>,
)
    ensures
        all_entries(Seq::<CellView<K, V>>::empty()) == Seq::<Entry<K, V>>::empty(),
        all_entries(seq![cell]) == entries(cell.shard.slots),
        all_entries(a + b) == all_entries(a) + all_entries(b),
        entry_count(Seq::<CellView<K, V>>::empty()) == 0,
        entry_count(seq![cell]) == cell.shard.count,
        entry_count(a + b) == entry_count(a) + entry_count(b),
        slot_count(Seq::<CellView<K, V>>::empty()) == 0,
        slot_count(seq![cell]) == cell.shard.slots.len(),
        slot_count(a + b) == slot_count(a) + slot_count(b),
    decreases b.len(),
{
    let one = seq![cell];
    assert(one.drop_last() =~= Seq::<CellView<K, V>>::empty());
    assert(entry_count(one.drop_last()) == 0);
    assert(slot_count(one.drop_last()) == 0);
    assert(all_entries(one.drop_last()) + entries(cell.shard.slots) =~= entries(cell.shard.slots));
    if b.len() == 0 {
        assert(a + b =~= a);
        assert(all_entries(a) + all_entries(b) =~= all_entries(a));
    } else {
        lemma_all_entries_in_turn(a, b.drop_last(), cell);
        assert((a + b).drop_last() =~= a + b.drop_last());
        assert((a + b).last() == b.last());
        assert(all_entries(a + b) =~= all_entries(a) + all_entries(b));
    }
}

/// Where an entry is listed: behind the entries of the shards before its own, and behind those
/// of the slots before its own. So every entry of every chain is listed.
pub proof fn lemma_listed_at<K, V>(shards: Seq<CellView<K, V>>, d: int, s: int, i: int) -> (j: int)
    requires
        0 <= d < shards.len(),
        0 <= s < shards[d].shard.slots.len(),
        0 <= i < shards[d].shard.slots[s].chain.len(),
    ensures
        j == all_entries(shards.take(d)).len() + entries(shards[d].shard.slots.take(s)).len() + i,
        0 <= j < all_entries(shards).len(),
        all_entries(shards)[j] == shards[d].shard.slots[s].chain[i],
{
    let before = shards.take(d);
    let own = seq![shards[d]];
    let behind = shards.skip(d + 1);
    assert(shards =~= before + own + behind);
    lemma_all_entries_in_turn(before + own, behind, shards[d]);
    lemma_all_entries_in_turn(before, own, shards[d]);
    crate::atomic::shard::lemma_entry_position(shards[d].shard.slots, s, i);
    all_entries(before).len() + entries(shards[d].shard.slots.take(s)).len() + i
}

/// Every entry that is listed stands in a chain, and no two that are listed stand in the same
/// place.
pub proof fn lemma_listed_from<K, V>(shards: Seq<CellView<K, V>>, j: int) -> (at: (int, int, int))
    requires
        0 <= j < all_entries(shards).len(),
    ensures
        0 <= at.0 < shards.len(),
        0 <= at.1 < shards[at.0].shard.slots.len(),
        0 <= at.2 < shards[at.0].shard.slots[at.1].chain.len(),
        shards[at.0].shard.slots[at.1].chain[at.2] == all_entries(shards)[j],
        j == all_entries(shards.take(at.0)).len() + entries(
            shards[at.0].shard.slots.take(at.1),
        ).len() + at.2,
    decreases shards.len(),
{
    let rest = shards.drop_last();
    let n = rest.len() as int;
    assert(shards =~= rest + seq![shards.last()]);
    lemma_all_entries_in_turn(rest, seq![shards.last()], shards.last());
    if j < all_entries(rest).len() {
        let at = lemma_listed_from(rest, j);
        assert(rest.take(at.0) =~= shards.take(at.0));
        at
    } else {
        assert(shards.take(n) =~= rest);
        let at = crate::atomic::shard::lemma_entry_origin(
            shards.last().shard.slots,
            j - all_entries(rest).len(),
        );
        (n, at.0, at.1)
    }
}

/// A listing of a map has every key that the map has, with the value that the map has for it,
/// and has it once; and it has no other. The map has no key twice.
pub proof fn lemma_listing_is_the_map<K: PartialEq, V>(map: MapView<K, V>, hash: u64, key: K)
    requires
        vstd::laws_eq::obeys_eq::<K>(),
        map.is_sharded(),
        map.is_ordered(),
        map.is_placed(),
        map.is_distinct(),
    ensures
        ({
            let all = all_entries(map.shards);
            &&& match map.value(hash, key) {
                Some(value) => exists|j: int|
                    {
                        &&& 0 <= j < all.len()
                        &&& (#[trigger] all[j]).hash == hash
                        &&& all[j].key.eq_spec(&key)
                        &&& all[j].value == value
                    },
                None => forall|j: int|
                    0 <= j < all.len() ==> (#[trigger] all[j]).hash != hash || !all[j].key.eq_spec(
                        &key,
                    ),
            }
            &&& forall|j: int, k: int|
                0 <= j < all.len() && 0 <= k < all.len() && (#[trigger] all[j]).hash == hash && (
                #[trigger] all[k]).hash == hash && all[j].key.eq_spec(&key)
                    && all[k].key.eq_spec(&key) ==> j == k
        }),
{
    reveal(vstd::laws_eq::obeys_eq_spec_properties);
    let all = all_entries(map.shards);
    let d = shard_of(hash, map.shift) as int;
    lemma_shard_in_range(map, hash);
    assert(map.shards[d].shard.is_ordered());
    assert(map.shards[d].shard.is_distinct());
    let s = slot_of(hash, map.shards[d].shard.slots.len());
    assert(crate::atomic::shard::is_distinct(map.shards[d].shard.slots[s].chain));
    let chain = map.slot(hash).chain;
    crate::atomic::shard::lemma_value_is_first_match(chain, hash, key);
    assert forall|j: int|
        0 <= j < all.len() && (#[trigger] all[j]).hash == hash && all[j].key.eq_spec(
            &key,
        ) implies {
        let at = place_of(map.shards, j);
        &&& at.0 == d && at.1 == s
        &&& 0 <= at.2 < chain.len()
        &&& chain[at.2] == all[j]
        &&& j == all_entries(map.shards.take(d)).len() + entries(
            map.shards[d].shard.slots.take(s),
        ).len() + at.2
    } by {
        let at = lemma_listed_from(map.shards, j);
        assert(stands_in(map.shards, j, at));
        let found = place_of(map.shards, j);
        assert(stands_in(map.shards, j, found));
        let entry = map.shards[found.0].shard.slots[found.1].chain[found.2];
        assert(map.shards[found.0].shard.is_ordered());
    }
    assert forall|j: int, k: int|
        0 <= j < all.len() && 0 <= k < all.len() && (#[trigger] all[j]).hash == hash && (
        #[trigger] all[k]).hash == hash && all[j].key.eq_spec(&key) && all[k].key.eq_spec(
            &key,
        ) implies j == k by {
        let a = place_of(map.shards, j);
        let b = place_of(map.shards, k);
        let (x, y) = (chain[a.2], chain[b.2]);
        assert(key.eq_spec(&x.key) && key.eq_spec(&y.key));
        assert(x.key.eq_spec(&y.key) && y.key.eq_spec(&x.key));
    }
    match map.value(hash, key) {
        Some(value) => {
            let i = choose|i: int|
                {
                    &&& 0 <= i < chain.len()
                    &&& (#[trigger] chain[i]).hash == hash
                    &&& chain[i].key.eq_spec(&key)
                    &&& chain[i].value == value
                };
            let j = lemma_listed_at(map.shards, d, s, i);
            assert(all[j] == chain[i]);
        },
        None => {},
    }
}

/// The entry that is listed at `j` stands at the place.
spec fn stands_in<K, V>(shards: Seq<CellView<K, V>>, j: int, at: (int, int, int)) -> bool {
    &&& 0 <= at.0 < shards.len()
    &&& 0 <= at.1 < shards[at.0].shard.slots.len()
    &&& 0 <= at.2 < shards[at.0].shard.slots[at.1].chain.len()
    &&& shards[at.0].shard.slots[at.1].chain[at.2] == all_entries(shards)[j]
    &&& j == all_entries(shards.take(at.0)).len() + entries(
        shards[at.0].shard.slots.take(at.1),
    ).len() + at.2
}

/// A place where the entry stands that is listed at `j`.
spec fn place_of<K, V>(shards: Seq<CellView<K, V>>, j: int) -> (int, int, int) {
    choose|at: (int, int, int)| stands_in(shards, j, at)
}

/// How many entries there are after a key was given a value: one more where the key had none.
pub proof fn lemma_insert_counts<K: PartialEq, V>(
    before: MapView<K, V>,
    hash: u64,
    key: K,
    value: V,
    result: Option<V>,
    after: MapView<K, V>,
)
    requires
        K::obeys_eq_spec(),
        is_inserted(before, hash, key, value, result, after),
    ensures
        entry_count(after.shards) == entry_count(before.shards) + if before.value(
            hash,
            key,
        ) is None {
            1nat
        } else {
            0
        },
{
}

/// The slots of a shard are the fewest that give all the shards together as many slots as were
/// asked for; where none were, each has the default number.
pub proof fn lemma_slots_cover_capacity(capacity: nat, shard_amount: nat)
    requires
        0 < shard_amount,
    ensures
        capacity == 0 ==> slots_per_shard(capacity, shard_amount) == DEFAULT_SHARD_CAPACITY,
        capacity > 0 ==> {
            &&& capacity <= slots_per_shard(capacity, shard_amount) * shard_amount
            &&& (slots_per_shard(capacity, shard_amount) - 1) * shard_amount < capacity
        },
{
    if capacity > 0 {
        let n = shard_amount as int;
        let sum = capacity + n - 1;
        let q = sum / n;
        vstd::arithmetic::div_mod::lemma_fundamental_div_mod(sum, n);
        vstd::arithmetic::div_mod::lemma_mod_bound(sum, n);
        vstd::arithmetic::div_mod::lemma_div_pos_is_pos(sum, n);
        assert(capacity <= q * n && (q - 1) * n < capacity) by (nonlinear_arith)
            requires
                sum == n * q + sum % n,
                0 <= sum % n < n,
                sum == capacity + n - 1,
        ;
    }
}

/// Which bits of a hash tell its shard: the highest seven do not, and of the others the highest
/// do. Of two hashes that are alike but for those seven bits both are in one shard, and a hash
/// without them is in the shard that its place among all such hashes tells.
pub proof fn lemma_shard_bits<K, V>(map: MapView<K, V>, a: u64, b: u64)
    requires
        map.is_sharded(),
    ensures
        (a as usize) & (!0usize >> 7usize) == (b as usize) & (!0usize >> 7usize) ==> shard_of(
            a,
            map.shift,
        ) == shard_of(b, map.shift),
        a * 128 <= usize::MAX ==> shard_of(a, map.shift) as int == (a * 128) / pow2(
            map.shift as nat,
        ) as int,
{
    let x = a as usize;
    let y = b as usize;
    if x & (!0usize >> 7usize) == y & (!0usize >> 7usize) {
        assert(x << 7usize == y << 7usize) by (bit_vector)
            requires
                x & (!0usize >> 7usize) == y & (!0usize >> 7usize),
        ;
    }
    if a * 128 <= usize::MAX {
        vstd::arithmetic::power2::lemma2_to64();
        vstd::bits::lemma_usize_shl_is_mul(x, 7);
        vstd::bits::lemma_usize_shr_is_div(x << 7usize, map.shift);
    }
}

/// A map whose slot of a hash is replaced differs in that slot, in the count of its shard and in
/// the wake counters around it; every other slot of every shard is as it was.
pub proof fn lemma_only_slot_of_hash<K, V>(
    map: MapView<K, V>,
    hash: u64,
    slot: SlotView<K, V>,
    d: int,
    s: int,
)
    requires
        map.is_sharded(),
        map.is_ordered(),
        0 <= d < map.shards.len(),
        0 <= s < map.shards[d].shard.slots.len(),
    ensures
        map.with_slot(hash, slot).shards.len() == map.shards.len(),
        map.with_slot(hash, slot).shift == map.shift,
        map.with_slot(hash, slot).ref_count == map.ref_count,
        map.with_slot(hash, slot).slot(hash) == slot,
        d != shard_of(hash, map.shift) ==> map.with_slot(hash, slot).shards[d] == map.shards[d],
        map.with_slot(hash, slot).shards[d].shard.slots.len() == map.shards[d].shard.slots.len(),
        d != shard_of(hash, map.shift) || s != slot_of(hash, map.shards[d].shard.slots.len())
            ==> map.with_slot(hash, slot).shards[d].shard.slots[s]
            == map.shards[d].shard.slots[s],
        map.cell(hash) == map.shards[shard_of(hash, map.shift) as int],
        map.slot(hash) == map.cell(hash).shard.slots[slot_of(
            hash,
            map.cell(hash).shard.slots.len(),
        )],
{
    lemma_shard_in_range(map, hash);
    let e = shard_of(hash, map.shift) as int;
    assert(map.shards[e].shard.is_ordered());
    vstd::arithmetic::div_mod::lemma_mod_bound(
        hash as int,
        map.shards[e].shard.slots.len() as int,
    );
}

/// Clearing a map leaves it its shards, its slots and its handles, and no entry in any of them.
/// Visiting it and reading it through leave every entry in its place.
pub proof fn lemma_map_gone_through<K, V>(map: MapView<K, V>, d: int, s: int)
    requires
        0 <= d < map.shards.len(),
        0 <= s < map.shards[d].shard.slots.len(),
    ensures
        map.cleared().shards.len() == map.shards.len(),
        map.cleared().shards[d].shard.slots.len() == map.shards[d].shard.slots.len(),
        map.cleared().shards[d].shard.slots[s].chain.len() == 0,
        map.cleared().shards[d].shard.count == 0,
        map.cleared().shards[d].lock.lock.is_free(),
        map.cleared().shards[d].shard.slots[s].mutex.lock.is_free(),
        map.cleared().shift == map.shift,
        map.cleared().ref_count == map.ref_count,
        map.visited().shards.len() == map.shards.len(),
        map.visited().shards[d].shard == map.shards[d].shard,
        map.visited().shift == map.shift,
        map.visited().ref_count == map.ref_count,
        map.read_through().shards.len() == map.shards.len(),
        map.read_through().shards[d].shard.slots.len() == map.shards[d].shard.slots.len(),
        map.read_through().shards[d].shard.slots[s].chain == map.shards[d].shard.slots[s].chain,
        map.read_through().shards[d].shard.count == map.shards[d].shard.count,
        map.read_through().shift == map.shift,
        map.read_through().ref_count == map.ref_count,
        map.shards[d].lock.lock.is_free() ==> {
            &&& map.visited().shards[d].lock.lock.is_free()
            &&& map.read_through().shards[d].lock.lock.is_free()
        },
{
    lemma_shard_gone_through(map.shards[d].shard, s);
    lemma_mutex_steps(map.shards[d].lock);
    lemma_mutex_steps(map.shards[d].lock.claimed());
    lemma_mutex_steps(map.shards[d].lock.entered());
}

/// A new map has as many shards, and in each as many slots, as it was asked for; nobody holds
/// any of them, and none has an entry.
pub proof fn lemma_new_map<K, V>(shard_amount: nat, slots: nat, shift: usize, d: int, s: int)
    requires
        0 <= d < shard_amount,
        0 <= s < slots,
    ensures
        MapView::<K, V>::empty(shard_amount, slots, shift).shards.len() == shard_amount,
        MapView::<K, V>::empty(shard_amount, slots, shift).shards[d].shard.slots.len() == slots,
        MapView::<K, V>::empty(shard_amount, slots, shift).shards[d].shard.slots[s].chain.len()
            == 0,
        MapView::<K, V>::empty(shard_amount, slots, shift).shards[d].shard.count == 0,
        MapView::<K, V>::empty(shard_amount, slots, shift).shards[d].lock.lock.is_free(),
        MapView::<K, V>::empty(
            shard_amount,
            slots,
            shift,
        ).shards[d].shard.slots[s].mutex.lock.is_free(),
        MapView::<K, V>::empty(shard_amount, slots, shift).shift == shift,
        MapView::<K, V>::empty(shard_amount, slots, shift).ref_count == 1,
{
}

/// Whether a thread has to wait is told by the lock of the hash's shard and by that of the
/// hash's slot: one writer keeps everybody out, and readers of a slot keep a writer out of it.
/// Where a map is not open, readable or free, there is a shard or a slot with the holder that
/// makes it so.
pub proof fn lemma_who_may_enter<K, V>(map: MapView<K, V>, hash: u64, d: int, s: int)
    requires
        0 <= d < map.shards.len(),
        0 <= s < map.shards[d].shard.slots.len(),
    ensures
        map.admits_reader(hash) <==> {
            &&& !map.cell(hash).lock.lock.writer
            &&& !map.slot(hash).mutex.lock.writer
        },
        map.admits_writer(hash) <==> {
            &&& map.admits_reader(hash)
            &&& map.slot(hash).mutex.lock.readers == 0
        },
        map.is_idle() ==> map.is_open() && map.is_free() && map.shards[d].lock.lock.readers == 0,
        map.is_free() ==> map.is_readable() && map.shards[d].shard.slots[s].mutex.lock.readers
            == 0,
        map.is_open() ==> !map.shards[d].lock.lock.writer,
        map.is_readable() ==> !map.shards[d].shard.slots[s].mutex.lock.writer,
        map.is_free() && map.is_open() && (forall|e: int|
            0 <= e < map.shards.len() ==> (#[trigger] map.shards[e]).lock.lock.readers == 0)
            ==> map.is_idle(),
        !map.is_open() ==> exists|e: int|
            0 <= e < map.shards.len() && (#[trigger] map.shards[e]).lock.lock.writer,
        !map.is_readable() ==> exists|e: int, t: int|
            #![trigger map.shards[e].shard.slots[t]]
            0 <= e < map.shards.len() && 0 <= t < map.shards[e].shard.slots.len()
                && map.shards[e].shard.slots[t].mutex.lock.writer,
        !map.is_free() ==> exists|e: int, t: int|
            #![trigger map.shards[e].shard.slots[t]]
            0 <= e < map.shards.len() && 0 <= t < map.shards[e].shard.slots.len() && (
            map.shards[e].shard.slots[t].mutex.lock.writer
                || map.shards[e].shard.slots[t].mutex.lock.readers > 0),
{
}

impl<K, V> MapView<K, V> {
    /// A key's readers and writers need not wait on an idle map, nor on one whose locks let them
    /// in under each hash that the builder can give the key; and otherwise they may have to.
    pub proof fn lemma_opens<S>(self, hasher: S, key: K) where K: Hash, S: BuildHasher
        ensures
            self.is_idle() ==> self.opens_to_reader(hasher, key) && self.opens_to_writer(
                hasher,
                key,
            ),
            (forall|hash: u64| #[trigger] self.admits_reader(hash)) ==> self.opens_to_reader(
                hasher,
                key,
            ),
            (forall|hash: u64| #[trigger] self.admits_writer(hash)) ==> self.opens_to_writer(
                hasher,
                key,
            ),
            !self.is_idle() && self.opens_to_reader(hasher, key) ==> forall|hash: u64| #[trigger]
                gives_hash(hasher, key, hash) ==> self.admits_reader(hash),
            !self.is_idle() && self.opens_to_writer(hasher, key) ==> forall|hash: u64| #[trigger]
                gives_hash(hasher, key, hash) ==> self.admits_writer(hash),
    {
    }
}

/// How many entries there are after a key was taken out: one less where the key had a value.
pub proof fn lemma_remove_counts<K: PartialEq, V>(
    before: MapView<K, V>,
    hash: u64,
    key: K,
    result: Option<V>,
    after: MapView<K, V>,
)
    requires
        K::obeys_eq_spec(),
        before.is_sharded(),
        before.is_ordered(),
        is_removed(before, hash, key, result, after),
    ensures
        entry_count(after.shards) + (if before.value(hash, key) is Some {
            1nat
        } else {
            0
        }) == entry_count(before.shards),
        slot_count(after.shards) == slot_count(before.shards),
        after.ref_count == before.ref_count,
        after.shift == before.shift,
{
    lemma_shard_in_range(before, hash);
    let d = shard_of(hash, before.shift) as int;
    let cell = before.shards[d];
    assert(cell.shard.is_ordered());
    let s = slot_of(hash, cell.shard.slots.len());
    vstd::arithmetic::div_mod::lemma_mod_bound(
        (hash as usize) as int,
        cell.shard.slots.len() as int,
    );
    lemma_total_update(cell.shard.slots, s, after.slot(hash));
    lemma_count_update(before.shards, d, after.shards[d]);
    lemma_without_key_shape(before.slot(hash).chain, hash, key);
    assert(after.shards =~= before.shards.update(d, after.shards[d]));
}

} // verus!
