//! A bounded array that is filled from the front.
//!
//! [`AtomicArray`] is the record that the threads share: the slots, each with a mutex of its
//! own, the claimed tail, the number of elements, and the number of handles.

use crate::sync::mutex::Mutex;
use crate::sync::watch_guard_mut::WatchGuardMut;
use crate::sync::watch_guard_ref::WatchGuardRef;
use vstd::prelude::*;

verus! {

use crate::bits::{bumped, lowered};
use crate::sync::mutex::MutexView;

/// The capacity of an array for which none is asked.
pub const DEFAULT_ARRAY_CAP: usize = 32;

/// Nothing was written to a slot.
pub const EMPTY: usize = 0;

/// An element was written to a slot.
pub const WRITE: usize = 1;

/// A slot of an array.
#[derive(Debug)]
pub struct ArraySlot<T> {
    value: Option<T>,
    state: usize,
    lock: Mutex,
}

impl<T> ArraySlot<T> {
    spec fn is_empty(self) -> bool {
        self.state == EMPTY && self.value is None
    }

    spec fn is_full(self) -> bool {
        self.state == WRITE && self.value is Some
    }

    fn new() -> (slot: Self)
        ensures
            slot.is_empty(),
            slot.lock@ == MutexView::fresh(),
    {
        ArraySlot { value: None, state: EMPTY, lock: Mutex::new() }
    }

    /// Whether an element was written.
    fn is_written(&self) -> (written: bool)
        ensures
            self.is_full() ==> written,
            self.is_empty() ==> !written,
    {
        proof {
            assert(0usize & 1 == 0 && 1usize & 1 == 1) by (bit_vector);
        }
        self.state & WRITE != 0
    }

    fn write(&mut self, value: T)
        ensures
            final(self).is_full(),
            final(self).value == Some(value),
            final(self).lock == old(self).lock,
    {
        self.value = Some(value);
        self.state = WRITE;
    }
}

/// What a debug print of an [`AtomicArray`] shows.
#[derive(Clone, Copy, Debug, PartialEq, Eq, Structural)]
pub struct AtomicArrayReport {
    /// How many elements there are.
    pub len: usize,
    /// The capacity.
    pub capacity: usize,
}

/// The shared record of a bounded array.
#[derive(Debug)]
pub struct AtomicArray<T> {
    slots: Vec<ArraySlot<T>>,
    capacity: usize,
    head: usize,
    tail: usize,
    len: usize,
    ref_count: usize,
}

/// The tail after the slot at `tail` was claimed: none when every slot is taken.
pub open spec fn claimed(tail: usize, capacity: usize) -> Option<usize> {
    if tail >= capacity {
        None
    } else {
        Some((tail + 1) as usize)
    }
}

/// The tail that a thread puts in place of the tail it saw, to claim the slot at the latter:
/// none when the array is full. A thread that finds another tail in place asks again.
pub fn claim_slot(tail: usize, capacity: usize) -> (next: Option<usize>)
    ensures
        next == claimed(tail, capacity),
{
    if tail >= capacity {
        None
    } else {
        Some(tail + 1)
    }
}

/// The size of the chunks that `len` indices are split into.
pub open spec fn chunk_size(len: nat, num_chunks: nat) -> nat {
    ((len + num_chunks - 1) / num_chunks as int) as nat
}

/// The chunk `i` of `len` indices.
pub open spec fn chunk(len: nat, size: nat, i: int) -> (usize, usize) {
    (
        (i * size) as usize,
        if (i + 1) * size < len {
            ((i + 1) * size) as usize
        } else {
            len as usize
        },
    )
}

/// How many chunks of a size it takes to hold `len` indices.
pub open spec fn chunk_count(len: nat, size: nat) -> nat {
    chunk_size(len, size)
}

proof fn lemma_chunk_size(len: nat, num_chunks: nat)
    requires
        len > 0,
        num_chunks > 0,
    ensures
        chunk_size(len, num_chunks) > 0,
        len <= num_chunks * chunk_size(len, num_chunks) <= len + num_chunks - 1,
{
    let sum = len + num_chunks - 1;
    vstd::arithmetic::div_mod::lemma_fundamental_div_mod(sum, num_chunks as int);
    vstd::arithmetic::div_mod::lemma_mod_bound(sum, num_chunks as int);
    let q = sum / num_chunks as int;
    assert(q >= 1) by (nonlinear_arith)
        requires
            sum == num_chunks as int * q + sum % num_chunks as int,
            sum % (num_chunks as int) < num_chunks,
            sum >= num_chunks,
            num_chunks > 0,
    ;
}

/// The chunk `i` starts below `len` if and only if it is one of the counted ones.
proof fn lemma_chunk_bounds(len: nat, size: nat, num_chunks: nat, i: nat)
    requires
        len > 0,
        size > 0,
        i <= num_chunks,
        num_chunks * size >= len,
    ensures
        i * size < len <==> i < chunk_count(len, size),
        chunk_count(len, size) <= num_chunks,
        i * size <= num_chunks * size,
        i < num_chunks ==> (i + 1) * size <= num_chunks * size,
{
    lemma_chunk_size(len, size);
    let n = chunk_count(len, size);
    assert(i * size <= num_chunks * size) by (nonlinear_arith)
        requires
            i <= num_chunks,
    ;
    if i < num_chunks {
        assert((i + 1) * size <= num_chunks * size) by (nonlinear_arith)
            requires
                i + 1 <= num_chunks,
        ;
    }
    assert(n <= num_chunks) by (nonlinear_arith)
        requires
            size * n <= len + size - 1,
            num_chunks * size >= len,
            size > 0,
    ;
    if i < n {
        assert(i * size < len) by (nonlinear_arith)
            requires
                i + 1 <= n,
                size * n <= len + size - 1,
                size > 0,
        ;
    } else {
        assert(i * size >= len) by (nonlinear_arith)
            requires
                i >= n,
                size * n >= len,
        ;
    }
}

/// The chunks of [`AtomicArray::chunk_indices`] follow on each other without a gap: the first
/// one starts at zero, each is not empty and starts where the one before it ends, and the
/// last one ends at `len`.
pub proof fn lemma_chunks_partition(len: nat, num_chunks: nat, i: int)
    requires
        0 < len,
        0 < num_chunks,
        len + num_chunks <= usize::MAX,
        0 <= i < chunk_count(len, chunk_size(len, num_chunks)),
    ensures
        ({
            let size = chunk_size(len, num_chunks);
            let count = chunk_count(len, size);
            &&& 0 < count <= num_chunks
            &&& chunk(len, size, 0).0 == 0
            &&& chunk(len, size, i).0 < chunk(len, size, i).1 <= len
            &&& i + 1 < count ==> chunk(len, size, i).1 == chunk(len, size, i + 1).0
            &&& chunk(len, size, count - 1).1 == len
        }),
{
    let size = chunk_size(len, num_chunks);
    let count = chunk_count(len, size);
    lemma_chunk_size(len, num_chunks);
    lemma_chunk_size(len, size);
    lemma_chunk_bounds(len, size, num_chunks, 0);
    lemma_chunk_bounds(len, size, num_chunks, i as nat);
    lemma_chunk_bounds(len, size, num_chunks, (i + 1) as nat);
    lemma_chunk_bounds(len, size, num_chunks, (count - 1) as nat);
    lemma_chunk_bounds(len, size, num_chunks, count);
    assert(0 * size == 0) by (nonlinear_arith);
    assert(i * size < (i + 1) * size) by (nonlinear_arith)
        requires
            size > 0,
    ;
}

/// Work is split evenly: every chunk but the last has as many indices as the size says, and the
/// last has at least one and no more than that. The size is the smallest with which as many
/// chunks as were asked for hold all the indices.
pub proof fn lemma_chunks_even(len: nat, num_chunks: nat, i: int)
    requires
        0 < len,
        0 < num_chunks,
        len + num_chunks <= usize::MAX,
        0 <= i < chunk_count(len, chunk_size(len, num_chunks)),
    ensures
        ({
            let size = chunk_size(len, num_chunks);
            let count = chunk_count(len, size);
            &&& len <= num_chunks * size
            &&& num_chunks * (size - 1) < len
            &&& (count - 1) * size < len <= count * size
            &&& i + 1 < count ==> chunk(len, size, i).1 - chunk(len, size, i).0 == size
            &&& i + 1 == count ==> 0 < chunk(len, size, i).1 - chunk(len, size, i).0 <= size
            &&& chunk(len, size, i).0 == i * size
        }),
{
    let size = chunk_size(len, num_chunks);
    let count = chunk_count(len, size);
    lemma_chunk_size(len, num_chunks);
    lemma_chunk_size(len, size);
    lemma_chunks_partition(len, num_chunks, i);
    lemma_chunk_bounds(len, size, num_chunks, i as nat);
    lemma_chunk_bounds(len, size, num_chunks, (i + 1) as nat);
    lemma_chunk_bounds(len, size, num_chunks, (count - 1) as nat);
    lemma_chunk_bounds(len, size, num_chunks, count);
    assert(num_chunks * (size - 1) < len) by (nonlinear_arith)
        requires
            num_chunks * size <= len + num_chunks - 1,
            num_chunks > 0,
    ;
    assert((i + 1) * size == i * size + size) by (nonlinear_arith);
}

/// The indices come in at least one chunk and in no more than were asked for: in as many as it
/// takes, and with none to spare.
pub proof fn lemma_chunks_counted(len: nat, num_chunks: nat)
    requires
        0 < len,
        0 < num_chunks,
    ensures
        ({
            let size = chunk_size(len, num_chunks);
            let count = chunk_count(len, size);
            &&& 0 < size
            &&& len <= num_chunks * size < len + num_chunks
            &&& 0 < count <= num_chunks
            &&& (count - 1) * size < len <= count * size
        }),
{
    let size = chunk_size(len, num_chunks);
    let count = chunk_count(len, size);
    lemma_chunk_size(len, num_chunks);
    lemma_chunk_size(len, size);
    lemma_chunk_bounds(len, size, num_chunks, 0);
    lemma_chunk_bounds(len, size, num_chunks, (count - 1) as nat);
    assert(len <= count * size) by (nonlinear_arith)
        requires
            len <= size * count,
    ;
}

/// What stands at an index of an array is its element there, and nothing stands outside.
pub proof fn lemma_stands_at<T>(items: Seq<T>, index: int, item: T)
    ensures
        0 <= index < items.len() ==> stands_at(items, index, items[index]),
        stands_at(items, index, item) ==> 0 <= index < items.len() && items[index] == item,
{
}

/// The slots of an array are claimed one after the other from the tail on, each once, and all of
/// them.
pub proof fn lemma_claims_in_turn(tail: usize, capacity: usize)
    ensures
        tail < capacity ==> claimed(tail, capacity) == Some((tail + 1) as usize),
        tail >= capacity ==> claimed(tail, capacity) is None,
{
}

/// The item stands at the index.
pub open spec fn stands_at<T>(items: Seq<T>, index: int, item: T) -> bool {
    0 <= index < items.len() && items[index] == item
}

impl<T> AtomicArray<T> {
    /// The elements.
    pub closed spec fn view(&self) -> Seq<T> {
        Seq::new(self.len as nat, |i: int| self.slots@[i].value->0)
    }

    /// The most elements that the array can hold.
    pub closed spec fn cap(self) -> nat {
        self.capacity as nat
    }

    /// How many handles share the array.
    pub closed spec fn ref_count(self) -> usize {
        self.ref_count
    }

    /// The mutexes of the slots.
    pub closed spec fn locks(self) -> Seq<MutexView> {
        Seq::new(self.slots@.len(), |i: int| self.slots@[i].lock@)
    }

    /// The slots are as many as the capacity says, and the first of them are full.
    pub closed spec fn wf(self) -> bool {
        &&& self.slots@.len() == self.capacity
        &&& self.capacity > 0
        &&& self.head == 0
        &&& self.tail == self.len
        &&& self.len <= self.capacity
        &&& forall|i: int|
            0 <= i < self.capacity ==> if i < self.len {
                (#[trigger] self.slots@[i]).is_full()
            } else {
                self.slots@[i].is_empty()
            }
    }

    /// The facts that well-formedness says about the public parts.
    pub proof fn lemma_wf(self)
        requires
            self.wf(),
        ensures
            0 < self.cap() <= usize::MAX,
            self@.len() <= self.cap(),
            self.locks().len() == self.cap(),
    {
    }

    /// An empty array with the default capacity.
    pub fn new() -> (array: Self)
        ensures
            array.wf(),
            array@ == Seq::<T>::empty(),
            array.cap() == DEFAULT_ARRAY_CAP,
            array.ref_count() == 1,
            forall|i: int|
                0 <= i < array.cap() ==> #[trigger] array.locks()[i] == MutexView::fresh(),
    {
        Self::with_capacity(DEFAULT_ARRAY_CAP)
    }

    /// As many empty slots as asked.
    fn empty_slots(capacity: usize) -> (slots: Vec<ArraySlot<T>>)
        ensures
            slots@.len() == capacity,
            forall|i: int|
                0 <= i < capacity ==> {
                    &&& (#[trigger] slots@[i]).is_empty()
                    &&& slots@[i].lock@ == MutexView::fresh()
                },
    {
        let mut slots: Vec<ArraySlot<T>> = Vec::new();
        while slots.len() < capacity
            invariant
                slots@.len() <= capacity,
                forall|i: int|
                    0 <= i < slots@.len() ==> {
                        &&& (#[trigger] slots@[i]).is_empty()
                        &&& slots@[i].lock@ == MutexView::fresh()
                    },
            decreases capacity - slots@.len(),
        {
            slots.push(ArraySlot::new());
        }
        slots
    }

    /// An empty array for `capacity` elements, of which there has to be at least one.
    pub fn with_capacity(capacity: usize) -> (array: Self)
        requires
            capacity > 0,
        ensures
            array.wf(),
            array@ == Seq::<T>::empty(),
            array.cap() == capacity,
            array.ref_count() == 1,
            forall|i: int|
                0 <= i < array.cap() ==> #[trigger] array.locks()[i] == MutexView::fresh(),
    {
        let array = AtomicArray {
            slots: Self::empty_slots(capacity),
            capacity,
            head: 0,
            tail: 0,
            len: 0,
            ref_count: 1,
        };
        proof {
            assert(array@ =~= Seq::<T>::empty());
        }
        array
    }

    /// A full array of `cap` values that `initializer` gives, one after the other.
    pub fn init_with<F: FnMut() -> T>(cap: usize, initializer: F) -> (array: Self)
        requires
            cap > 0,
            initializer.requires(()),
        ensures
            array.wf(),
            array@.len() == cap,
            forall|i: int| 0 <= i < cap ==> initializer.ensures((), #[trigger] array@[i]),
            array.cap() == cap,
            array.ref_count() == 1,
            forall|i: int|
                0 <= i < array.cap() ==> #[trigger] array.locks()[i] == MutexView::fresh(),
    {
        let mut array = Self::with_capacity(cap);
        array.fill(initializer);
        array
    }

    /// Fills an empty array with the values that `initializer` gives.
    fn fill<F: FnMut() -> T>(&mut self, initializer: F)
        requires
            old(self).wf(),
            old(self)@.len() == 0,
            initializer.requires(()),
        ensures
            final(self).wf(),
            final(self)@.len() == old(self).cap(),
            forall|i: int|
                0 <= i < old(self).cap() ==> initializer.ensures((), #[trigger] final(self)@[i]),
            final(self).cap() == old(self).cap(),
            final(self).ref_count() == old(self).ref_count(),
            final(self).locks() == old(self).locks(),
    {
        let ghost given = initializer;
        let mut initializer = initializer;
        let mut i: usize = 0;
        while i < self.capacity
            invariant
                i <= self.capacity,
                initializer == given,
                given.requires(()),
                self.wf(),
                self@.len() == i,
                forall|j: int| 0 <= j < i ==> given.ensures((), #[trigger] self@[j]),
                self.capacity == old(self).capacity,
                self.ref_count == old(self).ref_count,
                self.locks() == old(self).locks(),
            decreases self.capacity - i,
        {
            let value = initializer();
            let ghost before = self@;
            let pushed = self.push(value);
            proof {
                assert forall|j: int| 0 <= j < i + 1 implies given.ensures(
                    (),
                    #[trigger] self@[j],
                ) by {
                    if j < i {
                        assert(self@[j] == before[j]);
                    }
                }
            }
            i += 1;
        }
    }

    /// How many elements there are.
    pub fn len(&self) -> (len: usize)
        requires
            self.wf(),
        ensures
            len == self@.len(),
    {
        self.len
    }

    /// Whether there is no element.
    pub fn is_empty(&self) -> (empty: bool)
        requires
            self.wf(),
        ensures
            empty == (self@.len() == 0),
    {
        self.len() == 0
    }

    /// The most elements that the array can hold.
    pub fn capacity(&self) -> (capacity: usize)
        ensures
            capacity == self.cap(),
    {
        self.capacity
    }

    /// Appends `value`, or gives it back when the array is full.
    pub fn push(&mut self, value: T) -> (result: Result<(), T>)
        requires
            old(self).wf(),
        ensures
            final(self).wf(),
            final(self).cap() == old(self).cap(),
            final(self).ref_count() == old(self).ref_count(),
            final(self).locks() == old(self).locks(),
            result is Err <==> old(self)@.len() >= old(self).cap(),
            result matches Err(back) ==> back == value && *final(self) == *old(self),
            result is Ok ==> final(self)@ == old(self)@.push(value),
    {
        let tail: usize = self.tail;
        match claim_slot(tail, self.capacity) {
            None => Err(value),
            Some(next) => {
                self.tail = next;
                self.slots[tail].write(value);
                self.len = self.len + 1;
                proof {
                    assert forall|i: int| 0 <= i < self.capacity implies if i < self.len {
                        (#[trigger] self.slots@[i]).is_full()
                    } else {
                        self.slots@[i].is_empty()
                    } by {
                        let slot = old(self).slots@[i];
                    }
                    assert(self@ =~= old(self)@.push(value));
                    assert(self.locks() =~= old(self).locks());
                }
                Ok(())
            },
        }
    }

    /// Locks the element at `index` for reading; `None` past the last element. No writer may
    /// hold the slot: a thread that finds one waits for it.
    pub fn get(&mut self, index: usize) -> (result: Option<WatchGuardRef<'_, T>>)
        requires
            old(self).wf(),
            index < old(self)@.len() ==> !old(self).locks()[index as int].lock.writer,
        ensures
            final(self).wf(),
            final(self)@ == old(self)@,
            final(self).cap() == old(self).cap(),
            final(self).ref_count() == old(self).ref_count(),
            result is None <==> index >= old(self)@.len(),
            result is None ==> final(self).locks() == old(self).locks(),
            result matches Some(guard) ==> {
                &&& *guard.data == old(self)@[index as int]
                &&& guard.lock@ == old(self).locks()[index as int].entered().with_handle()
                &&& final(self).locks() == old(self).locks().update(
                    index as int,
                    final(guard.lock)@,
                )
            },
    {
        if index >= self.len {
            return None;
        }
        let target: usize = self.head + index;
        if target >= self.capacity {
            return None;
        }
        let slot = &mut self.slots[target];
        slot.lock.lock_shared();
        slot.lock.clone_ref();
        match &slot.value {
            None => None,
            Some(value) => Some(WatchGuardRef::new(value, &mut slot.lock)),
        }
    }

    /// Locks the element at `index` for writing; `None` past the last element. Nobody may
    /// hold the slot: a thread that finds a holder waits for it.
    pub fn get_mut(&mut self, index: usize) -> (result: Option<WatchGuardMut<'_, T>>)
        requires
            old(self).wf(),
            index < old(self)@.len() ==> old(self).locks()[index as int].lock.is_free(),
        ensures
            final(self).wf(),
            final(self).cap() == old(self).cap(),
            final(self).ref_count() == old(self).ref_count(),
            result is None <==> index >= old(self)@.len(),
            result is None ==> final(self).locks() == old(self).locks() && final(self)@
                == old(self)@,
            result matches Some(guard) ==> {
                &&& *guard.data == old(self)@[index as int]
                &&& guard.lock@ == old(self).locks()[index as int].claimed().with_handle()
                &&& final(self)@ == old(self)@.update(index as int, *final(guard.data))
                &&& final(self).locks() == old(self).locks().update(
                    index as int,
                    final(guard.lock)@,
                )
            },
    {
        if index >= self.len {
            return None;
        }
        let target: usize = self.head + index;
        if target >= self.capacity {
            return None;
        }
        let slot = &mut self.slots[target];
        slot.lock.lock_exclusive();
        slot.lock.clone_ref();
        match &mut slot.value {
            None => None,
            Some(value) => Some(WatchGuardMut::new(value, &mut slot.lock)),
        }
    }

    /// Locks and unlocks every full slot, so that nobody is at work on it.
    fn settle(&mut self)
        requires
            old(self).wf(),
            forall|i: int|
                0 <= i < old(self)@.len() ==> (#[trigger] old(self).locks()[i]).lock.is_free(),
        ensures
            final(self).wf(),
            final(self)@ == old(self)@,
            final(self).cap() == old(self).cap(),
            final(self).ref_count() == old(self).ref_count(),
            forall|i: int|
                0 <= i < old(self).cap() ==> #[trigger] final(self).locks()[i] == if i
                    < old(self)@.len() {
                    old(self).locks()[i].claimed().released()
                } else {
                    old(self).locks()[i]
                },
    {
        let mut i: usize = 0;
        while i < self.len
            invariant
                i <= self.len,
                self.wf(),
                self@ == old(self)@,
                self.capacity == old(self).capacity,
                self.ref_count == old(self).ref_count,
                forall|j: int|
                    0 <= j < old(self)@.len() ==> (#[trigger] old(self).locks()[j]).lock.is_free(),
                forall|j: int|
                    0 <= j < self.capacity ==> #[trigger] self.locks()[j] == if j < i {
                        old(self).locks()[j].claimed().released()
                    } else {
                        old(self).locks()[j]
                    },
            decreases self.len - i,
        {
            let idx: usize = self.head + i;
            proof {
                assert(self.locks()[i as int] == old(self).locks()[i as int]);
                assert(self.slots@[i as int].is_full());
            }
            let ghost before = *self;
            if idx < self.capacity && self.slots[idx].is_written() {
                self.slots[idx].lock.lock_exclusive();
                self.slots[idx].lock.unlock_exclusive();
            }
            proof {
                self.lemma_only_lock(before, i as int);
            }
            i += 1;
        }
    }

    /// Only the mutex of the slot `i` differs from `before`.
    proof fn lemma_only_lock(self, before: Self, i: int)
        requires
            before.wf(),
            0 <= i < before.len,
            self.capacity == before.capacity,
            self.head == before.head,
            self.tail == before.tail,
            self.len == before.len,
            self.slots@.len() == before.slots@.len(),
            forall|j: int|
                0 <= j < before.slots@.len() && j != i ==> #[trigger] self.slots@[j]
                    == before.slots@[j],
            self.slots@[i].value == before.slots@[i].value,
            self.slots@[i].state == before.slots@[i].state,
        ensures
            self.wf(),
            self@ == before@,
            forall|j: int|
                0 <= j < before.slots@.len() && j != i ==> #[trigger] self.locks()[j]
                    == before.locks()[j],
            self.locks() == before.locks().update(i, self.slots@[i].lock@),
    {
        assert forall|j: int| 0 <= j < self.capacity implies if j < self.len {
            (#[trigger] self.slots@[j]).is_full()
        } else {
            self.slots@[j].is_empty()
        } by {
            let slot = before.slots@[j];
            assert(j < before.len ==> slot.is_full());
        }
        assert(self@ =~= before@);
        assert(self.locks() =~= before.locks().update(i, self.slots@[i].lock@));
    }

    /// Drops every element, makes `new_cap` new slots, and fills them with the values that
    /// `initializer` gives. Nobody may hold a full slot. Returns `new_cap`.
    pub fn reset_with(
        &mut self,
        new_cap: usize,
        initializer: impl FnMut() -> T,
    ) -> (result: Result<usize, usize>)
        requires
            old(self).wf(),
            new_cap > 0,
            initializer.requires(()),
            forall|i: int|
                0 <= i < old(self)@.len() ==> (#[trigger] old(self).locks()[i]).lock.is_free(),
        ensures
            final(self).wf(),
            result == Ok::<usize, usize>(new_cap),
            final(self)@.len() == new_cap,
            forall|i: int|
                0 <= i < new_cap ==> initializer.ensures((), #[trigger] final(self)@[i]),
            final(self).cap() == new_cap,
            final(self).ref_count() == old(self).ref_count(),
            forall|i: int|
                0 <= i < new_cap ==> #[trigger] final(self).locks()[i] == MutexView::fresh(),
    {
        self.settle();
        self.slots = Self::empty_slots(new_cap);
        self.capacity = new_cap;
        self.head = 0;
        self.tail = 0;
        self.len = 0;
        self.fill(initializer);
        Ok(new_cap)
    }

    /// Clones of the elements.
    pub fn as_vec(&self) -> (out: Vec<T>) where T: Clone
        requires
            self.wf(),
        ensures
            out@.len() == self@.len(),
            forall|i: int| 0 <= i < self@.len() ==> cloned(#[trigger] self@[i], out@[i]),
    {
        let mut out: Vec<T> = Vec::new();
        let mut i: usize = 0;
        while i < self.len
            invariant
                i <= self.len,
                self.wf(),
                out@.len() == i,
                forall|j: int| 0 <= j < i ==> cloned(#[trigger] self@[j], out@[j]),
            decreases self.len - i,
        {
            let target: usize = self.head + i;
            proof {
                assert(self.slots@[i as int].is_full());
            }
            if target < self.capacity {
                match &self.slots[target].value {
                    None => {},
                    Some(value) => {
                        out.push(value.clone());
                    },
                }
            }
            i += 1;
        }
        out
    }

    /// Calls `f` on every element, each locked for reading in its turn. No writer may hold a
    /// full slot.
    pub fn for_each<F>(&mut self, f: F) where F: FnMut(&T)
        requires
            old(self).wf(),
            forall|i: int|
                0 <= i < old(self)@.len() ==> !(#[trigger] old(self).locks()[i]).lock.writer,
            forall|i: int| 0 <= i < old(self)@.len() ==> f.requires((&#[trigger] old(self)@[i],)),
        ensures
            final(self).wf(),
            final(self)@ == old(self)@,
            final(self).cap() == old(self).cap(),
            final(self).ref_count() == old(self).ref_count(),
            forall|i: int|
                0 <= i < old(self)@.len() ==> f.ensures((&#[trigger] old(self)@[i],), ()),
            forall|i: int|
                0 <= i < old(self).cap() ==> #[trigger] final(self).locks()[i] == if i
                    < old(self)@.len() {
                    old(self).locks()[i].entered().left()
                } else {
                    old(self).locks()[i]
                },
    {
        let ghost given = f;
        let mut f = f;
        let mut i: usize = 0;
        while i < self.len
            invariant
                i <= self.len,
                f == given,
                self.wf(),
                self@ == old(self)@,
                self.capacity == old(self).capacity,
                self.ref_count == old(self).ref_count,
                forall|j: int|
                    0 <= j < old(self)@.len() ==> !(#[trigger] old(self).locks()[j]).lock.writer,
                forall|j: int|
                    0 <= j < old(self)@.len() ==> given.requires((&#[trigger] old(self)@[j],)),
                forall|j: int| 0 <= j < i ==> given.ensures((&#[trigger] old(self)@[j],), ()),
                forall|j: int|
                    0 <= j < self.capacity ==> #[trigger] self.locks()[j] == if j < i {
                        old(self).locks()[j].entered().left()
                    } else {
                        old(self).locks()[j]
                    },
            decreases self.len - i,
        {
            let idx: usize = self.head + i;
            proof {
                assert(self.locks()[i as int] == old(self).locks()[i as int]);
                assert(self.slots@[i as int].is_full());
                assert(self@[i as int] == old(self)@[i as int]);
            }
            let ghost before = *self;
            self.slots[idx].lock.lock_shared();
            match &self.slots[idx].value {
                None => {},
                Some(value) => {
                    f(value);
                },
            }
            self.slots[idx].lock.unlock_shared();
            proof {
                self.lemma_only_lock(before, i as int);
            }
            i += 1;
        }
    }

    /// Calls `f` on every element in place, each locked for writing in its turn. Nobody may
    /// hold a full slot.
    pub fn for_each_mut<F>(&mut self, f: F) where F: FnMut(&mut T)
        requires
            old(self).wf(),
            forall|i: int|
                0 <= i < old(self)@.len() ==> (#[trigger] old(self).locks()[i]).lock.is_free(),
            forall|i: int, value: &mut T|
                0 <= i < old(self)@.len() && *value == #[trigger] old(self)@[i]
                    ==> #[trigger] f.requires((value,)),
        ensures
            final(self).wf(),
            final(self)@.len() == old(self)@.len(),
            final(self).cap() == old(self).cap(),
            final(self).ref_count() == old(self).ref_count(),
            forall|i: int, after: T| #[trigger]
                stands_at(final(self)@, i, after) ==> exists|value: &mut T|
                    {
                        &&& *value == old(self)@[i]
                        &&& *final(value) == after
                        &&& #[trigger] f.ensures((value,), ())
                    },
            forall|i: int|
                0 <= i < old(self).cap() ==> #[trigger] final(self).locks()[i] == if i
                    < old(self)@.len() {
                    old(self).locks()[i].claimed().released()
                } else {
                    old(self).locks()[i]
                },
    {
        let ghost given = f;
        let mut f = f;
        let mut i: usize = 0;
        while i < self.len
            invariant
                i <= self.len,
                f == given,
                self.wf(),
                self.len == old(self).len,
                self.capacity == old(self).capacity,
                self.ref_count == old(self).ref_count,
                forall|j: int|
                    0 <= j < old(self)@.len() ==> (#[trigger] old(self).locks()[j]).lock.is_free(),
                forall|j: int, value: &mut T|
                    0 <= j < old(self)@.len() && *value == #[trigger] old(self)@[j]
                        ==> #[trigger] given.requires((value,)),
                forall|j: int|
                    i <= j < old(self)@.len() ==> #[trigger] self@[j] == old(self)@[j],
                forall|j: int, after: T|
                    j < i && #[trigger] stands_at(self@, j, after) ==> exists|value: &mut T|
                        {
                            &&& *value == old(self)@[j]
                            &&& *final(value) == after
                            &&& #[trigger] given.ensures((value,), ())
                        },
                forall|j: int|
                    0 <= j < self.capacity ==> #[trigger] self.locks()[j] == if j < i {
                        old(self).locks()[j].claimed().released()
                    } else {
                        old(self).locks()[j]
                    },
            decreases self.len - i,
        {
            let idx: usize = self.head + i;
            proof {
                assert(self.locks()[i as int] == old(self).locks()[i as int]);
                assert(self.slots@[i as int].is_full());
                assert(self@[i as int] == old(self)@[i as int]);
            }
            let ghost before = *self;
            self.slots[idx].lock.lock_exclusive();
            match &mut self.slots[idx].value {
                None => {},
                Some(value) => {
                    f(value);
                },
            }
            self.slots[idx].lock.unlock_exclusive();
            proof {
                self.lemma_only_slot(before, i as int);
                assert forall|j: int, after: T|
                    j < i + 1 && #[trigger] stands_at(
                        self@,
                        j,
                        after,
                    ) implies exists|value: &mut T|
                    {
                        &&& *value == old(self)@[j]
                        &&& *final(value) == after
                        &&& #[trigger] given.ensures((value,), ())
                    } by {
                    if j < i {
                        assert(stands_at(before@, j, after));
                    }
                }
            }
            i += 1;
        }
    }

    /// Only the slot `i` differs from `before`, and it is full as before.
    proof fn lemma_only_slot(self, before: Self, i: int)
        requires
            before.wf(),
            0 <= i < before.len,
            self.capacity == before.capacity,
            self.head == before.head,
            self.tail == before.tail,
            self.len == before.len,
            self.slots@.len() == before.slots@.len(),
            forall|j: int|
                0 <= j < before.slots@.len() && j != i ==> #[trigger] self.slots@[j]
                    == before.slots@[j],
            self.slots@[i].is_full(),
        ensures
            self.wf(),
            self@ == before@.update(i, self.slots@[i].value->0),
            forall|j: int|
                0 <= j < before.slots@.len() && j != i ==> #[trigger] self.locks()[j]
                    == before.locks()[j],
            self.locks() == before.locks().update(i, self.slots@[i].lock@),
    {
        assert forall|j: int| 0 <= j < self.capacity implies if j < self.len {
            (#[trigger] self.slots@[j]).is_full()
        } else {
            self.slots@[j].is_empty()
        } by {
            let slot = before.slots@[j];
            assert(j < before.len ==> slot.is_full());
        }
        assert(self@ =~= before@.update(i, self.slots@[i].value->0));
        assert(self.locks() =~= before.locks().update(i, self.slots@[i].lock@));
    }

    /// Splits the indices of the elements into at most `num_chunks` ranges of the same size,
    /// the last one shorter where it does not come out even.
    pub fn chunk_indices(&self, num_chunks: usize) -> (chunks: Vec<(usize, usize)>)
        requires
            self.wf(),
            self@.len() + num_chunks <= usize::MAX,
        ensures
            self@.len() == 0 || num_chunks == 0 ==> chunks@.len() == 0,
            self@.len() > 0 && num_chunks > 0 ==> {
                let size = chunk_size(self@.len(), num_chunks as nat);
                &&& chunks@.len() == chunk_count(self@.len(), size)
                &&& forall|i: int|
                    0 <= i < chunks@.len() ==> #[trigger] chunks@[i] == chunk(
                        self@.len(),
                        size,
                        i,
                    )
            },
    {
        let mut chunks: Vec<(usize, usize)> = Vec::new();
        let len: usize = self.len();
        if len == 0 || num_chunks == 0 {
            return chunks;
        }
        let size: usize = (len + num_chunks - 1) / num_chunks;
        proof {
            lemma_chunk_size(len as nat, num_chunks as nat);
        }
        let mut i: usize = 0;
        while i < num_chunks
            invariant
                i <= num_chunks,
                len > 0,
                size > 0,
                size == chunk_size(len as nat, num_chunks as nat),
                num_chunks * size <= len + num_chunks - 1,
                len + num_chunks <= usize::MAX,
                num_chunks * size >= len,
                chunks@.len() == if i < chunk_count(len as nat, size as nat) {
                    i as nat
                } else {
                    chunk_count(len as nat, size as nat)
                },
                forall|j: int|
                    0 <= j < chunks@.len() ==> #[trigger] chunks@[j] == chunk(
                        len as nat,
                        size as nat,
                        j,
                    ),
            decreases num_chunks - i,
        {
            proof {
                lemma_chunk_bounds(len as nat, size as nat, num_chunks as nat, i as nat);
            }
            let start: usize = i * size;
            let past: usize = (i + 1) * size;
            let end: usize = if past < len {
                past
            } else {
                len
            };
            if start < len {
                chunks.push((start, end));
            }
            i += 1;
        }
        proof {
            lemma_chunk_bounds(len as nat, size as nat, num_chunks as nat, num_chunks as nat);
        }
        chunks
    }

    /// The first items that fit in an array for `lower` elements, or for the default number
    /// where that is more. Items past the capacity are dropped.
    pub fn from_hinted(lower: usize, items: Vec<T>) -> (array: Self)
        ensures
            array.wf(),
            array.cap() == if lower > DEFAULT_ARRAY_CAP {
                lower
            } else {
                DEFAULT_ARRAY_CAP
            },
            array@ == items@.take(
                if items@.len() <= array.cap() {
                    items@.len() as int
                } else {
                    array.cap() as int
                },
            ),
            array.ref_count() == 1,
            forall|i: int|
                0 <= i < array.cap() ==> #[trigger] array.locks()[i] == MutexView::fresh(),
    {
        let capacity: usize = if lower > DEFAULT_ARRAY_CAP {
            lower
        } else {
            DEFAULT_ARRAY_CAP
        };
        let mut array = Self::with_capacity(capacity);
        let ghost all = items@;
        proof {
            assert(array@ =~= all.take(0));
        }
        for item in it: items
            invariant
                it.seq() == all,
                array.wf(),
                array.cap() == capacity,
                array.ref_count() == 1,
                forall|i: int|
                    0 <= i < array.cap() ==> #[trigger] array.locks()[i] == MutexView::fresh(),
                array@ == all.take(
                    if it.index() <= capacity {
                        it.index() as int
                    } else {
                        capacity as int
                    },
                ),
        {
            let ghost before = array@;
            let pushed = array.push(item);
            proof {
                if it.index() < capacity {
                    assert(array@ =~= all.take(it.index() as int + 1));
                }
            }
        }
        array
    }

    /// An array of the items, with room for the default number of elements at least.
    pub fn from_iter(items: Vec<T>) -> (array: Self)
        ensures
            array.wf(),
            array@ == items@,
            array.cap() == if items@.len() > DEFAULT_ARRAY_CAP {
                items@.len()
            } else {
                DEFAULT_ARRAY_CAP as nat
            },
            array.ref_count() == 1,
            forall|i: int|
                0 <= i < array.cap() ==> #[trigger] array.locks()[i] == MutexView::fresh(),
    {
        let array = Self::from_hinted(items.len(), items);
        proof {
            assert(items@.take(items@.len() as int) =~= items@);
        }
        array
    }

    /// Counts one handle more.
    pub fn clone_ref(&mut self)
        requires
            old(self).wf(),
        ensures
            final(self).wf(),
            final(self)@ == old(self)@,
            final(self).cap() == old(self).cap(),
            final(self).locks() == old(self).locks(),
            final(self).ref_count() == bumped(old(self).ref_count()),
    {
        self.ref_count = self.ref_count.wrapping_add(1);
    }

    /// Counts one handle less, and says whether it was the last.
    pub fn drop_ref(&mut self) -> (last: bool)
        requires
            old(self).wf(),
        ensures
            final(self).wf(),
            last == (old(self).ref_count() == 1),
            final(self)@ == old(self)@,
            final(self).cap() == old(self).cap(),
            final(self).locks() == old(self).locks(),
            final(self).ref_count() == lowered(old(self).ref_count()),
    {
        let previous: usize = self.ref_count;
        self.ref_count = previous.wrapping_sub(1);
        previous == 1
    }

    /// What a debug print of the array shows.
    pub fn report(&self) -> (report: AtomicArrayReport)
        requires
            self.wf(),
        ensures
            report.len == self@.len(),
            report.capacity == self.cap(),
    {
        AtomicArrayReport { len: self.len(), capacity: self.capacity() }
    }
}

impl<T> Default for AtomicArray<T> {
    fn default() -> (array: Self)
        ensures
            array.wf(),
            array@ == Seq::<T>::empty(),
            array.cap() == DEFAULT_ARRAY_CAP,
            array.ref_count() == 1,
            forall|i: int|
                0 <= i < array.cap() ==> #[trigger] array.locks()[i] == MutexView::fresh(),
    {
        Self::new()
    }
}

} // verus!
