//! The blocks that a vector keeps its elements in.

use crate::atomic::index::{BLOCK_CAP, BLOCK_CAP_MASK};
use vstd::prelude::*;

verus! {

/// The state of a slot that was never written.
pub const EMPTY: usize = 0;

/// The state of a slot that holds an element.
pub const WRITE: usize = 1;

/// The state of a slot whose element was taken.
pub const READ: usize = 2;

/// Where the count of pending readers starts in a block's counters.
pub const PENDING_SHIFT: u32 = 32;

/// The bits of the count of slots read.
pub const READ_MASK: u64 = 0xFFFF_FFFF;

/// One pending reader.
pub const PENDING_ONE: u64 = 0x1_0000_0000;

/// The pending readers that a block's counters tell.
pub open spec fn pending(counters: u64) -> u32 {
    (counters as int / 0x1_0000_0000) as u32
}

/// The slots read that a block's counters tell.
pub open spec fn read(counters: u64) -> u32 {
    (counters as int % 0x1_0000_0000) as u32
}

/// The counters that tell `pending` and `read`.
pub fn pack_counters(pending: u32, read: u32) -> (counters: u64)
    ensures
        self::pending(counters) == pending,
        self::read(counters) == read,
        counters == pending * 0x1_0000_0000 + read,
{
    let p: u64 = pending as u64;
    let r: u64 = read as u64;
    proof {
        assert(p <= 0xffff_ffff && r <= 0xffff_ffff ==> (p << 32u32) | r == p * 0x1_0000_0000
            + r) by (bit_vector);
    }
    (p << PENDING_SHIFT) | r
}

/// The pending readers that `val` tells.
pub fn unpack_pending(val: u64) -> (count: u32)
    ensures
        count == pending(val),
{
    proof {
        assert(val >> 32u32 == val / 0x1_0000_0000 && val >> 32u32 <= 0xffff_ffff)
            by (bit_vector);
    }
    (val >> PENDING_SHIFT) as u32
}

/// The slots read that `val` tells.
pub fn unpack_read(val: u64) -> (count: u32)
    ensures
        count == read(val),
{
    proof {
        assert(val & 0xffff_ffff == val % 0x1_0000_0000 && val & 0xffff_ffff <= 0xffff_ffff)
            by (bit_vector);
    }
    (val & READ_MASK) as u32
}

/// What packing joined, unpacking parts again, and the other way round.
pub proof fn lemma_counters_round_trip(counters: u64)
    ensures
        counters == pending(counters) * 0x1_0000_0000 + read(counters),
{
}

/// One place for an element.
#[derive(Debug)]
pub struct Slot<T> {
    /// Whether an element was written or taken.
    pub state: usize,
    /// The element.
    pub value: Option<T>,
}

impl<T> Slot<T> {
    /// Nothing was written.
    pub open spec fn is_empty(self) -> bool {
        self.state == EMPTY && self.value is None
    }

    /// An element is there.
    pub open spec fn is_written(self) -> bool {
        self.state == WRITE && self.value is Some
    }

    /// The element was taken.
    pub open spec fn is_taken(self) -> bool {
        self.state == READ && self.value is None
    }
}

/// A run of slots, with the counts of the readers at work and of the slots they have read.
#[derive(Debug)]
pub struct Block<T> {
    /// The pending readers and the slots read.
    pub counters: u64,
    /// The slots, the gap included.
    pub slots: Vec<Slot<T>>,
}

impl<T> Block<T> {
    /// The block has all of its slots.
    pub open spec fn wf(self) -> bool {
        self.slots.len() == BLOCK_CAP
    }

    /// The block is as a new one.
    pub open spec fn is_fresh(self) -> bool {
        &&& self.wf()
        &&& self.counters == 0
        &&& forall|o: int| 0 <= o < BLOCK_CAP ==> (#[trigger] self.slots@[o]).is_empty()
    }

    /// A block with empty slots.
    pub fn new() -> (block: Self)
        ensures
            block.is_fresh(),
    {
        let mut slots: Vec<Slot<T>> = Vec::with_capacity(BLOCK_CAP);
        while slots.len() < BLOCK_CAP
            invariant
                slots.len() <= BLOCK_CAP,
                forall|o: int| 0 <= o < slots.len() ==> (#[trigger] slots@[o]).is_empty(),
            decreases BLOCK_CAP - slots.len(),
        {
            slots.push(Slot { state: EMPTY, value: None });
        }
        Block { counters: 0, slots }
    }

    /// Makes the block as new.
    pub fn reset(&mut self)
        requires
            old(self).wf(),
        ensures
            final(self).is_fresh(),
    {
        self.counters = 0;
        let mut i: usize = 0;
        while i < self.slots.len()
            invariant
                i <= self.slots.len(),
                self.slots.len() == BLOCK_CAP,
                self.counters == 0,
                forall|o: int| 0 <= o < i ==> (#[trigger] self.slots@[o]).is_empty(),
            decreases self.slots.len() - i,
        {
            self.slots[i] = Slot { state: EMPTY, value: None };
            i += 1;
        }
    }

    /// Counts one more pending reader. Returns the counters before.
    pub fn inc_pending(&mut self) -> (before: u64)
        ensures
            before == old(self).counters,
            final(self).slots == old(self).slots,
            read(final(self).counters) == read(old(self).counters),
            pending(final(self).counters) == if pending(old(self).counters) == u32::MAX {
                0
            } else {
                (pending(old(self).counters) + 1) as u32
            },
    {
        let before: u64 = self.counters;
        self.counters = before.wrapping_add(PENDING_ONE);
        before
    }

    /// A pending reader has read its slot: one pending reader less, one slot read more.
    /// Returns both counts.
    pub fn dec_pending_inc_read(&mut self) -> (counts: (u32, u32))
        requires
            pending(old(self).counters) > 0,
            read(old(self).counters) < u32::MAX,
        ensures
            final(self).slots == old(self).slots,
            pending(final(self).counters) == pending(old(self).counters) - 1,
            read(final(self).counters) == read(old(self).counters) + 1,
            counts.0 == pending(final(self).counters),
            counts.1 == read(final(self).counters),
    {
        let delta: u64 = 1u64.wrapping_sub(PENDING_ONE);
        let new: u64 = self.counters.wrapping_add(delta);
        self.counters = new;
        (unpack_pending(new), unpack_read(new))
    }

    /// A pending reader gave up: one pending reader less.
    pub fn dec_pending(&mut self)
        requires
            pending(old(self).counters) > 0,
        ensures
            final(self).slots == old(self).slots,
            pending(final(self).counters) == pending(old(self).counters) - 1,
            read(final(self).counters) == read(old(self).counters),
    {
        self.counters = self.counters.wrapping_sub(PENDING_ONE);
    }

    /// Writes `value` into the slot at `offset`.
    pub fn write(&mut self, offset: usize, value: T)
        requires
            old(self).wf(),
            offset < BLOCK_CAP,
        ensures
            final(self).counters == old(self).counters,
            final(self).slots@ == old(self).slots@.update(
                offset as int,
                Slot { state: WRITE, value: Some(value) },
            ),
    {
        self.slots[offset] = Slot { state: WRITE, value: Some(value) };
    }

    /// Exchanges the element of the slot at `offset` with `other`.
    pub fn exchange(&mut self, offset: usize, other: &mut Option<T>)
        requires
            old(self).wf(),
            offset < BLOCK_CAP,
        ensures
            final(self).counters == old(self).counters,
            *final(other) == old(self).slots@[offset as int].value,
            final(self).slots@ == old(self).slots@.update(
                offset as int,
                Slot { state: old(self).slots@[offset as int].state, value: *old(other) },
            ),
    {
        std::mem::swap(&mut self.slots[offset].value, other);
        proof {
            assert(self.slots@ =~= old(self).slots@.update(
                offset as int,
                Slot { state: old(self).slots@[offset as int].state, value: *old(other) },
            ));
        }
    }

    /// Takes the element out of the slot at `offset`, which has to be written.
    pub fn take(&mut self, offset: usize) -> (value: T)
        requires
            old(self).wf(),
            offset < BLOCK_CAP,
            old(self).slots@[offset as int].is_written(),
        ensures
            final(self).counters == old(self).counters,
            old(self).slots@[offset as int].value == Some(value),
            final(self).slots@ == old(self).slots@.update(
                offset as int,
                Slot { state: READ, value: None },
            ),
    {
        let value = self.slots[offset].value.take();
        self.slots[offset].state = READ;
        proof {
            assert(self.slots@ =~= old(self).slots@.update(
                offset as int,
                Slot { state: READ, value: None },
            ));
        }
        value.unwrap()
    }
}

/// The tag of a cache entry that names no block.
pub const NO_BLOCK: usize = usize::MAX;

/// An entry of the block cache: the number of a block, and whether the block is there.
#[derive(Clone, Copy, Debug, PartialEq, Eq, Structural)]
pub struct BlockEntry {
    /// The number of the block.
    pub tagged: usize,
    /// The block is there.
    pub present: bool,
}

/// A cache that tells by their numbers which blocks are in the chain. A block's entry is
/// found by the low bits of its number, so a later block may have taken it over.
#[derive(Debug)]
pub struct BlockArray {
    entries: Vec<BlockEntry>,
}

impl BlockArray {
    /// The entries.
    pub closed spec fn view(&self) -> Seq<BlockEntry> {
        self.entries@
    }

    /// There is an entry for each value of the low bits.
    pub open spec fn wf(self) -> bool {
        self@.len() == BLOCK_CAP
    }

    /// The cache says that the block `idx` is in the chain.
    pub open spec fn has(self, idx: usize) -> bool {
        self@[idx as int % 32] == BlockEntry { tagged: idx, present: true }
    }

    /// A cache that names no block.
    pub fn new() -> (cache: Self)
        ensures
            cache.wf(),
            forall|i: int|
                0 <= i < BLOCK_CAP ==> #[trigger] cache@[i] == (BlockEntry {
                    tagged: NO_BLOCK,
                    present: false,
                }),
    {
        let mut entries: Vec<BlockEntry> = Vec::with_capacity(BLOCK_CAP);
        while entries.len() < BLOCK_CAP
            invariant
                entries.len() <= BLOCK_CAP,
                forall|i: int|
                    0 <= i < entries.len() ==> #[trigger] entries@[i] == (BlockEntry {
                        tagged: NO_BLOCK,
                        present: false,
                    }),
            decreases BLOCK_CAP - entries.len(),
        {
            entries.push(BlockEntry { tagged: NO_BLOCK, present: false });
        }
        BlockArray { entries }
    }

    /// Whether the block `idx` is cached.
    pub fn get(&self, idx: usize) -> (found: bool)
        requires
            self.wf(),
        ensures
            found == self.has(idx),
    {
        proof {
            crate::atomic::index::lemma_index_bits(idx);
        }
        let entry = self.entries[idx & BLOCK_CAP_MASK];
        if entry.tagged == idx {
            entry.present
        } else {
            false
        }
    }

    /// Notes under the number `idx` that the block is there, or that it is not.
    pub fn set(&mut self, idx: usize, present: bool)
        requires
            old(self).wf(),
        ensures
            final(self).wf(),
            final(self)@ == old(self)@.update(
                idx as int % 32,
                BlockEntry { tagged: idx, present },
            ),
    {
        proof {
            crate::atomic::index::lemma_index_bits(idx);
        }
        self.entries[idx & BLOCK_CAP_MASK] = BlockEntry { tagged: idx, present };
    }

    /// Forgets the block that the entry of the number `idx` names, whichever it is.
    pub fn clear(&mut self, idx: usize)
        requires
            old(self).wf(),
        ensures
            final(self).wf(),
            final(self)@ == old(self)@.update(
                idx as int % 32,
                BlockEntry { tagged: NO_BLOCK, present: old(self)@[idx as int % 32].present },
            ),
    {
        proof {
            crate::atomic::index::lemma_index_bits(idx);
        }
        let slot: usize = idx & BLOCK_CAP_MASK;
        let present = self.entries[slot].present;
        self.entries[slot] = BlockEntry { tagged: NO_BLOCK, present };
    }
}

/// A slot is empty, written or taken, and never two of these; it holds an element exactly where
/// it is written.
pub proof fn lemma_slot_states<T>(slot: Slot<T>)
    ensures
        slot.is_empty() ==> slot.state == 0 && slot.value is None,
        slot.is_written() ==> slot.state == 1 && slot.value is Some,
        slot.is_taken() ==> slot.state == 2 && slot.value is None,
        slot.state == 0 && slot.value is None ==> slot.is_empty(),
        slot.state == 1 && slot.value is Some ==> slot.is_written(),
        slot.state == 2 && slot.value is None ==> slot.is_taken(),
{
}

/// A new block counts nothing and holds nothing, in each of its slots.
pub proof fn lemma_fresh_block<T>(block: Block<T>, offset: int)
    requires
        block.is_fresh(),
        0 <= offset < block.slots@.len(),
    ensures
        block.slots@.len() == 32,
        pending(block.counters) == 0,
        read(block.counters) == 0,
        block.slots@[offset].state == 0,
        block.slots@[offset].value is None,
{
    assert(block.slots@[offset].is_empty());
}

impl BlockArray {
    /// An entry names one block at most: of the blocks that share it, the cache has none or one.
    pub proof fn lemma_names_one_block(self, idx: usize, other: usize)
        requires
            self.wf(),
            self.has(idx),
        ensures
            self@.len() == 32,
            self@[idx as int % 32].tagged == idx,
            self@[idx as int % 32].present,
            idx as int % 32 == other as int % 32 && self.has(other) ==> idx == other,
    {
    }
}

} // verus!
