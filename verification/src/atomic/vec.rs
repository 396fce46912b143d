//! A first-in first-out vector that is kept in blocks.
//!
//! Elements are pushed at the tail and popped at the head. [`AtomicVec`] is the record that
//! the threads share: the two indices, the chain of blocks from the head's to the tail's,
//! the blocks kept for reuse, and those that wait until no reader is at work on them.

use crate::atomic::block::{unpack_pending, Block, BlockArray, WRITE};
use crate::atomic::buffer::AtomicBuffer;
use crate::atomic::index::{
    block_of, head_past_gap, offset_of, pop_plan, position_of, push_plan, PopPlan, PushPlan,
    BLOCK_CAP, BLOCK_CAP_MASK,
};
use vstd::prelude::*;

verus! {

use crate::atomic::block::{pending, read, BlockEntry, Slot, NO_BLOCK};
use crate::atomic::index::{flagged, position, rank};
use crate::bits::{bumped, lowered, word_values};
use crate::order::{is_run, lemma_first_in_first_out, put, taken, Event};
use vstd::arithmetic::power2::is_pow2;
use vstd::std_specs::cmp::PartialEqSpec;

/// How many blocks are kept for reuse.
pub const FREE_BLOCKS: usize = 64;

/// How many blocks can wait for their last readers.
pub const RECYCLE_BLOCKS: usize = 32;

/// A block whose slots were all read while readers were still at work on it.
#[derive(Debug)]
pub struct RecycleEntry<T> {
    /// The block.
    pub block: Block<T>,
    /// Its number.
    pub block_idx: usize,
}

/// The shared record of a first-in first-out vector.
#[derive(Debug)]
pub struct AtomicVec<T> {
    head_index: usize,
    tail_index: usize,
    len: usize,
    chain: Vec<Block<T>>,
    block_array: BlockArray,
    free_list: AtomicBuffer<Block<T>>,
    recycle_queue: AtomicBuffer<RecycleEntry<T>>,
    ref_count: usize,
    exclusive_lock: usize,
}

/// What a debug print of an [`AtomicVec`] shows.
#[derive(Clone, Copy, Debug, PartialEq, Eq, Structural)]
pub struct AtomicVecReport {
    /// How many elements there are.
    pub len: usize,
    /// The capacity.
    pub capacity: usize,
}

/// How many pushes the indices can count in all before they would wrap.
pub open spec fn push_limit() -> int {
    (word_values() / 64) * 31 - 1
}

/// The position of the slot after the slot at `pos`: the gap of a block is passed over.
pub open spec fn next_pos(pos: nat) -> nat {
    if pos % 32 == 30 {
        pos + 2
    } else {
        pos + 1
    }
}

/// Where a walk over the elements is.
struct Walk {
    /// The block, counted from the head's.
    block: usize,
    /// The position of the block's first slot.
    block_start: usize,
    /// The slot of the block that comes next.
    offset: usize,
    /// The position of the tail.
    end: usize,
}

/// Combining `init` with the items by `f`, the first one first, can give `result`.
pub open spec fn folds_to<T, B, F: Fn(B, &T) -> B>(f: F, init: B, items: Seq<T>, result: B) -> bool
    decreases items.len(),
{
    if items.len() == 0 {
        result == init
    } else {
        exists|acc: B|
            folds_to(f, init, items.drop_last(), acc) && #[trigger] f.ensures(
                (acc, &items.last()),
                result,
            )
    }
}

/// How many slots an end position is past a start position, where every run of positions as
/// long as a block is taken to hold one gap.
pub open spec fn block_len(start: nat, end: nat) -> nat {
    if end <= start {
        0
    } else {
        let span = (end - start) as nat;
        span / 32 * 31 + if span % 32 < 31 {
            span % 32
        } else {
            31
        }
    }
}

/// The position at which [`AtomicVec::get`] looks for an index.
pub open spec fn get_pos(head: nat, index: nat) -> nat {
    head + (head + index) % 32 + (head + index) / 31
}

/// The element that an index of [`AtomicVec::swap`] names.
pub open spec fn swap_index(head: nat, index: nat) -> int {
    if index < 31 {
        index as int
    } else {
        index - head % 32
    }
}

/// An index names an element for [`AtomicVec::swap`].
pub open spec fn swappable(head: nat, tail: nat, index: nat) -> bool {
    &&& index < block_len(head, tail)
    &&& index < 31 ==> head % 32 + index < 31
}

/// The items with two of them exchanged.
pub open spec fn exchanged<T>(items: Seq<T>, i: int, j: int) -> Seq<T> {
    items.update(i, items[j]).update(j, items[i])
}

/// How many slots `end` is past `start`, by [`block_len`].
pub fn calc_len(start: usize, end: usize) -> (len: usize)
    ensures
        len == block_len(start as nat, end as nat),
{
    if end <= start {
        return 0;
    }
    let total_slots: usize = end - start;
    let full_blocks: usize = total_slots / BLOCK_CAP;
    let remainder: usize = total_slots % BLOCK_CAP;
    let partial: usize = if remainder < BLOCK_CAP - 1 {
        remainder
    } else {
        BLOCK_CAP - 1
    };
    full_blocks * (BLOCK_CAP - 1) + partial
}

/// The cache after the entry of the number `idx` was told to name no block.
spec fn forgotten(cache: Seq<BlockEntry>, idx: usize) -> Seq<BlockEntry> {
    cache.update(
        idx as int % 32,
        BlockEntry { tagged: NO_BLOCK, present: cache[idx as int % 32].present },
    )
}

/// The cache after the blocks were forgotten, one after the other.
spec fn all_forgotten<T>(cache: Seq<BlockEntry>, entries: Seq<RecycleEntry<T>>) -> Seq<BlockEntry>
    decreases entries.len(),
{
    if entries.len() == 0 {
        cache
    } else {
        forgotten(all_forgotten(cache, entries.drop_last()), entries.last().block_idx)
    }
}

/// The blocks kept for reuse are those before and `n` more behind them, or as many more as
/// there is a place for.
spec fn gains<T>(after: Seq<Block<T>>, before: Seq<Block<T>>, n: nat) -> bool {
    &&& before.is_prefix_of(after)
    &&& after.len() == if before.len() + n <= FREE_BLOCKS {
        before.len() + n
    } else {
        FREE_BLOCKS as nat
    }
}

/// How many of the first two blocks that wait have no reader at work on them, up to the first
/// that has one.
spec fn ready<T>(entries: Seq<RecycleEntry<T>>) -> nat {
    if entries.len() == 0 || pending(entries[0].block.counters) != 0 {
        0
    } else if entries.len() == 1 || pending(entries[1].block.counters) != 0 {
        1
    } else {
        2
    }
}

/// What waits after a look at the first two blocks: those that are ready are gone, and one
/// that was found not to be has moved behind the others.
spec fn looked_through<T>(entries: Seq<RecycleEntry<T>>) -> Seq<RecycleEntry<T>> {
    let rest = entries.skip(ready(entries) as int);
    if ready(entries) < 2 && rest.len() > 0 {
        rest.drop_first().push(rest.first())
    } else {
        rest
    }
}

/// As many as `n`, or as there is a place for.
pub open spec fn at_most(n: nat, places: usize) -> nat {
    if n <= places {
        n
    } else {
        places as nat
    }
}

/// What is left of `n` when `taken` go, as long as there are any.
pub open spec fn without(n: nat, taken: int) -> nat {
    if taken <= n {
        (n - taken) as nat
    } else {
        0
    }
}

/// How many blocks are kept, beside the first one, for a number of elements.
pub open spec fn kept_for(cap: nat) -> nat {
    if cap <= 32 {
        0
    } else if cap <= 65 * 32 {
        ((cap + 31) / 32 - 1) as nat
    } else {
        64
    }
}

/// What combining items comes to, item by item: no items leave `init` as it is, and the last
/// of any number of items is combined with what all the items before it come to.
pub proof fn lemma_fold_item_by_item<T, B, F: Fn(B, &T) -> B>(
    f: F,
    init: B,
    items: Seq<T>,
    item: T,
    result: B,
)
    ensures
        folds_to(f, init, Seq::<T>::empty(), result) <==> result == init,
        folds_to(f, init, items.push(item), result) <==> exists|acc: B|
            folds_to(f, init, items, acc) && #[trigger] f.ensures((acc, &item), result),
{
    let all = items.push(item);
    assert(all.drop_last() =~= items);
    assert(all.last() == item);
}

/// Where `f` computes `g`, what the items come to is their fold from the left by `g`, however
/// many they are.
pub proof fn lemma_fold_is_fold_left<T, B, F: Fn(B, &T) -> B>(
    f: F,
    g: spec_fn(B, T) -> B,
    init: B,
    items: Seq<T>,
    result: B,
)
    requires
        forall|acc: B, item: T, next: B| #[trigger]
            f.ensures((acc, &item), next) ==> next == g(acc, item),
        folds_to(f, init, items, result),
    ensures
        result == items.fold_left(init, g),
    decreases items.len(),
{
    if items.len() > 0 {
        let rest = items.drop_last();
        assert(items =~= rest.push(items.last()));
        lemma_fold_item_by_item(f, init, rest, items.last(), result);
        let acc = choose|acc: B|
            folds_to(f, init, rest, acc) && #[trigger] f.ensures((acc, &items.last()), result);
        lemma_fold_is_fold_left(f, g, init, rest, acc);
    }
}

/// Two rows of items put together come to what the second comes to, starting from what the
/// first comes to.
pub proof fn lemma_fold_in_parts<T, B, F: Fn(B, &T) -> B>(
    f: F,
    init: B,
    a: Seq<T>,
    b: Seq<T>,
    result: B,
)
    ensures
        folds_to(f, init, a + b, result) <==> exists|acc: B| #[trigger]
            folds_to(f, init, a, acc) && folds_to(f, acc, b, result),
    decreases b.len(),
{
    if b.len() == 0 {
        assert(a + b =~= a);
        if folds_to(f, init, a, result) {
            assert(folds_to(f, result, b, result));
        }
    } else {
        let rest = b.drop_last();
        let last = b.last();
        assert(b =~= rest.push(last));
        assert(a + b =~= (a + rest).push(last));
        lemma_fold_item_by_item(f, init, a + rest, last, result);
        if folds_to(f, init, a + b, result) {
            let mid = choose|mid: B|
                folds_to(f, init, a + rest, mid) && #[trigger] f.ensures((mid, &last), result);
            lemma_fold_in_parts(f, init, a, rest, mid);
            let acc = choose|acc: B| #[trigger]
                folds_to(f, init, a, acc) && folds_to(f, acc, rest, mid);
            lemma_fold_item_by_item(f, acc, rest, last, result);
        }
        if exists|acc: B| #[trigger] folds_to(f, init, a, acc) && folds_to(f, acc, b, result) {
            let acc = choose|acc: B| #[trigger]
                folds_to(f, init, a, acc) && folds_to(f, acc, b, result);
            lemma_fold_item_by_item(f, acc, rest, last, result);
            let mid = choose|mid: B|
                folds_to(f, acc, rest, mid) && #[trigger] f.ensures((mid, &last), result);
            lemma_fold_in_parts(f, init, a, rest, mid);
        }
    }
}

/// What exchanging two items does: each is where the other was, and nothing else moves.
pub proof fn lemma_exchange<T>(items: Seq<T>, i: int, j: int)
    requires
        0 <= i < items.len(),
        0 <= j < items.len(),
    ensures
        exchanged(items, i, j).len() == items.len(),
        exchanged(items, i, j)[i] == items[j],
        exchanged(items, i, j)[j] == items[i],
        forall|k: int|
            0 <= k < items.len() && k != i && k != j ==> #[trigger] exchanged(items, i, j)[k]
                == items[k],
        exchanged(exchanged(items, i, j), i, j) == items,
{
    assert(exchanged(exchanged(items, i, j), i, j) =~= items);
}

/// Which element an index names for [`AtomicVec::swap`], wherever the head is: in the head's
/// block the element of that number, and past it the one that many places earlier as the head
/// stands in its block. So the indices that name an element name all of them in their order,
/// none twice. An index below a block's slots that would run over the head's block names none,
/// and every other names one as long as it is below the length that is counted.
pub proof fn lemma_swap_names(head: nat, tail: nat, i: nat, j: nat)
    requires
        head <= tail,
        head % 32 != 31,
        tail % 32 != 31,
    ensures
        head % 32 + i < 31 ==> {
            &&& swap_index(head, i) == i
            &&& swappable(head, tail, i) <==> i < block_len(head, tail)
        },
        head % 32 + i >= 31 && i < 31 ==> !swappable(head, tail, i),
        i >= 31 ==> {
            &&& swap_index(head, i) + head % 32 == i
            &&& swappable(head, tail, i) <==> i < block_len(head, tail)
        },
        swappable(head, tail, i) && swappable(head, tail, j) && i < j ==> swap_index(head, i)
            < swap_index(head, j),
        swappable(head, tail, i) && swappable(head, tail, j) && i != j ==> swap_index(head, i)
            != swap_index(head, j),
        swappable(head, tail, i) ==> 0 <= swap_index(head, i) <= i,
{
}

/// How the length that is counted by positions relates to the number of elements: it is that
/// number, and one more where the part of the span that is left beside whole blocks runs over
/// a block's end.
pub proof fn lemma_counted_len(start: nat, end: nat)
    requires
        start % 32 != 31,
        end % 32 != 31,
    ensures
        end <= start ==> block_len(start, end) == 0,
        start <= end ==> block_len(start, end) == rank(end) - rank(start) + if start % 32 + (end
            - start) % 32 >= 32 {
            1int
        } else {
            0
        },
        start <= end && start % 32 == 0 ==> block_len(start, end) == rank(end) - rank(start),
{
}

/// Positions pass over one gap in each block, and the slots between are numbered without a gap.
pub proof fn lemma_positions_in_turn(pos: nat)
    requires
        pos % 32 != 31,
    ensures
        pos < next_pos(pos) <= pos + 2,
        next_pos(pos) % 32 != 31,
        rank(next_pos(pos)) == rank(pos) + 1,
        rank(0) == 0,
        next_pos(pos) == pos + 2 <==> pos % 32 == 30,
{
}

/// Where [`AtomicVec::get`] looks. How far past the head that is depends only on the sum of the
/// head and the index; with both at zero it is at the head; and as the index goes up by one it
/// goes one on, one further where the sum comes to a whole number of blocks' slots, and a
/// block back where the sum comes to a whole number of blocks.
pub proof fn lemma_get_looks(head: nat, index: nat)
    ensures
        get_pos(0, 0) == 0,
        get_pos(head + 1, index) - (head + 1) == get_pos(head, index + 1) - head,
        get_pos(head, index + 1) - get_pos(head, index) == 1 + (if (head + index + 1) % 31 == 0 {
            1int
        } else {
            0
        }) - (if (head + index + 1) % 32 == 0 {
            32int
        } else {
            0
        }),
        head == 0 && index < 31 ==> get_pos(head, index) == index,
{
}

/// A vector counts at least a quarter as many pushes as a word has values: every slot that an
/// index can name but the last one, the gaps left out.
pub proof fn lemma_push_limit()
    ensures
        word_values() / 4 <= push_limit() < word_values(),
        64 * (push_limit() + 1) == 31 * (usize::MAX + 1),
{
    vstd::layout::unsigned_int_max_values();
    vstd::arithmetic::power2::lemma2_to64();
}

/// The blocks that are kept for a number of elements, with the first one, have a place for each
/// of them, and one block less would not, as far as blocks are kept.
pub proof fn lemma_kept_blocks(cap: nat)
    ensures
        kept_for(cap) <= FREE_BLOCKS,
        cap <= 65 * 32 ==> cap <= (kept_for(cap) + 1) * 32,
        0 < kept_for(cap) ==> kept_for(cap) * 32 < cap,
        cap > 65 * 32 ==> kept_for(cap) == FREE_BLOCKS,
        FREE_BLOCKS == 64,
        RECYCLE_BLOCKS == 32,
{
}

/// How many there are of what has a limited number of places, and what is left when some go.
pub proof fn lemma_places(n: nat, places: usize, taken: nat)
    ensures
        at_most(n, places) <= n,
        at_most(n, places) <= places,
        at_most(n, places) == n || at_most(n, places) == places,
        without(n, taken as int) <= n,
        taken <= n ==> without(n, taken as int) + taken == n,
        taken > n ==> without(n, taken as int) == 0,
{
}

proof fn lemma_capacities_are_powers()
    ensures
        is_pow2(FREE_BLOCKS as int),
        is_pow2(RECYCLE_BLOCKS as int),
{
    reveal(is_pow2);
    reveal_with_fuel(is_pow2, 8);
}

impl<T> AtomicVec<T> {
    /// The position of the head.
    pub closed spec fn head_pos(self) -> nat {
        position(self.head_index)
    }

    /// The position of the tail.
    pub closed spec fn tail_pos(self) -> nat {
        position(self.tail_index)
    }

    /// How many handles share the vector.
    pub closed spec fn ref_count(self) -> usize {
        self.ref_count
    }

    /// How many blocks are kept for reuse.
    pub closed spec fn spare_blocks(self) -> nat {
        self.free_list.backlog()
    }

    /// How many blocks, read through, wait for the readers at work on them.
    pub closed spec fn waiting_blocks(self) -> nat {
        self.waiting().len()
    }

    /// How many of the blocks that wait the next push finds free of readers: it looks at two,
    /// and stops at the first with a reader.
    pub closed spec fn ready_blocks(self) -> nat {
        ready(self.waiting())
    }

    /// How many readers are at work on the head's block.
    pub closed spec fn head_readers(self) -> nat {
        pending(self.chain@[0].counters) as nat
    }

    /// No reader is at work on a block, and no block waits.
    pub closed spec fn is_quiet(self) -> bool {
        &&& self.waiting().len() == 0
        &&& forall|k: int|
            0 <= k < self.chain.len() ==> pending((#[trigger] self.chain@[k]).counters) == 0
    }

    /// What a push does to the blocks that are kept, and to those that wait: blocks that wait
    /// and are free of readers are kept, as far as there is a place, and then a block that is
    /// kept goes to the chain if the push fills the tail's block.
    pub open spec fn stores_pushed(self, before: Self) -> bool {
        let kept = at_most(before.spare_blocks() + before.ready_blocks(), FREE_BLOCKS);
        &&& self.spare_blocks() == if before.tail_pos() % 32 == 30 && kept > 0 {
            kept - 1
        } else {
            kept as int
        }
        &&& self.waiting_blocks() == before.waiting_blocks() - before.ready_blocks()
        &&& before.is_quiet() ==> self.is_quiet()
    }

    /// What a pop does to the blocks that are kept, and to those that wait: a block whose last
    /// slot was read is kept if no other reader is at work on it, and waits otherwise, as far
    /// as there is a place.
    pub open spec fn stores_popped(self, before: Self) -> bool {
        let drained = before.head_pos() % 32 == 30;
        &&& self.spare_blocks() == if drained && before.head_readers() == 0 {
            at_most(before.spare_blocks() + 1, FREE_BLOCKS)
        } else {
            before.spare_blocks()
        }
        &&& self.waiting_blocks() == if drained && before.head_readers() > 0 {
            at_most(before.waiting_blocks() + 1, RECYCLE_BLOCKS)
        } else {
            before.waiting_blocks()
        }
        &&& before.is_quiet() ==> self.is_quiet()
    }

    /// The blocks that are kept, those that wait and the readers at work are those of `before`.
    pub open spec fn stores_kept(self, before: Self) -> bool {
        &&& self.spare_blocks() == before.spare_blocks()
        &&& self.waiting_blocks() == before.waiting_blocks()
        &&& self.ready_blocks() == before.ready_blocks()
        &&& self.head_readers() == before.head_readers()
        &&& self.is_quiet() == before.is_quiet()
    }

    /// What pushes do to the blocks that are kept where no reader is at work on a block: each
    /// block that they open is one of those kept, as long as there is one.
    pub open spec fn spares_taken(self, before: Self) -> bool {
        before.is_quiet() ==> {
            &&& self.is_quiet()
            &&& self.spare_blocks() == without(
                before.spare_blocks(),
                self.tail_pos() / 32 - before.tail_pos() / 32,
            )
        }
    }

    /// What pops do to the blocks that are kept where no reader is at work on a block: each
    /// block that they drain is kept, as long as there is a place.
    pub open spec fn spares_given(self, before: Self) -> bool {
        before.is_quiet() ==> {
            &&& self.is_quiet()
            &&& self.spare_blocks() == at_most(
                (before.spare_blocks() + self.head_pos() / 32 - before.head_pos() / 32) as nat,
                FREE_BLOCKS,
            )
        }
    }

    /// What it does to the blocks that are kept, where no reader is at work on a block, that
    /// every element is popped and elements are pushed afterwards.
    pub open spec fn spares_turned_over(self, before: Self) -> bool {
        before.is_quiet() ==> {
            &&& self.is_quiet()
            &&& self.spare_blocks() == without(
                at_most(
                    (before.spare_blocks() + before.tail_pos() / 32 - before.head_pos()
                        / 32) as nat,
                    FREE_BLOCKS,
                ),
                self.tail_pos() / 32 - before.tail_pos() / 32,
            )
        }
    }

    /// Where no reader is at work on a block, none is at work on the head's and none of the
    /// blocks waits: a push takes a block that is kept, if there is one, exactly when it fills
    /// the tail's block, and a pop gives one back exactly when it drains the head's.
    pub proof fn lemma_quiet(self)
        requires
            self.wf(),
            self.is_quiet(),
        ensures
            self.head_readers() == 0,
            self.waiting_blocks() == 0,
            self.ready_blocks() == 0,
            self.spare_blocks() <= FREE_BLOCKS,
    {
        self.lemma_at_rest();
    }

    /// Blocks go round: where no reader is at work on a block, pushes take a block that is kept
    /// for each block that they open, until none is kept, and pops give a block back for each
    /// that they drain, until all places are taken. Nothing else changes how many are kept.
    pub proof fn lemma_blocks_go_round(self, before: Self)
        requires
            before.is_quiet(),
            before.spare_blocks() <= FREE_BLOCKS,
        ensures
            self.spares_taken(before) && self.tail_pos() >= before.tail_pos() ==> {
                let opened = self.tail_pos() / 32 - before.tail_pos() / 32;
                &&& self.is_quiet()
                &&& opened <= before.spare_blocks() ==> self.spare_blocks() + opened
                    == before.spare_blocks()
                &&& opened > before.spare_blocks() ==> self.spare_blocks() == 0
            },
            self.spares_given(before) && self.head_pos() >= before.head_pos() ==> {
                let drained = self.head_pos() / 32 - before.head_pos() / 32;
                &&& self.is_quiet()
                &&& before.spare_blocks() + drained <= FREE_BLOCKS ==> self.spare_blocks()
                    == before.spare_blocks() + drained
                &&& before.spare_blocks() + drained > FREE_BLOCKS ==> self.spare_blocks()
                    == FREE_BLOCKS
            },
            self.spares_turned_over(before) && self.tail_pos() >= before.tail_pos()
                >= before.head_pos() ==> {
                let drained = before.tail_pos() / 32 - before.head_pos() / 32;
                let opened = self.tail_pos() / 32 - before.tail_pos() / 32;
                &&& self.is_quiet()
                &&& before.spare_blocks() + drained <= FREE_BLOCKS && opened
                    <= before.spare_blocks() + drained ==> self.spare_blocks() + opened
                    == before.spare_blocks() + drained
                &&& opened > FREE_BLOCKS ==> self.spare_blocks() == 0
            },
            self.stores_kept(before) ==> {
                &&& self.is_quiet()
                &&& self.spare_blocks() == before.spare_blocks()
                &&& self.waiting_blocks() == before.waiting_blocks()
                &&& self.ready_blocks() == before.ready_blocks()
                &&& self.head_readers() == before.head_readers()
            },
    {
    }

    /// What keeps the stores keeps each of them: the blocks that are kept, those that wait, those
    /// of them that are ready, and the readers at work.
    pub proof fn lemma_stores_kept(self, before: Self)
        ensures
            self.stores_kept(before) <==> {
                &&& self.spare_blocks() == before.spare_blocks()
                &&& self.waiting_blocks() == before.waiting_blocks()
                &&& self.ready_blocks() == before.ready_blocks()
                &&& self.head_readers() == before.head_readers()
                &&& self.is_quiet() <==> before.is_quiet()
            },
    {
    }

    /// A block that is drained goes to those that are kept or to those that wait: it is kept
    /// if no reader is at work on it, and waits if one is, as far as there is a place. A pop that
    /// drains none moves no block.
    pub proof fn lemma_drained_block_is_put_away(self, before: Self)
        requires
            self.stores_popped(before),
        ensures
            before.head_pos() % 32 != 30 ==> {
                &&& self.spare_blocks() == before.spare_blocks()
                &&& self.waiting_blocks() == before.waiting_blocks()
            },
            before.head_pos() % 32 == 30 && before.head_readers() == 0
                && before.spare_blocks() < FREE_BLOCKS ==> {
                &&& self.spare_blocks() == before.spare_blocks() + 1
                &&& self.waiting_blocks() == before.waiting_blocks()
            },
            before.head_pos() % 32 == 30 && before.head_readers() > 0
                && before.waiting_blocks() < RECYCLE_BLOCKS ==> {
                &&& self.spare_blocks() == before.spare_blocks()
                &&& self.waiting_blocks() == before.waiting_blocks() + 1
            },
            before.spare_blocks() == FREE_BLOCKS ==> self.spare_blocks() == FREE_BLOCKS,
            before.waiting_blocks() == RECYCLE_BLOCKS ==> self.waiting_blocks() == RECYCLE_BLOCKS,
            before.is_quiet() ==> self.is_quiet(),
    {
    }

    /// A push keeps the blocks that wait and are free of readers, as far as there is a place, and
    /// takes one of those that are kept if it fills the tail's block.
    pub proof fn lemma_push_moves_blocks(self, before: Self)
        requires
            self.stores_pushed(before),
        ensures
            before.spare_blocks() + before.ready_blocks() <= FREE_BLOCKS ==> {
                &&& before.tail_pos() % 32 != 30 ==> self.spare_blocks() == before.spare_blocks()
                    + before.ready_blocks()
                &&& before.tail_pos() % 32 == 30 && before.spare_blocks() + before.ready_blocks()
                    > 0 ==> self.spare_blocks() + 1 == before.spare_blocks()
                    + before.ready_blocks()
                &&& before.spare_blocks() + before.ready_blocks() == 0 ==> self.spare_blocks() == 0
            },
            before.spare_blocks() + before.ready_blocks() > FREE_BLOCKS ==> {
                &&& before.tail_pos() % 32 != 30 ==> self.spare_blocks() == FREE_BLOCKS
                &&& before.tail_pos() % 32 == 30 ==> self.spare_blocks() + 1 == FREE_BLOCKS
            },
            self.waiting_blocks() + before.ready_blocks() == before.waiting_blocks(),
            before.is_quiet() ==> self.is_quiet(),
    {
    }

    /// The blocks that a push finds free of readers are among those that wait, and at most two.
    pub proof fn lemma_ready_blocks_wait(self)
        ensures
            self.ready_blocks() <= self.waiting_blocks(),
            self.ready_blocks() <= 2,
    {
    }

    proof fn lemma_at_rest(self)
        requires
            self.inv(),
        ensures
            self.spare_blocks() <= FREE_BLOCKS,
            self.is_quiet() ==> {
                &&& self.head_readers() == 0
                &&& self.waiting_blocks() == 0
                &&& self.ready_blocks() == 0
            },
    {
        self.free_list.lemma_wf();
        let head = self.chain@[0];
    }

    /// How many more pushes the indices can count.
    pub open spec fn room(self) -> int {
        push_limit() - rank(self.tail_pos())
    }

    /// The blocks kept for reuse, the next one first.
    spec fn spare(self) -> Seq<Block<T>> {
        self.free_list.contents()
    }

    /// The blocks that wait for their readers, the next one first.
    spec fn waiting(self) -> Seq<RecycleEntry<T>> {
        self.recycle_queue.contents()
    }

    spec fn head_block(self) -> int {
        self.head_pos() as int / 32
    }

    spec fn tail_block(self) -> int {
        self.tail_pos() as int / 32
    }

    spec fn head_rank(self) -> int {
        rank(self.head_pos()) as int
    }

    spec fn tail_rank(self) -> int {
        rank(self.tail_pos()) as int
    }

    /// The elements, from the head to the tail.
    pub closed spec fn view(&self) -> Seq<T> {
        Seq::new(
            (self.tail_rank() - self.head_rank()) as nat,
            |i: int| self.at_rank(self.head_rank() + i)->0,
        )
    }

    /// What the slot of a rank holds.
    spec fn at_rank(self, r: int) -> Option<T> {
        self.chain@[r / 31 - self.head_block()].slots@[r % 31].value
    }

    /// The slot `o` of the block `k` of the chain is in the state that the indices tell.
    spec fn slot_ok(self, k: int, o: int) -> bool {
        let r = (self.head_block() + k) * 31 + o;
        let slot = self.chain@[k].slots@[o];
        if o == 31 || r >= self.tail_rank() {
            slot.is_empty()
        } else if r < self.head_rank() {
            slot.is_taken()
        } else {
            slot.is_written()
        }
    }

    spec fn indices_ok(self) -> bool {
        &&& self.tail_index % 2 == 0
        &&& self.head_pos() % 32 != 31
        &&& self.tail_pos() % 32 != 31
        &&& self.head_pos() <= self.tail_pos()
        &&& self.tail_rank() <= push_limit()
        &&& flagged(self.head_index) ==> self.head_block() < self.tail_block()
        &&& self.len == self.tail_rank() - self.head_rank()
    }

    spec fn chain_ok(self) -> bool {
        &&& self.chain.len() == self.tail_block() - self.head_block() + 1
        &&& forall|k: int|
            0 <= k < self.chain.len() ==> {
                &&& (#[trigger] self.chain@[k]).wf()
                &&& pending(self.chain@[k].counters) < u32::MAX
                &&& read(self.chain@[k].counters) == if k == 0 {
                    self.head_pos() % 32
                } else {
                    0
                }
            }
        &&& forall|k: int, o: int|
            #![trigger self.chain@[k].slots@[o]]
            0 <= k < self.chain.len() && 0 <= o < 32 ==> self.slot_ok(k, o)
    }

    spec fn stores_ok(self) -> bool {
        &&& self.free_list.wf()
        &&& self.free_list.settled()
        &&& self.free_list.cap() == FREE_BLOCKS
        &&& forall|p: int|
            0 <= p < FREE_BLOCKS && #[trigger] self.free_list.slots()[p] is Some
                ==> self.free_list.slots()[p]->0.is_fresh()
        &&& self.recycle_queue.wf()
        &&& self.recycle_queue.settled()
        &&& self.recycle_queue.cap() == RECYCLE_BLOCKS
        &&& forall|p: int|
            0 <= p < RECYCLE_BLOCKS && #[trigger] self.recycle_queue.slots()[p] is Some
                ==> self.recycle_queue.slots()[p]->0.block.wf()
        &&& self.block_array.wf()
        &&& forall|idx: usize|
            self.head_block() <= idx < NO_BLOCK && #[trigger] self.block_array.has(idx) ==> idx
                <= self.tail_block()
    }

    /// The record is in order, whether the exclusive lock is taken or not.
    spec fn inv(self) -> bool {
        &&& self.indices_ok()
        &&& self.chain_ok()
        &&& self.stores_ok()
    }

    /// The indices, the chain and the stores of blocks agree, and the exclusive lock is free.
    pub closed spec fn wf(self) -> bool {
        &&& self.inv()
        &&& self.exclusive_lock == 0
    }

    /// How many elements there are, by the two positions.
    pub proof fn lemma_len(self)
        requires
            self.wf(),
        ensures
            self@.len() == rank(self.tail_pos()) - rank(self.head_pos()),
            self.head_pos() <= self.tail_pos(),
            self.head_pos() % 32 != 31,
            self.tail_pos() % 32 != 31,
            0 <= self.room() < word_values(),
    {
    }

    /// The capacity is never less than the number of elements.
    pub proof fn lemma_capacity_covers(self)
        requires
            self.wf(),
        ensures
            self@.len() <= (self.tail_pos() - self.head_pos()) / 32 * 32 + 32,
    {
        self.lemma_positions();
    }

    /// Whoever pushes and whoever pops, and however they take turns: the elements popped,
    /// followed by those that are left, are the elements that were there at first, followed by
    /// those pushed. None is lost, none comes twice, and none overtakes another.
    pub proof fn lemma_order_of_elements(states: Seq<Self>, events: Seq<Event<T>>)
        requires
            is_run(states.map_values(|state: Self| state@), events),
        ensures
            taken(events) + states.last()@ == states.first()@ + put(events),
    {
        lemma_first_in_first_out(states.map_values(|state: Self| state@), events);
    }

    /// While the head is at the start of a block, every index below the length names its own
    /// element for [`AtomicVec::swap`], and no other index does.
    pub proof fn lemma_swap_from_block_start(self, index: nat)
        requires
            self.wf(),
            self.head_pos() % 32 == 0,
        ensures
            swappable(self.head_pos(), self.tail_pos(), index) <==> index < self@.len(),
            swap_index(self.head_pos(), index) == index,
    {
        self.lemma_positions();
    }

    /// Before anything was popped, [`AtomicVec::get`] finds each of the first elements, a
    /// block's positions in number, under its own index.
    pub proof fn lemma_get_from_start(self, index: nat)
        requires
            self.wf(),
            self.head_pos() == 0,
            index < self@.len(),
            index < 32,
        ensures
            ({
                let pos = get_pos(self.head_pos(), index);
                &&& index < block_len(self.head_pos(), self.tail_pos())
                &&& pos % 32 != 31
                &&& pos < self.tail_pos()
                &&& rank(pos) - rank(self.head_pos()) == index
            }),
    {
        self.lemma_positions();
    }

    /// Whatever [`AtomicVec::swap`] accepts names an element.
    pub proof fn lemma_swappable_is_element(self, index: nat)
        requires
            self.wf(),
            swappable(self.head_pos(), self.tail_pos(), index),
        ensures
            0 <= swap_index(self.head_pos(), index) < self@.len(),
    {
        self.lemma_positions();
    }

    proof fn lemma_positions(self)
        requires
            self.indices_ok(),
        ensures
            self.head_rank() == 31 * self.head_block() + self.head_pos() % 32,
            self.tail_rank() == 31 * self.tail_block() + self.tail_pos() % 32,
            self.head_rank() / 31 == self.head_block(),
            self.tail_rank() / 31 == self.tail_block(),
            self.head_rank() % 31 == self.head_pos() % 32,
            self.tail_rank() % 31 == self.tail_pos() % 32,
            self.head_rank() <= self.tail_rank(),
            self.head_rank() == self.tail_rank() <==> self.head_pos() == self.tail_pos(),
            self.room() >= 1 ==> self.tail_index <= usize::MAX - 4,
            self.head_pos() < self.tail_pos() ==> self.head_index <= usize::MAX - 4,
            self.tail_index == 2 * self.tail_pos(),
    {
    }

    /// Element `i` stands in the slot of its rank, which is written.
    proof fn lemma_element(self, i: int)
        requires
            self.indices_ok(),
            self.chain_ok(),
            0 <= i < self.tail_rank() - self.head_rank(),
        ensures
            ({
                let r = self.head_rank() + i;
                let k = r / 31 - self.head_block();
                &&& 0 <= k < self.chain.len()
                &&& self.chain@[k].slots@[r % 31].is_written()
                &&& self.chain@[k].slots@[r % 31].value == Some(self@[i])
            }),
    {
        self.lemma_positions();
        let r = self.head_rank() + i;
        let k = r / 31 - self.head_block();
        assert(self.slot_ok(k, r % 31)) by {
            let slot = self.chain@[k].slots@[r % 31];
        }
    }

    /// An empty vector with one block.
    pub fn new() -> (vec: Self)
        ensures
            vec.wf(),
            vec@ == Seq::<T>::empty(),
            vec.head_pos() == 0,
            vec.tail_pos() == 0,
            vec.ref_count() == 1,
            vec.spare_blocks() == 0,
            vec.is_quiet(),
    {
        proof {
            lemma_capacities_are_powers();
        }
        let mut chain: Vec<Block<T>> = Vec::new();
        chain.push(Block::new());
        let mut block_array = BlockArray::new();
        block_array.set(0, true);
        let vec = AtomicVec {
            head_index: 0,
            tail_index: 0,
            len: 0,
            chain,
            block_array,
            free_list: AtomicBuffer::with_capacity(FREE_BLOCKS),
            recycle_queue: AtomicBuffer::with_capacity(RECYCLE_BLOCKS),
            ref_count: 1,
            exclusive_lock: 0,
        };
        proof {
            vec.free_list.lemma_wf();
            vec.recycle_queue.lemma_wf();
            assert(vec@ =~= Seq::<T>::empty());
        }
        vec
    }

    /// Nothing but the stores of blocks differs from `before`.
    spec fn same_elements(self, before: Self) -> bool {
        &&& self.head_index == before.head_index
        &&& self.tail_index == before.tail_index
        &&& self.len == before.len
        &&& self.chain == before.chain
        &&& self.ref_count == before.ref_count
        &&& self.exclusive_lock == before.exclusive_lock
    }

    /// Keeps a fresh block for reuse, or lets it go where enough are kept.
    fn keep_block(&mut self, block: Block<T>)
        requires
            old(self).stores_ok(),
            block.is_fresh(),
        ensures
            final(self).stores_ok(),
            final(self).same_elements(*old(self)),
            final(self).recycle_queue == old(self).recycle_queue,
            final(self).block_array == old(self).block_array,
            final(self).spare_blocks() == if old(self).spare_blocks() < FREE_BLOCKS {
                old(self).spare_blocks() + 1
            } else {
                FREE_BLOCKS as nat
            },
            gains(final(self).spare(), old(self).spare(), 1),
    {
        proof {
            self.free_list.lemma_wf();
            self.free_list.lemma_settled_slots();
        }
        match self.free_list.push(block) {
            Ok(()) => {},
            Err(_) => {},
        }
        proof {
            self.free_list.lemma_wf();
        }
    }

    /// Puts away a block whose slots were all read: for reuse where no reader is at work on
    /// it, otherwise to wait for the readers, as far as there is a place for it.
    fn retire(&mut self, block: Block<T>, block_idx: usize, pending: u32)
        requires
            old(self).stores_ok(),
            block.wf(),
        ensures
            final(self).stores_ok(),
            final(self).same_elements(*old(self)),
            pending == 0 ==> {
                &&& gains(final(self).spare(), old(self).spare(), 1)
                &&& final(self).waiting() == old(self).waiting()
                &&& final(self).block_array@ == forgotten(old(self).block_array@, block_idx)
            },
            pending > 0 ==> {
                &&& final(self).spare() == old(self).spare()
                &&& final(self).waiting() == if old(self).waiting().len() < RECYCLE_BLOCKS {
                    old(self).waiting().push(RecycleEntry { block, block_idx })
                } else {
                    old(self).waiting()
                }
                &&& final(self).block_array@ == old(self).block_array@
            },
    {
        if pending == 0 {
            let mut block = block;
            self.block_array.clear(block_idx);
            proof {
                assert forall|idx: usize|
                    self.head_block() <= idx < NO_BLOCK && #[trigger] self.block_array.has(
                        idx,
                    ) implies idx <= self.tail_block() by {
                    assert(old(self).block_array.has(idx));
                }
            }
            block.reset();
            self.keep_block(block);
        } else {
            proof {
                self.recycle_queue.lemma_wf();
                self.recycle_queue.lemma_settled_slots();
            }
            match self.recycle_queue.push(RecycleEntry { block, block_idx }) {
                Ok(()) => {},
                Err(_) => {},
            }
        }
    }

    /// Looks at up to two blocks that wait for their readers, and keeps those for reuse that
    /// no reader is at work on any more.
    fn try_process_recycles(&mut self)
        requires
            old(self).stores_ok(),
        ensures
            final(self).stores_ok(),
            final(self).same_elements(*old(self)),
            final(self).waiting() == looked_through(old(self).waiting()),
            gains(final(self).spare(), old(self).spare(), ready(old(self).waiting())),
            final(self).block_array@ == all_forgotten(
                old(self).block_array@,
                old(self).waiting().take(ready(old(self).waiting()) as int),
            ),
    {
        let ghost entries = self.waiting();
        let mut i: usize = 0;
        proof {
            self.free_list.lemma_wf();
            assert(entries.skip(0) =~= entries);
        }
        while i < 2
            invariant
                i <= 2,
                self.stores_ok(),
                self.same_elements(*old(self)),
                entries == old(self).waiting(),
                i <= ready(entries),
                self.waiting() == entries.skip(i as int),
                gains(self.spare(), old(self).spare(), i as nat),
                self.block_array@ == all_forgotten(
                    old(self).block_array@,
                    entries.take(i as int),
                ),
            decreases 2 - i,
        {
            let ghost left = self.waiting();
            proof {
                self.recycle_queue.lemma_wf();
                self.recycle_queue.lemma_settled_slots();
            }
            match self.recycle_queue.pop() {
                None => {
                    return;
                },
                Some(entry) => {
                    proof {
                        assert(entry == entries[i as int]);
                        assert(left.drop_first() =~= entries.skip(i + 1));
                        assert(entries.take(i + 1).drop_last() =~= entries.take(i as int));
                    }
                    if unpack_pending(entry.block.counters) == 0 {
                        self.retire(entry.block, entry.block_idx, 0);
                    } else {
                        proof {
                            self.recycle_queue.lemma_wf();
                            self.recycle_queue.lemma_settled_slots();
                        }
                        match self.recycle_queue.push(entry) {
                            Ok(()) => {},
                            Err(_) => {},
                        }
                        return;
                    }
                },
            }
            i += 1;
        }
    }

    /// A fresh block, one of those kept for reuse if there is one.
    fn acquire_block(&mut self) -> (block: Block<T>)
        requires
            old(self).stores_ok(),
        ensures
            final(self).stores_ok(),
            final(self).same_elements(*old(self)),
            final(self).block_array == old(self).block_array,
            final(self).recycle_queue == old(self).recycle_queue,
            block.is_fresh(),
            if old(self).spare().len() > 0 {
                &&& block == old(self).spare().first()
                &&& final(self).spare() == old(self).spare().drop_first()
            } else {
                *final(self) == *old(self)
            },
    {
        proof {
            self.free_list.lemma_wf();
            self.free_list.lemma_settled_slots();
        }
        match self.free_list.pop() {
            Some(block) => block,
            None => Block::new(),
        }
    }

    fn push_inner(&mut self, value: T)
        requires
            old(self).inv(),
            old(self).room() >= 1,
        ensures
            final(self).inv(),
            final(self)@ == old(self)@.push(value),
            final(self).room() == old(self).room() - 1,
            final(self).tail_pos() == next_pos(old(self).tail_pos()),
            final(self).head_pos() == old(self).head_pos(),
            final(self).ref_count == old(self).ref_count,
            final(self).exclusive_lock == old(self).exclusive_lock,
            final(self).stores_pushed(*old(self)),
    {
        self.try_process_recycles();
        let ghost before = *self;
        proof {
            assert(before.inv());
            before.lemma_positions();
            old(self).free_list.lemma_wf();
            assert(before.spare_blocks() == before.spare().len());
            assert(before.spare_blocks() == at_most(
                old(self).spare_blocks() + old(self).ready_blocks(),
                FREE_BLOCKS,
            ));
            assert(before.waiting_blocks() == old(self).waiting_blocks()
                - old(self).ready_blocks());
        }
        match push_plan(self.tail_index) {
            PushPlan::Wait => {},
            PushPlan::Claim { new_tail, offset, opens } => {
                let last: usize = self.chain.len() - 1;
                match opens {
                    None => {
                        self.tail_index = new_tail;
                    },
                    Some(next) => {
                        let block = self.acquire_block();
                        assert(self.spare_blocks() == self.spare().len());
                        self.chain.push(block);
                        self.block_array.set(next.block_idx, true);
                        self.tail_index = next.next_index;
                    },
                }
                self.chain[last].write(offset, value);
                self.len = self.len + 1;
                proof {
                    self.lemma_pushed(before, value, last as int, offset as int);
                    assert forall|idx: usize|
                        self.head_block() <= idx < NO_BLOCK && #[trigger] self.block_array.has(
                            idx,
                        ) implies idx <= self.tail_block() by {
                        if idx > before.tail_block() + 1 || opens is None {
                            assert(before.block_array.has(idx));
                        }
                    }
                    if old(self).is_quiet() {
                        assert forall|k: int| 0 <= k < self.chain.len() implies pending(
                            (#[trigger] self.chain@[k]).counters,
                        ) == 0 by {
                            if k <= last {
                                assert(self.chain@[k].counters == old(self).chain@[k].counters);
                            }
                        }
                    }
                }
            },
        }
    }

    proof fn lemma_pushed(self, before: Self, value: T, last: int, offset: int)
        requires
            before.inv(),
            before.room() >= 1,
            self.head_index == before.head_index,
            self.len == before.len + 1,
            last == before.chain.len() - 1,
            offset == before.tail_pos() % 32,
            self.tail_index == before.tail_index + (if offset == 30 {
                4int
            } else {
                2
            }),
            self.chain.len() == before.chain.len() + (if offset == 30 {
                1int
            } else {
                0
            }),
            self.chain@[last].counters == before.chain@[last].counters,
            self.chain@[last].slots@ == before.chain@[last].slots@.update(
                offset,
                Slot { state: WRITE, value: Some(value) },
            ),
            forall|k: int| 0 <= k < last ==> #[trigger] self.chain@[k] == before.chain@[k],
            offset == 30 ==> self.chain@[last + 1].is_fresh(),
        ensures
            self.indices_ok(),
            self.chain_ok(),
            self@ == before@.push(value),
            self.room() == before.room() - 1,
            self.head_block() == before.head_block(),
            self.tail_block() == before.tail_block() + (if offset == 30 {
                1int
            } else {
                0
            }),
    {
        before.lemma_positions();
        assert(self.tail_rank() == before.tail_rank() + 1);
        assert forall|k: int| 0 <= k < self.chain.len() implies {
            &&& (#[trigger] self.chain@[k]).wf()
            &&& pending(self.chain@[k].counters) < u32::MAX
            &&& read(self.chain@[k].counters) == if k == 0 {
                self.head_pos() % 32
            } else {
                0
            }
        } by {
            if k <= last {
                assert(before.chain@[k].wf());
            }
        }
        assert forall|k: int, o: int|
            #![trigger self.chain@[k].slots@[o]]
            0 <= k < self.chain.len() && 0 <= o < 32 implies self.slot_ok(k, o) by {
            if k <= last {
                assert(before.chain@[k].wf());
                let slot = before.chain@[k].slots@[o];
                assert(before.slot_ok(k, o));
            } else {
                assert(self.chain@[k].slots@[o].is_empty());
            }
        }
        self.lemma_positions();
        assert forall|i: int| 0 <= i < before@.len() + 1 implies self@[i] == before@.push(
            value,
        )[i] by {
            if i < before@.len() {
                before.lemma_element(i);
                let r = before.head_rank() + i;
                let k = r / 31 - before.head_block();
                assert(before.chain@[k].wf());
                assert(self.chain@[k].slots@[r % 31] == before.chain@[k].slots@[r % 31]);
            } else {
                assert(before.tail_rank() / 31 - before.head_block() == last);
            }
        }
        assert(self@ =~= before@.push(value));
    }

    /// Appends `value` at the tail.
    pub fn push(&mut self, value: T)
        requires
            old(self).wf(),
            old(self).room() >= 1,
        ensures
            final(self).wf(),
            final(self)@ == old(self)@.push(value),
            final(self).room() == old(self).room() - 1,
            final(self).tail_pos() == next_pos(old(self).tail_pos()),
            final(self).head_pos() == old(self).head_pos(),
            final(self).ref_count() == old(self).ref_count(),
            final(self).stores_pushed(*old(self)),
            final(self).spares_taken(*old(self)),
    {
        proof {
            self.lemma_at_rest();
        }
        self.push_inner(value);
    }

    fn pop_inner(&mut self) -> (result: Option<T>)
        requires
            old(self).inv(),
        ensures
            final(self).inv(),
            final(self).tail_pos() == old(self).tail_pos(),
            final(self).ref_count == old(self).ref_count,
            final(self).exclusive_lock == old(self).exclusive_lock,
            result is None <==> old(self)@.len() == 0,
            result is None ==> *final(self) == *old(self),
            result matches Some(value) ==> {
                &&& value == old(self)@.first()
                &&& final(self)@ == old(self)@.drop_first()
                &&& final(self).head_pos() == next_pos(old(self).head_pos())
                &&& final(self).stores_popped(*old(self))
            },
    {
        proof {
            self.lemma_positions();
        }
        if self.len == 0 {
            return None;
        }
        match pop_plan(self.head_index, self.tail_index) {
            PopPlan::Wait | PopPlan::Empty => None,
            PopPlan::Claim { new_head, offset, last } => {
                proof {
                    self.lemma_element(0);
                    assert(self.chain@[0].wf());
                }
                let block_idx: usize = block_of(position_of(self.head_index));
                self.chain[0].inc_pending();
                if last {
                    self.head_index = head_past_gap(new_head, self.chain.len() > 2);
                    let mut block = self.chain.remove(0);
                    let value = block.take(offset);
                    self.len = self.len - 1;
                    let (readers, read_count) = block.dec_pending_inc_read();
                    proof {
                        self.lemma_popped_last(*old(self));
                        assert forall|idx: usize|
                            self.head_block() <= idx < NO_BLOCK && #[trigger] self.block_array.has(
                                idx,
                            ) implies idx <= self.tail_block() by {
                            assert(old(self).block_array.has(idx));
                        }
                    }
                    proof {
                        self.free_list.lemma_wf();
                        self.recycle_queue.lemma_wf();
                        assert(self.spare().len() == old(self).spare_blocks());
                        assert(self.waiting() == old(self).waiting());
                    }
                    if read_count == (BLOCK_CAP - 1) as u32 {
                        self.retire(block, block_idx, readers);
                    }
                    proof {
                        assert(self.spare().len() == self.spare_blocks());
                        if old(self).is_quiet() {
                            assert(old(self).head_readers() == 0) by {
                                let head = old(self).chain@[0];
                            }
                            assert forall|k: int| 0 <= k < self.chain.len() implies pending(
                                (#[trigger] self.chain@[k]).counters,
                            ) == 0 by {
                                assert(self.chain@[k] == old(self).chain@[k + 1]);
                            }
                        }
                    }
                    Some(value)
                } else {
                    self.head_index = new_head;
                    let value = self.chain[0].take(offset);
                    self.len = self.len - 1;
                    self.chain[0].dec_pending_inc_read();
                    proof {
                        self.lemma_popped(*old(self), offset as int);
                        if old(self).is_quiet() {
                            assert forall|k: int| 0 <= k < self.chain.len() implies pending(
                                (#[trigger] self.chain@[k]).counters,
                            ) == 0 by {
                                let block = old(self).chain@[k];
                            }
                        }
                    }
                    Some(value)
                }
            },
        }
    }

    proof fn lemma_popped(self, before: Self, offset: int)
        requires
            before.inv(),
            before.head_pos() < before.tail_pos(),
            offset == before.head_pos() % 32,
            offset < 30,
            self.tail_index == before.tail_index,
            self.len == before.len - 1,
            position(self.head_index) == before.head_pos() + 1,
            flagged(self.head_index) ==> before.head_block() < before.tail_block(),
            self.chain.len() == before.chain.len(),
            forall|k: int| 0 < k < self.chain.len() ==> #[trigger] self.chain@[k]
                == before.chain@[k],
            pending(self.chain@[0].counters) == pending(before.chain@[0].counters),
            read(self.chain@[0].counters) == read(before.chain@[0].counters) + 1,
            self.chain@[0].slots@ == before.chain@[0].slots@.update(
                offset,
                Slot { state: crate::atomic::block::READ, value: None },
            ),
        ensures
            self.indices_ok(),
            self.chain_ok(),
            self@ == before@.drop_first(),
            self.head_block() == before.head_block(),
            self.tail_block() == before.tail_block(),
    {
        before.lemma_positions();
        assert(self.head_rank() == before.head_rank() + 1);
        assert forall|k: int| 0 <= k < self.chain.len() implies {
            &&& (#[trigger] self.chain@[k]).wf()
            &&& pending(self.chain@[k].counters) < u32::MAX
            &&& read(self.chain@[k].counters) == if k == 0 {
                self.head_pos() % 32
            } else {
                0
            }
        } by {
            assert(before.chain@[k].wf());
        }
        assert forall|k: int, o: int|
            #![trigger self.chain@[k].slots@[o]]
            0 <= k < self.chain.len() && 0 <= o < 32 implies self.slot_ok(k, o) by {
            assert(before.chain@[k].wf());
            let slot = before.chain@[k].slots@[o];
            assert(before.slot_ok(k, o));
        }
        self.lemma_positions();
        assert forall|i: int| 0 <= i < before@.len() - 1 implies self@[i]
            == before@.drop_first()[i] by {
            before.lemma_element(i + 1);
            let r = self.head_rank() + i;
            let k = r / 31 - before.head_block();
            assert(before.chain@[k].wf());
            assert(self.chain@[k].slots@[r % 31] == before.chain@[k].slots@[r % 31]);
        }
        assert(self@ =~= before@.drop_first());
    }

    proof fn lemma_popped_last(self, before: Self)
        requires
            before.inv(),
            before.head_pos() < before.tail_pos(),
            before.head_pos() % 32 == 30,
            self.tail_index == before.tail_index,
            self.len == before.len - 1,
            position(self.head_index) == before.head_pos() + 2,
            flagged(self.head_index) <==> before.chain.len() > 2,
            self.chain@.len() == before.chain@.len() - 1,
            forall|k: int| 0 <= k < self.chain.len() ==> #[trigger] self.chain@[k]
                == before.chain@[k + 1],
        ensures
            self.indices_ok(),
            self.chain_ok(),
            self@ == before@.drop_first(),
            self.head_block() == before.head_block() + 1,
            self.tail_block() == before.tail_block(),
    {
        before.lemma_positions();
        assert(self.head_rank() == before.head_rank() + 1);
        assert forall|k: int| 0 <= k < self.chain.len() implies {
            &&& (#[trigger] self.chain@[k]).wf()
            &&& pending(self.chain@[k].counters) < u32::MAX
            &&& read(self.chain@[k].counters) == if k == 0 {
                self.head_pos() % 32
            } else {
                0
            }
        } by {
            assert(before.chain@[k + 1].wf());
        }
        assert forall|k: int, o: int|
            #![trigger self.chain@[k].slots@[o]]
            0 <= k < self.chain.len() && 0 <= o < 32 implies self.slot_ok(k, o) by {
            assert(before.chain@[k + 1].wf());
            let slot = before.chain@[k + 1].slots@[o];
            assert(before.slot_ok(k + 1, o));
        }
        self.lemma_positions();
        assert forall|i: int| 0 <= i < before@.len() - 1 implies self@[i]
            == before@.drop_first()[i] by {
            before.lemma_element(i + 1);
            let r = self.head_rank() + i;
            let k = r / 31 - self.head_block();
            assert(self.chain@[k] == before.chain@[k + 1]);
        }
        assert(self@ =~= before@.drop_first());
    }

    /// Takes the first element; `None` when there is none.
    pub fn pop(&mut self) -> (result: Option<T>)
        requires
            old(self).wf(),
        ensures
            final(self).wf(),
            final(self).tail_pos() == old(self).tail_pos(),
            final(self).ref_count() == old(self).ref_count(),
            result is None <==> old(self)@.len() == 0,
            result is None ==> *final(self) == *old(self),
            result matches Some(value) ==> {
                &&& value == old(self)@.first()
                &&& final(self)@ == old(self)@.drop_first()
                &&& final(self).head_pos() == next_pos(old(self).head_pos())
                &&& final(self).stores_popped(*old(self))
                &&& final(self).spares_given(*old(self))
            },
    {
        proof {
            self.lemma_at_rest();
        }
        self.pop_inner()
    }

    /// An empty vector that keeps blocks for `cap` elements beside its first one, as far as
    /// blocks are kept.
    pub fn with_capacity(cap: usize) -> (vec: Self)
        requires
            cap <= usize::MAX - 32,
        ensures
            vec.wf(),
            vec@ == Seq::<T>::empty(),
            vec.head_pos() == 0,
            vec.tail_pos() == 0,
            vec.ref_count() == 1,
            vec.spare_blocks() == kept_for(cap as nat),
            vec.is_quiet(),
    {
        let mut vec = Self::new();
        let blocks_needed: usize = (cap + BLOCK_CAP - 1) / BLOCK_CAP;
        let ghost start = vec;
        let mut i: usize = 1;
        while i < blocks_needed
            invariant
                1 <= i,
                i <= blocks_needed || i == 1,
                blocks_needed == (cap + 31) / 32,
                start.wf(),
                start@ == Seq::<T>::empty(),
                vec.stores_ok(),
                vec.same_elements(start),
                start.is_quiet(),
                vec.recycle_queue == start.recycle_queue,
                vec.spare_blocks() == if i <= 65 {
                    i - 1
                } else {
                    64
                },
            decreases blocks_needed - i,
        {
            vec.keep_block(Block::new());
            i += 1;
        }
        proof {
            assert(vec@ =~= start@);
        }
        vec
    }

    /// A vector of `cap` values that `init` gives, one after the other.
    pub fn init_with<F: FnMut() -> T>(cap: usize, init: F) -> (vec: Self)
        requires
            cap <= usize::MAX - 32,
            cap <= push_limit(),
            init.requires(()),
        ensures
            vec.wf(),
            vec@.len() == cap,
            forall|i: int| 0 <= i < cap ==> init.ensures((), #[trigger] vec@[i]),
            vec.head_pos() == 0,
            vec.room() == push_limit() - cap,
            vec.ref_count() == 1,
            vec.is_quiet(),
            vec.spare_blocks() == without(kept_for(cap as nat), (vec.tail_pos() / 32) as int),
    {
        let mut vec = Self::with_capacity(cap);
        vec.fill(cap, init);
        vec
    }

    /// Pushes `cap` values that `init` gives.
    fn fill<F: FnMut() -> T>(&mut self, cap: usize, init: F)
        requires
            old(self).inv(),
            old(self)@.len() == 0,
            old(self).room() >= cap,
            init.requires(()),
        ensures
            final(self).inv(),
            final(self)@.len() == cap,
            forall|i: int| 0 <= i < cap ==> init.ensures((), #[trigger] final(self)@[i]),
            final(self).head_pos() == old(self).head_pos(),
            final(self).room() == old(self).room() - cap,
            final(self).ref_count == old(self).ref_count,
            final(self).exclusive_lock == old(self).exclusive_lock,
            final(self).spares_taken(*old(self)),
    {
        let ghost given = init;
        let mut init = init;
        let mut i: usize = 0;
        while i < cap
            invariant
                i <= cap,
                init == given,
                given.requires(()),
                self.inv(),
                self@.len() == i,
                forall|j: int| 0 <= j < i ==> given.ensures((), #[trigger] self@[j]),
                self.room() == old(self).room() - i,
                old(self).room() >= cap,
                self.spares_taken(*old(self)),
                self.tail_pos() >= old(self).tail_pos(),
                self.head_pos() == old(self).head_pos(),
                self.ref_count == old(self).ref_count,
                self.exclusive_lock == old(self).exclusive_lock,
            decreases cap - i,
        {
            let value = init();
            proof {
                self.lemma_at_rest();
            }
            self.push_inner(value);
            i += 1;
        }
    }

    /// How many elements there are.
    pub fn len(&self) -> (len: usize)
        requires
            self.wf(),
        ensures
            len == self@.len(),
    {
        self.len
    }

    /// Whether there is no element.
    pub fn is_empty(&self) -> (empty: bool)
        requires
            self.wf(),
        ensures
            empty == (self@.len() == 0),
    {
        self.len() == 0
    }

    /// The positions from the head to the tail, in whole blocks, and one block more.
    pub fn capacity(&self) -> (cap: usize)
        requires
            self.wf(),
        ensures
            cap == (self.tail_pos() - self.head_pos()) / 32 * 32 + 32,
    {
        let head: usize = position_of(self.head_index);
        let tail: usize = position_of(self.tail_index);
        let span: usize = tail.wrapping_sub(head);
        proof {
            crate::atomic::index::lemma_index_bits(span);
        }
        (span & !BLOCK_CAP_MASK) + BLOCK_CAP
    }

    /// How many more pushes the indices can count.
    pub fn room_left(&self) -> (room: usize)
        requires
            self.wf(),
        ensures
            room == self.room(),
    {
        proof {
            self.lemma_positions();
        }
        let tail: usize = position_of(self.tail_index);
        usize::MAX / 64 * 31 + 30 - (tail - tail / BLOCK_CAP)
    }

    /// How many blocks are kept for reuse.
    pub fn spare_count(&self) -> (count: usize)
        ensures
            count == self.spare_blocks(),
    {
        self.free_list.len_approx()
    }

    /// Appends the items, the first one first.
    pub fn push_batch(&mut self, items: Vec<T>)
        requires
            old(self).wf(),
            old(self).room() >= items@.len(),
        ensures
            final(self).wf(),
            final(self)@ == old(self)@ + items@,
            final(self).room() == old(self).room() - items@.len(),
            final(self).head_pos() == old(self).head_pos(),
            final(self).ref_count() == old(self).ref_count(),
            final(self).spares_taken(*old(self)),
    {
        self.push_all(items);
    }

    fn push_all(&mut self, items: Vec<T>)
        requires
            old(self).inv(),
            old(self).room() >= items@.len(),
        ensures
            final(self).inv(),
            final(self)@ == old(self)@ + items@,
            final(self).room() == old(self).room() - items@.len(),
            final(self).head_pos() == old(self).head_pos(),
            final(self).ref_count == old(self).ref_count,
            final(self).exclusive_lock == old(self).exclusive_lock,
            final(self).spares_taken(*old(self)),
            final(self).tail_pos() >= old(self).tail_pos(),
    {
        let ghost all = items@;
        proof {
            assert(self@ =~= old(self)@ + all.take(0));
        }
        for value in it: items
            invariant
                it.seq() == all,
                self.inv(),
                self@ == old(self)@ + all.take(it.index() as int),
                self.room() == old(self).room() - it.index(),
                old(self).room() >= all.len(),
                self.spares_taken(*old(self)),
                self.tail_pos() >= old(self).tail_pos(),
                self.head_pos() == old(self).head_pos(),
                self.ref_count == old(self).ref_count,
                self.exclusive_lock == old(self).exclusive_lock,
        {
            proof {
                self.lemma_at_rest();
            }
            self.push_inner(value);
            proof {
                assert(all.take(it.index() as int + 1) =~= all.take(it.index() as int).push(
                    all[it.index() as int],
                ));
                assert(self@ =~= old(self)@ + all.take(it.index() as int + 1));
            }
        }
        proof {
            assert(all.take(all.len() as int) =~= all);
        }
    }

    /// Takes up to `count` elements from the head.
    pub fn pop_batch(&mut self, count: usize) -> (items: Vec<T>)
        requires
            old(self).wf(),
        ensures
            final(self).wf(),
            ({
                let n = if count <= old(self)@.len() {
                    count as int
                } else {
                    old(self)@.len() as int
                };
                &&& items@ == old(self)@.take(n)
                &&& final(self)@ == old(self)@.skip(n)
            }),
            final(self).tail_pos() == old(self).tail_pos(),
            final(self).ref_count() == old(self).ref_count(),
            final(self).spares_given(*old(self)),
            final(self).head_pos() >= old(self).head_pos(),
    {
        self.pop_many(count)
    }

    fn pop_many(&mut self, count: usize) -> (items: Vec<T>)
        requires
            old(self).inv(),
        ensures
            final(self).inv(),
            ({
                let n = if count <= old(self)@.len() {
                    count as int
                } else {
                    old(self)@.len() as int
                };
                &&& items@ == old(self)@.take(n)
                &&& final(self)@ == old(self)@.skip(n)
            }),
            final(self).tail_pos() == old(self).tail_pos(),
            final(self).ref_count == old(self).ref_count,
            final(self).exclusive_lock == old(self).exclusive_lock,
            final(self).spares_given(*old(self)),
            final(self).head_pos() >= old(self).head_pos(),
    {
        let mut items: Vec<T> = Vec::new();
        let mut i: usize = 0;
        proof {
            assert(items@ =~= old(self)@.take(0));
            assert(self@ =~= old(self)@.skip(0));
            self.lemma_at_rest();
        }
        while i < count
            invariant
                i <= count,
                i <= old(self)@.len(),
                self.inv(),
                items@ == old(self)@.take(i as int),
                self@ == old(self)@.skip(i as int),
                self.spares_given(*old(self)),
                self.head_pos() >= old(self).head_pos(),
                self.tail_pos() == old(self).tail_pos(),
                self.ref_count == old(self).ref_count,
                self.exclusive_lock == old(self).exclusive_lock,
            decreases count - i,
        {
            proof {
                self.lemma_at_rest();
            }
            match self.pop_inner() {
                Some(value) => {
                    items.push(value);
                    proof {
                        assert(items@ =~= old(self)@.take(i + 1));
                        assert(self@ =~= old(self)@.skip(i + 1));
                    }
                },
                None => {
                    return items;
                },
            }
            i += 1;
        }
        items
    }

    /// Takes every element.
    pub fn drain(&mut self) -> (items: Vec<T>)
        requires
            old(self).wf(),
        ensures
            final(self).wf(),
            items@ == old(self)@,
            final(self)@ == Seq::<T>::empty(),
            final(self).tail_pos() == old(self).tail_pos(),
            final(self).ref_count() == old(self).ref_count(),
            final(self).head_pos() == old(self).tail_pos(),
            final(self).spares_given(*old(self)),
    {
        self.drain_inner()
    }

    fn drain_inner(&mut self) -> (items: Vec<T>)
        requires
            old(self).inv(),
        ensures
            final(self).inv(),
            items@ == old(self)@,
            final(self)@ == Seq::<T>::empty(),
            final(self).tail_pos() == old(self).tail_pos(),
            final(self).ref_count == old(self).ref_count,
            final(self).exclusive_lock == old(self).exclusive_lock,
            final(self).head_pos() == old(self).tail_pos(),
            final(self).spares_given(*old(self)),
    {
        let len: usize = self.len;
        let items = self.pop_many(len);
        proof {
            assert(items@ =~= old(self)@);
            assert(self@ =~= Seq::<T>::empty());
            self.lemma_positions();
        }
        items
    }

    /// Takes the exclusive lock, which has to be free: a thread waits for it otherwise.
    fn wait_exclusive(&mut self)
        requires
            old(self).exclusive_lock == 0,
        ensures
            *final(self) == (Self { exclusive_lock: 1, ..*old(self) }),
    {
        self.exclusive_lock = 1;
    }

    /// Frees the exclusive lock.
    fn release_exclusive(&mut self)
        ensures
            *final(self) == (Self { exclusive_lock: 0, ..*old(self) }),
    {
        self.exclusive_lock = 0;
    }

    /// Keeps every block for reuse that waits for readers.
    fn drain_recycles(&mut self)
        requires
            old(self).stores_ok(),
        ensures
            final(self).stores_ok(),
            final(self).same_elements(*old(self)),
            final(self).waiting() == Seq::<RecycleEntry<T>>::empty(),
            gains(final(self).spare(), old(self).spare(), old(self).waiting().len()),
            final(self).block_array@ == all_forgotten(
                old(self).block_array@,
                old(self).waiting(),
            ),
    {
        let ghost entries = self.waiting();
        let ghost mut done: int = 0;
        proof {
            self.free_list.lemma_wf();
            assert(entries.skip(0) =~= entries);
        }
        loop
            invariant
                self.stores_ok(),
                self.same_elements(*old(self)),
                entries == old(self).waiting(),
                0 <= done <= entries.len(),
                self.waiting() == entries.skip(done),
                gains(self.spare(), old(self).spare(), done as nat),
                self.block_array@ == all_forgotten(
                    old(self).block_array@,
                    entries.take(done),
                ),
            decreases self.recycle_queue.backlog(),
        {
            let ghost left = self.waiting();
            proof {
                self.recycle_queue.lemma_wf();
                self.recycle_queue.lemma_settled_slots();
            }
            match self.recycle_queue.pop() {
                None => {
                    proof {
                        assert(entries.take(done) =~= entries);
                    }
                    return;
                },
                Some(entry) => {
                    proof {
                        assert(entry == entries[done]);
                        assert(left.drop_first() =~= entries.skip(done + 1));
                        assert(entries.take(done + 1).drop_last() =~= entries.take(done));
                        done = done + 1;
                    }
                    let mut block = entry.block;
                    let ghost cache = self.block_array;
                    self.block_array.clear(entry.block_idx);
                    proof {
                        assert forall|idx: usize|
                            self.head_block() <= idx < NO_BLOCK && #[trigger] self.block_array.has(
                                idx,
                            ) implies idx <= self.tail_block() by {
                            assert(cache.has(idx));
                        }
                    }
                    block.reset();
                    self.keep_block(block);
                },
            }
        }
    }

    /// Notes no block at all in the cache.
    fn forget_blocks(&mut self)
        requires
            old(self).block_array.wf(),
        ensures
            final(self).block_array.wf(),
            forall|idx: usize| !#[trigger] final(self).block_array.has(idx),
            final(self).same_elements(*old(self)),
            final(self).free_list == old(self).free_list,
            final(self).recycle_queue == old(self).recycle_queue,
    {
        let mut i: usize = 0;
        while i < BLOCK_CAP
            invariant
                i <= 32,
                self.block_array.wf(),
                forall|j: int| 0 <= j < i ==> !(#[trigger] self.block_array@[j]).present,
                self.same_elements(*old(self)),
                self.free_list == old(self).free_list,
                self.recycle_queue == old(self).recycle_queue,
            decreases 32 - i,
        {
            self.block_array.set(i, false);
            i += 1;
        }
        proof {
            assert forall|idx: usize| !#[trigger] self.block_array.has(idx) by {
                assert(!self.block_array@[idx as int % 32].present);
            }
        }
    }

    /// Drops every element, starts the indices over, and pushes `cap` values that `init`
    /// gives. Returns `cap`.
    pub fn reset_with(&mut self, cap: usize, init: impl FnMut() -> T) -> (count: usize)
        requires
            old(self).wf(),
            cap <= push_limit(),
            init.requires(()),
        ensures
            final(self).wf(),
            count == cap,
            final(self)@.len() == cap,
            forall|i: int| 0 <= i < cap ==> init.ensures((), #[trigger] final(self)@[i]),
            final(self).head_pos() == 0,
            final(self).room() == push_limit() - cap,
            final(self).ref_count() == old(self).ref_count(),
            final(self).is_quiet(),
            old(self).is_quiet() ==> final(self).spare_blocks() == without(
                at_most(
                    (old(self).spare_blocks() + old(self).tail_pos() / 32 - old(self).head_pos()
                        / 32) as nat,
                    FREE_BLOCKS,
                ),
                (final(self).tail_pos() / 32) as int,
            ),
    {
        self.wait_exclusive();
        proof {
            self.lemma_at_rest();
        }
        loop
            invariant
                self.inv(),
                self.ref_count == old(self).ref_count,
                self.exclusive_lock == 1,
                self.spares_given(*old(self)),
                self.head_pos() >= old(self).head_pos(),
                self.tail_pos() == old(self).tail_pos(),
            ensures
                self.inv(),
                self.ref_count == old(self).ref_count,
                self.exclusive_lock == 1,
                self@.len() == 0,
                self.spares_given(*old(self)),
                self.tail_pos() == old(self).tail_pos(),
            decreases self@.len(),
        {
            proof {
                self.lemma_at_rest();
            }
            match self.pop_inner() {
                Some(_) => {},
                None => {
                    break;
                },
            }
        }
        proof {
            self.lemma_at_rest();
        }
        let ghost drained = *self;
        self.drain_recycles();
        proof {
            self.lemma_positions();
            assert(self.chain@[0].wf());
            assert(drained.spare().len() == drained.spare_blocks());
            assert(self.spare().len() == self.spare_blocks());
        }
        self.head_index = 0;
        self.tail_index = 0;
        self.len = 0;
        self.forget_blocks();
        self.chain[0].reset();
        let ghost forgotten = self.block_array;
        self.block_array.set(0, true);
        proof {
            assert forall|idx: usize|
                self.head_block() <= idx < NO_BLOCK && #[trigger] self.block_array.has(
                    idx,
                ) implies idx <= self.tail_block() by {
                assert(!forgotten.has(idx));
            }
            assert(self.inv());
        }
        self.fill(cap, init);
        let ghost filled = self@;
        self.release_exclusive();
        proof {
            assert(self@ =~= filled);
        }
        cap
    }

    /// Takes every element while the exclusive lock is held.
    pub fn as_vec(&mut self) -> (items: Vec<T>)
        requires
            old(self).wf(),
        ensures
            final(self).wf(),
            items@ == old(self)@,
            final(self)@ == Seq::<T>::empty(),
            final(self).tail_pos() == old(self).tail_pos(),
            final(self).ref_count() == old(self).ref_count(),
            final(self).head_pos() == old(self).tail_pos(),
            final(self).spares_given(*old(self)),
    {
        self.wait_exclusive();
        let items = self.drain_inner();
        self.release_exclusive();
        items
    }

    /// A walk that has seen nothing yet.
    fn walk(&self) -> (walk: Walk)
        requires
            self.inv(),
        ensures
            self.walks(walk),
            self.seen(walk) == 0,
    {
        let start: usize = position_of(self.head_index);
        let end: usize = position_of(self.tail_index);
        proof {
            crate::atomic::index::lemma_index_bits(start);
            self.lemma_positions();
        }
        Walk {
            block: 0,
            block_start: start & !BLOCK_CAP_MASK,
            offset: start & BLOCK_CAP_MASK,
            end,
        }
    }

    /// The walk is at a slot between the head and the tail.
    spec fn walks(self, walk: Walk) -> bool {
        &&& walk.end == self.tail_pos()
        &&& walk.block_start == 32 * (self.head_block() + walk.block)
        &&& walk.offset <= 31
        &&& 0 <= self.seen(walk) <= self@.len()
    }

    /// How many elements the walk has passed.
    spec fn seen(self, walk: Walk) -> int {
        31 * (self.head_block() + walk.block) + walk.offset - self.head_rank()
    }

    /// The next element of a walk from the head to the tail; `None` at the tail.
    fn walk_on(&self, walk: &mut Walk) -> (item: Option<&T>)
        requires
            self.inv(),
            self.walks(*old(walk)),
        ensures
            self.walks(*final(walk)),
            item is Some <==> self.seen(*old(walk)) < self@.len(),
            item matches Some(item) ==> *item == self@[self.seen(*old(walk))],
            self.seen(*final(walk)) == self.seen(*old(walk)) + if item is Some {
                1int
            } else {
                0
            },
    {
        proof {
            self.lemma_positions();
        }
        while walk.block_start < walk.end && walk.block < self.chain.len()
            invariant
                self.inv(),
                self.walks(*walk),
                self.seen(*walk) == self.seen(*old(walk)),
                self.head_rank() == 31 * self.head_block() + self.head_pos() % 32,
                self.tail_rank() == 31 * self.tail_block() + self.tail_pos() % 32,
            decreases self.chain.len() - walk.block,
        {
            if walk.offset < BLOCK_CAP - 1 {
                if walk.block_start + walk.offset >= walk.end {
                    return None;
                }
                proof {
                    self.lemma_element(self.seen(*walk));
                    assert((self.head_rank() + self.seen(*walk)) / 31 - self.head_block()
                        == walk.block);
                    assert(self.chain@[walk.block as int].wf());
                    assert(1usize & 1 == 1) by (bit_vector);
                }
                let slot = &self.chain[walk.block].slots[walk.offset];
                walk.offset = walk.offset + 1;
                if slot.state & WRITE != 0 {
                    return slot.value.as_ref();
                }
            } else {
                walk.block = walk.block + 1;
                walk.block_start = walk.block_start + BLOCK_CAP;
                walk.offset = 0;
            }
        }
        None
    }

    /// The index of the first element that equals `value`.
    pub fn index_of(&mut self, value: &T) -> (result: Option<usize>) where T: PartialEq
        requires
            old(self).wf(),
        ensures
            *final(self) == *old(self),
            result matches Some(i) ==> i < old(self)@.len(),
            T::obeys_eq_spec() ==> match result {
                Some(i) => {
                    &&& old(self)@[i as int].eq_spec(value)
                    &&& forall|j: int| 0 <= j < i ==> !(#[trigger] old(self)@[j]).eq_spec(value)
                },
                None => forall|j: int|
                    0 <= j < old(self)@.len() ==> !(#[trigger] old(self)@[j]).eq_spec(value),
            },
    {
        self.wait_exclusive();
        proof {
            assert(self@ =~= old(self)@);
        }
        let result = self.index_of_inner(value);
        self.release_exclusive();
        result
    }

    fn index_of_inner(&self, value: &T) -> (result: Option<usize>) where T: PartialEq
        requires
            self.inv(),
        ensures
            result matches Some(i) ==> i < self@.len(),
            T::obeys_eq_spec() ==> match result {
                Some(i) => {
                    &&& self@[i as int].eq_spec(value)
                    &&& forall|j: int| 0 <= j < i ==> !(#[trigger] self@[j]).eq_spec(value)
                },
                None => forall|j: int|
                    0 <= j < self@.len() ==> !(#[trigger] self@[j]).eq_spec(value),
            },
    {
        let mut walk = self.walk();
        let mut logical_idx: usize = 0;
        loop
            invariant
                self.inv(),
                self.walks(walk),
                logical_idx == self.seen(walk),
                T::obeys_eq_spec() ==> forall|j: int|
                    0 <= j < logical_idx ==> !(#[trigger] self@[j]).eq_spec(value),
            decreases self@.len() - logical_idx,
        {
            match self.walk_on(&mut walk) {
                None => {
                    return None;
                },
                Some(item) => {
                    if item == value {
                        return Some(logical_idx);
                    }
                    logical_idx = logical_idx + 1;
                },
            }
        }
    }

    /// Whether an element equals `value`.
    pub fn contains(&mut self, value: &T) -> (found: bool) where T: PartialEq
        requires
            old(self).wf(),
        ensures
            *final(self) == *old(self),
            T::obeys_eq_spec() ==> (found <==> exists|j: int|
                0 <= j < old(self)@.len() && (#[trigger] old(self)@[j]).eq_spec(value)),
    {
        self.index_of(value).is_some()
    }

    /// A clone of the first element that `predicate` accepts.
    pub fn find<F>(&mut self, predicate: F) -> (result: Option<T>) where
        F: Fn(&T) -> bool,
        T: Clone,

        requires
            old(self).wf(),
            forall|j: int|
                0 <= j < old(self)@.len() ==> predicate.requires((&#[trigger] old(self)@[j],)),
        ensures
            *final(self) == *old(self),
            match result {
                Some(item) => exists|i: int|
                    {
                        &&& 0 <= i < old(self)@.len()
                        &&& cloned(#[trigger] old(self)@[i], item)
                        &&& predicate.ensures((&old(self)@[i],), true)
                        &&& forall|j: int|
                            0 <= j < i ==> predicate.ensures((&#[trigger] old(self)@[j],), false)
                    },
                None => forall|j: int|
                    0 <= j < old(self)@.len() ==> predicate.ensures(
                        (&#[trigger] old(self)@[j],),
                        false,
                    ),
            },
    {
        self.wait_exclusive();
        proof {
            assert(self@ =~= old(self)@);
        }
        let result = self.find_inner(predicate);
        self.release_exclusive();
        result
    }

    fn find_inner<F>(&self, predicate: F) -> (result: Option<T>) where
        F: Fn(&T) -> bool,
        T: Clone,

        requires
            self.inv(),
            forall|j: int| 0 <= j < self@.len() ==> predicate.requires((&#[trigger] self@[j],)),
        ensures
            match result {
                Some(item) => exists|i: int|
                    {
                        &&& 0 <= i < self@.len()
                        &&& cloned(#[trigger] self@[i], item)
                        &&& predicate.ensures((&self@[i],), true)
                        &&& forall|j: int|
                            0 <= j < i ==> predicate.ensures((&#[trigger] self@[j],), false)
                    },
                None => forall|j: int|
                    0 <= j < self@.len() ==> predicate.ensures((&#[trigger] self@[j],), false),
            },
    {
        let mut walk = self.walk();
        loop
            invariant
                self.inv(),
                self.walks(walk),
                forall|j: int| 0 <= j < self@.len() ==> predicate.requires((&#[trigger] self@[j],)),
                forall|j: int|
                    0 <= j < self.seen(walk) ==> predicate.ensures((&#[trigger] self@[j],), false),
            decreases self@.len() - self.seen(walk),
        {
            match self.walk_on(&mut walk) {
                None => {
                    return None;
                },
                Some(item) => {
                    if predicate(item) {
                        return Some(item.clone());
                    }
                },
            }
        }
    }

    /// Calls `f` on every element, the first one first.
    pub fn for_each<F>(&mut self, f: F) where F: Fn(&T)
        requires
            old(self).wf(),
            forall|j: int| 0 <= j < old(self)@.len() ==> f.requires((&#[trigger] old(self)@[j],)),
        ensures
            *final(self) == *old(self),
            forall|j: int|
                0 <= j < old(self)@.len() ==> f.ensures((&#[trigger] old(self)@[j],), ()),
    {
        self.wait_exclusive();
        proof {
            assert(self@ =~= old(self)@);
        }
        self.for_each_inner(f);
        self.release_exclusive();
    }

    fn for_each_inner<F>(&self, f: F) where F: Fn(&T)
        requires
            self.inv(),
            forall|j: int| 0 <= j < self@.len() ==> f.requires((&#[trigger] self@[j],)),
        ensures
            forall|j: int| 0 <= j < self@.len() ==> f.ensures((&#[trigger] self@[j],), ()),
    {
        let mut walk = self.walk();
        loop
            invariant
                self.inv(),
                self.walks(walk),
                forall|j: int| 0 <= j < self@.len() ==> f.requires((&#[trigger] self@[j],)),
                forall|j: int| 0 <= j < self.seen(walk) ==> f.ensures((&#[trigger] self@[j],), ()),
            decreases self@.len() - self.seen(walk),
        {
            match self.walk_on(&mut walk) {
                None => {
                    return;
                },
                Some(item) => {
                    f(item);
                },
            }
        }
    }

    /// Combines `init` with every element by `f`, the first one first.
    pub fn fold<B, F>(&mut self, init: B, f: F) -> (result: B) where F: Fn(B, &T) -> B
        requires
            old(self).wf(),
            forall|acc: B, j: int|
                0 <= j < old(self)@.len() && #[trigger] folds_to(f, init, old(self)@.take(j), acc)
                    ==> f.requires((acc, &old(self)@[j])),
        ensures
            *final(self) == *old(self),
            folds_to(f, init, old(self)@, result),
    {
        self.wait_exclusive();
        proof {
            assert(self@ =~= old(self)@);
        }
        let result = self.fold_inner(init, f);
        self.release_exclusive();
        result
    }

    fn fold_inner<B, F>(&self, init: B, f: F) -> (result: B) where F: Fn(B, &T) -> B
        requires
            self.inv(),
            forall|acc: B, j: int|
                0 <= j < self@.len() && #[trigger] folds_to(f, init, self@.take(j), acc)
                    ==> f.requires((acc, &self@[j])),
        ensures
            folds_to(f, init, self@, result),
    {
        let mut walk = self.walk();
        let ghost first = init;
        let mut acc = init;
        proof {
            assert(self@.take(0) =~= Seq::<T>::empty());
        }
        loop
            invariant
                self.inv(),
                self.walks(walk),
                forall|acc: B, j: int|
                    0 <= j < self@.len() && #[trigger] folds_to(f, first, self@.take(j), acc)
                        ==> f.requires((acc, &self@[j])),
                first == init,
                folds_to(f, first, self@.take(self.seen(walk)), acc),
            decreases self@.len() - self.seen(walk),
        {
            let ghost n = self.seen(walk);
            match self.walk_on(&mut walk) {
                None => {
                    proof {
                        assert(self@.take(n) =~= self@);
                    }
                    return acc;
                },
                Some(item) => {
                    let ghost before = acc;
                    acc = f(acc, item);
                    proof {
                        assert(self@.take(n + 1).drop_last() =~= self@.take(n));
                        assert(f.ensures((before, &self@.take(n + 1).last()), acc));
                    }
                },
            }
        }
    }

    /// Combines a clone of the first element with every later one by `f`; `None` when there is
    /// no element.
    pub fn reduce<F>(&mut self, f: F) -> (result: Option<T>) where F: Fn(T, &T) -> T, T: Clone
        requires
            old(self).wf(),
            forall|first: T, acc: T, j: int|
                1 <= j < old(self)@.len() && cloned(old(self)@[0], first) && #[trigger] folds_to(
                    f,
                    first,
                    old(self)@.subrange(1, j),
                    acc,
                ) ==> f.requires((acc, &old(self)@[j])),
        ensures
            *final(self) == *old(self),
            result is None <==> old(self)@.len() == 0,
            result matches Some(total) ==> exists|first: T| #[trigger]
                cloned(old(self)@[0], first) && folds_to(f, first, old(self)@.skip(1), total),
    {
        self.wait_exclusive();
        proof {
            assert(self@ =~= old(self)@);
        }
        let result = self.reduce_inner(f);
        self.release_exclusive();
        result
    }

    fn reduce_inner<F>(&self, f: F) -> (result: Option<T>) where F: Fn(T, &T) -> T, T: Clone
        requires
            self.inv(),
            forall|first: T, acc: T, j: int|
                1 <= j < self@.len() && cloned(self@[0], first) && #[trigger] folds_to(
                    f,
                    first,
                    self@.subrange(1, j),
                    acc,
                ) ==> f.requires((acc, &self@[j])),
        ensures
            result is None <==> self@.len() == 0,
            result matches Some(total) ==> exists|first: T| #[trigger]
                cloned(self@[0], first) && folds_to(f, first, self@.skip(1), total),
    {
        let mut walk = self.walk();
        let mut acc = match self.walk_on(&mut walk) {
            None => {
                return None;
            },
            Some(item) => item.clone(),
        };
        let ghost first = acc;
        proof {
            assert(self@.subrange(1, 1) =~= Seq::<T>::empty());
        }
        loop
            invariant
                self.inv(),
                self.walks(walk),
                1 <= self.seen(walk),
                cloned(self@[0], first),
                forall|first: T, acc: T, j: int|
                    1 <= j < self@.len() && cloned(self@[0], first) && #[trigger] folds_to(
                        f,
                        first,
                        self@.subrange(1, j),
                        acc,
                    ) ==> f.requires((acc, &self@[j])),
                folds_to(f, first, self@.subrange(1, self.seen(walk)), acc),
            decreases self@.len() - self.seen(walk),
        {
            let ghost n = self.seen(walk);
            match self.walk_on(&mut walk) {
                None => {
                    proof {
                        assert(self@.subrange(1, n) =~= self@.skip(1));
                        assert(folds_to(f, first, self@.skip(1), acc));
                    }
                    return Some(acc);
                },
                Some(item) => {
                    let ghost before = acc;
                    acc = f(acc, item);
                    proof {
                        assert(self@.subrange(1, n + 1).drop_last() =~= self@.subrange(1, n));
                        assert(f.ensures((before, &self@.subrange(1, n + 1).last()), acc));
                    }
                },
            }
        }
    }

    /// Where in the chain the block `target` is, by the cache or by a walk from the head's
    /// block `start`.
    fn get_block_at(&self, target: usize, start: usize) -> (block: Option<usize>)
        requires
            self.inv(),
            start == self.head_block(),
            start <= target < NO_BLOCK,
        ensures
            block == if target <= self.tail_block() {
                Some((target - start) as usize)
            } else {
                None
            },
    {
        if self.block_array.get(target) {
            return Some(target - start);
        }
        let mut block: usize = 0;
        let mut current: usize = start;
        while current < target && block < self.chain.len()
            invariant
                start <= current <= target,
                block == current - start,
                block <= self.chain.len(),
            decreases target - current,
        {
            block = block + 1;
            current = current + 1;
        }
        if block < self.chain.len() {
            Some(block)
        } else {
            None
        }
    }

    /// A clone of the element that stands at [`get_pos`], for an index below [`block_len`] and
    /// a position that is neither a gap nor past the tail.
    pub fn get(&mut self, index: usize) -> (result: Option<T>) where T: Clone
        requires
            old(self).wf(),
        ensures
            *final(self) == *old(self),
            ({
                let head = old(self).head_pos();
                let tail = old(self).tail_pos();
                let pos = get_pos(head, index as nat);
                &&& result is Some <==> index < block_len(head, tail) && pos % 32 != 31 && pos
                    < tail
                &&& result matches Some(item) ==> cloned(
                    old(self)@[rank(pos) - rank(head)],
                    item,
                )
            }),
    {
        self.wait_exclusive();
        proof {
            assert(self@ =~= old(self)@);
        }
        let result = self.get_inner(index);
        self.release_exclusive();
        result
    }

    fn get_inner(&self, index: usize) -> (result: Option<T>) where T: Clone
        requires
            self.inv(),
        ensures
            ({
                let head = self.head_pos();
                let tail = self.tail_pos();
                let pos = get_pos(head, index as nat);
                &&& result is Some <==> index < block_len(head, tail) && pos % 32 != 31 && pos
                    < tail
                &&& result matches Some(item) ==> cloned(self@[rank(pos) - rank(head)], item)
            }),
    {
        let start: usize = position_of(self.head_index);
        let end: usize = position_of(self.tail_index);
        if index >= calc_len(start, end) {
            return None;
        }
        let target_abs: usize = start + index;
        let adjusted_offset: usize = offset_of(target_abs) + target_abs / (BLOCK_CAP - 1);
        let pos: usize = start + adjusted_offset;
        let final_offset: usize = offset_of(pos);
        match self.get_block_at(block_of(pos), block_of(start)) {
            None => None,
            Some(block) => {
                if final_offset >= BLOCK_CAP - 1 {
                    return None;
                }
                proof {
                    self.lemma_positions();
                    assert(self.chain@[block as int].wf());
                    assert(self.slot_ok(block as int, final_offset as int)) by {
                        let slot = self.chain@[block as int].slots@[final_offset as int];
                    }
                    assert(0usize & 1 == 0 && 1usize & 1 == 1) by (bit_vector);
                    if pos < end {
                        self.lemma_element(rank(pos as nat) - self.head_rank());
                    }
                }
                let slot = &self.chain[block].slots[final_offset];
                if slot.state & WRITE != 0 {
                    match &slot.value {
                        Some(item) => Some(item.clone()),
                        None => None,
                    }
                } else {
                    None
                }
            },
        }
    }

    /// Exchanges two elements. An index from the second block's worth on counts from the
    /// start of the head's block, and one that would run over the head's block is refused.
    pub fn swap(&mut self, i: usize, j: usize) -> (done: bool)
        requires
            old(self).wf(),
        ensures
            final(self).wf(),
            final(self).head_pos() == old(self).head_pos(),
            final(self).tail_pos() == old(self).tail_pos(),
            final(self).ref_count() == old(self).ref_count(),
            ({
                let head = old(self).head_pos();
                let tail = old(self).tail_pos();
                &&& done <==> i == j || (swappable(head, tail, i as nat) && swappable(
                    head,
                    tail,
                    j as nat,
                ))
                &&& final(self)@ == if done && i != j {
                    exchanged(
                        old(self)@,
                        swap_index(head, i as nat),
                        swap_index(head, j as nat),
                    )
                } else {
                    old(self)@
                }
            }),
            old(self).is_quiet() ==> final(self).is_quiet(),
            final(self).spare_blocks() == old(self).spare_blocks(),
    {
        if i == j {
            return true;
        }
        self.wait_exclusive();
        proof {
            assert(self@ =~= old(self)@);
        }
        let result = self.swap_inner(i, j);
        let ghost swapped = self@;
        self.release_exclusive();
        proof {
            assert(self@ =~= swapped);
        }
        result
    }

    fn swap_inner(&mut self, i: usize, j: usize) -> (done: bool)
        requires
            old(self).inv(),
        ensures
            final(self).inv(),
            final(self).head_index == old(self).head_index,
            final(self).tail_index == old(self).tail_index,
            final(self).ref_count == old(self).ref_count,
            final(self).exclusive_lock == old(self).exclusive_lock,
            ({
                let head = old(self).head_pos();
                let tail = old(self).tail_pos();
                &&& done <==> swappable(head, tail, i as nat) && swappable(head, tail, j as nat)
                &&& final(self)@ == if done {
                    exchanged(
                        old(self)@,
                        swap_index(head, i as nat),
                        swap_index(head, j as nat),
                    )
                } else {
                    old(self)@
                }
            }),
            old(self).is_quiet() ==> final(self).is_quiet(),
            final(self).free_list == old(self).free_list,
    {
        let start: usize = position_of(self.head_index);
        let end: usize = position_of(self.tail_index);
        let len: usize = calc_len(start, end);
        if i >= len || j >= len {
            return false;
        }
        match (self.get_slot(i, start), self.get_slot(j, start)) {
            (Some((block_i, offset_i)), Some((block_j, offset_j))) => {
                if block_i != block_j || offset_i != offset_j {
                    self.exchange_slots(block_i, offset_i, block_j, offset_j);
                } else {
                    proof {
                        assert(self@ =~= exchanged(
                            self@,
                            swap_index(self.head_pos(), i as nat),
                            swap_index(self.head_pos(), j as nat),
                        ));
                    }
                }
                true
            },
            _ => false,
        }
    }

    /// Exchanges the elements of two slots between the head and the tail.
    #[verifier::spinoff_prover]
    #[verifier::rlimit(40)]
    fn exchange_slots(&mut self, k: usize, o: usize, l: usize, p: usize)
        requires
            old(self).inv(),
            k < old(self).chain.len(),
            l < old(self).chain.len(),
            o < 31,
            p < 31,
            k != l || o != p,
            old(self).head_rank() <= (old(self).head_block() + k) * 31 + o
                < old(self).tail_rank(),
            old(self).head_rank() <= (old(self).head_block() + l) * 31 + p
                < old(self).tail_rank(),
        ensures
            final(self).inv(),
            final(self).head_index == old(self).head_index,
            final(self).tail_index == old(self).tail_index,
            final(self).ref_count == old(self).ref_count,
            final(self).exclusive_lock == old(self).exclusive_lock,
            final(self)@ == exchanged(
                old(self)@,
                (old(self).head_block() + k) * 31 + o - old(self).head_rank(),
                (old(self).head_block() + l) * 31 + p - old(self).head_rank(),
            ),
            old(self).is_quiet() ==> final(self).is_quiet(),
            final(self).free_list == old(self).free_list,
    {
        proof {
            assert(self.chain@[k as int].wf());
            assert(self.chain@[l as int].wf());
        }
        let mut held: Option<T> = None;
        self.chain[k].exchange(o, &mut held);
        proof {
            assert(self.chain@[l as int].wf());
        }
        self.chain[l].exchange(p, &mut held);
        proof {
            assert(self.chain@[k as int].wf());
        }
        self.chain[k].exchange(o, &mut held);
        proof {
            self.lemma_exchanged(*old(self), k as int, o as int, l as int, p as int);
        }
    }

    proof fn lemma_exchanged(self, before: Self, k: int, o: int, l: int, p: int)
        requires
            before.inv(),
            self.head_index == before.head_index,
            self.tail_index == before.tail_index,
            self.len == before.len,
            self.free_list == before.free_list,
            self.recycle_queue == before.recycle_queue,
            self.block_array == before.block_array,
            0 <= k < before.chain.len(),
            0 <= l < before.chain.len(),
            0 <= o < 31,
            0 <= p < 31,
            k != l || o != p,
            before.head_rank() <= (before.head_block() + k) * 31 + o < before.tail_rank(),
            before.head_rank() <= (before.head_block() + l) * 31 + p < before.tail_rank(),
            self.chain.len() == before.chain.len(),
            forall|b: int|
                0 <= b < self.chain.len() ==> {
                    &&& (#[trigger] self.chain@[b]).counters == before.chain@[b].counters
                    &&& self.chain@[b].slots@.len() == before.chain@[b].slots@.len()
                },
            forall|b: int, q: int|
                #![trigger self.chain@[b].slots@[q]]
                0 <= b < self.chain.len() && 0 <= q < 32 ==> {
                    &&& self.chain@[b].slots@[q].state == before.chain@[b].slots@[q].state
                    &&& self.chain@[b].slots@[q].value == if b == k && q == o {
                        before.chain@[l].slots@[p].value
                    } else if b == l && q == p {
                        before.chain@[k].slots@[o].value
                    } else {
                        before.chain@[b].slots@[q].value
                    }
                },
        ensures
            self.inv(),
            self@ == exchanged(
                before@,
                (before.head_block() + k) * 31 + o - before.head_rank(),
                (before.head_block() + l) * 31 + p - before.head_rank(),
            ),
    {
        before.lemma_positions();
        let i = (before.head_block() + k) * 31 + o - before.head_rank();
        let j = (before.head_block() + l) * 31 + p - before.head_rank();
        before.lemma_element(i);
        before.lemma_element(j);
        assert forall|b: int| 0 <= b < self.chain.len() implies {
            &&& (#[trigger] self.chain@[b]).wf()
            &&& pending(self.chain@[b].counters) < u32::MAX
            &&& read(self.chain@[b].counters) == if b == 0 {
                self.head_pos() % 32
            } else {
                0
            }
        } by {
            assert(before.chain@[b].wf());
        }
        assert forall|b: int, q: int|
            #![trigger self.chain@[b].slots@[q]]
            0 <= b < self.chain.len() && 0 <= q < 32 implies self.slot_ok(b, q) by {
            let slot = before.chain@[b].slots@[q];
            assert(before.slot_ok(b, q));
        }
        assert forall|n: int| 0 <= n < before@.len() implies self@[n] == exchanged(
            before@,
            i,
            j,
        )[n] by {
            before.lemma_element(n);
            let r = before.head_rank() + n;
            let b = r / 31 - before.head_block();
            let slot = self.chain@[b].slots@[r % 31];
            if n != i && n != j {
                assert(b != k || r % 31 != o);
                assert(b != l || r % 31 != p);
            }
        }
        assert(self@ =~= exchanged(before@, i, j));
    }

    /// The block and the offset of the slot that an index of [`AtomicVec::swap`] names.
    fn get_slot(&self, index: usize, start: usize) -> (slot: Option<(usize, usize)>)
        requires
            self.inv(),
            start == self.head_pos(),
            index < block_len(self.head_pos(), self.tail_pos()),
        ensures
            slot is Some <==> swappable(self.head_pos(), self.tail_pos(), index as nat),
            slot matches Some((block, offset)) ==> {
                &&& block < self.chain.len()
                &&& offset < 31
                &&& (self.head_block() + block) * 31 + offset == self.head_rank() + swap_index(
                    self.head_pos(),
                    index as nat,
                )
                &&& 0 <= swap_index(self.head_pos(), index as nat) < self@.len()
            },
    {
        proof {
            self.lemma_positions();
        }
        let slots_per_block: usize = BLOCK_CAP - 1;
        let block_num: usize = index / slots_per_block;
        let slot_in_block: usize = index % slots_per_block;
        let first: usize = block_of(start);
        match self.get_block_at(first + block_num, first) {
            None => None,
            Some(block) => {
                let base_offset: usize = if block_num == 0 {
                    offset_of(start)
                } else {
                    0
                };
                let offset: usize = base_offset + slot_in_block;
                if offset >= BLOCK_CAP - 1 {
                    return None;
                }
                Some((block, offset))
            },
        }
    }

    /// Takes the element at `index` out; `None` past the last. The others are taken out and
    /// pushed again.
    pub fn remove(&mut self, index: usize) -> (result: Option<T>)
        requires
            old(self).wf(),
            index < old(self)@.len() ==> old(self).room() >= old(self)@.len() - 1,
        ensures
            final(self).wf(),
            final(self).ref_count() == old(self).ref_count(),
            result is None <==> index >= old(self)@.len(),
            result is None ==> *final(self) == *old(self),
            result matches Some(item) ==> {
                &&& item == old(self)@[index as int]
                &&& final(self)@ == old(self)@.remove(index as int)
                &&& final(self).head_pos() == old(self).tail_pos()
                &&& final(self).room() == old(self).room() - (old(self)@.len() - 1)
                &&& final(self).spares_turned_over(*old(self))
            },
    {
        self.wait_exclusive();
        proof {
            assert(self@ =~= old(self)@);
        }
        let result = self.remove_inner(index);
        let ghost left = self@;
        self.release_exclusive();
        proof {
            assert(self@ =~= left);
        }
        result
    }

    fn remove_inner(&mut self, index: usize) -> (result: Option<T>)
        requires
            old(self).inv(),
            index < old(self)@.len() ==> old(self).room() >= old(self)@.len() - 1,
        ensures
            final(self).inv(),
            final(self).ref_count == old(self).ref_count,
            final(self).exclusive_lock == old(self).exclusive_lock,
            result is None <==> index >= old(self)@.len(),
            result is None ==> *final(self) == *old(self),
            result matches Some(item) ==> {
                &&& item == old(self)@[index as int]
                &&& final(self)@ == old(self)@.remove(index as int)
                &&& final(self).head_pos() == old(self).tail_pos()
                &&& final(self).room() == old(self).room() - (old(self)@.len() - 1)
                &&& final(self).spares_turned_over(*old(self))
            },
    {
        if index >= self.len {
            return None;
        }
        let mut elements = self.drain_inner();
        proof {
            self.lemma_positions();
        }
        let removed = elements.remove(index);
        self.push_all(elements);
        proof {
            assert(self@ =~= old(self)@.remove(index as int));
        }
        Some(removed)
    }

    /// Turns the order of the elements round. They are taken out and pushed again.
    pub fn reverse(&mut self)
        requires
            old(self).wf(),
            old(self).room() >= old(self)@.len(),
        ensures
            final(self).wf(),
            final(self)@ == old(self)@.reverse(),
            final(self).head_pos() == old(self).tail_pos(),
            final(self).room() == old(self).room() - old(self)@.len(),
            final(self).ref_count() == old(self).ref_count(),
            final(self).spares_turned_over(*old(self)),
    {
        self.wait_exclusive();
        proof {
            assert(self@ =~= old(self)@);
        }
        self.reverse_inner();
        let ghost reversed = self@;
        self.release_exclusive();
        proof {
            assert(self@ =~= reversed);
        }
    }

    fn reverse_inner(&mut self)
        requires
            old(self).inv(),
            old(self).room() >= old(self)@.len(),
        ensures
            final(self).inv(),
            final(self)@ == old(self)@.reverse(),
            final(self).head_pos() == old(self).tail_pos(),
            final(self).room() == old(self).room() - old(self)@.len(),
            final(self).ref_count == old(self).ref_count,
            final(self).exclusive_lock == old(self).exclusive_lock,
            final(self).spares_turned_over(*old(self)),
    {
        let mut elements = self.drain_inner();
        let ghost all = elements@;
        proof {
            self.lemma_positions();
            assert(self@ =~= all.reverse().take(0));
        }
        while elements.len() > 0
            invariant
                elements@ == all.take(elements@.len() as int),
                elements@.len() <= all.len(),
                self.inv(),
                self@ == all.reverse().take(all.len() - elements@.len()),
                self.head_pos() == old(self).tail_pos(),
                self.room() == old(self).room() - (all.len() - elements@.len()),
                old(self).room() >= all.len(),
                self.spares_turned_over(*old(self)),
                self.tail_pos() >= old(self).tail_pos(),
                self.ref_count == old(self).ref_count,
                self.exclusive_lock == old(self).exclusive_lock,
            decreases elements@.len(),
        {
            let ghost left = elements@.len();
            proof {
                self.lemma_at_rest();
            }
            match elements.pop() {
                None => {},
                Some(value) => {
                    self.push_inner(value);
                    proof {
                        assert(elements@ =~= all.take(left - 1));
                        assert(self@ =~= all.reverse().take(all.len() - left + 1));
                    }
                },
            }
        }
        proof {
            assert(all.reverse().take(all.len() as int) =~= all.reverse());
        }
    }

    /// A vector of the items, the first one first.
    pub fn from_iter(items: Vec<T>) -> (vec: Self)
        requires
            items@.len() <= push_limit(),
        ensures
            vec.wf(),
            vec@ == items@,
            vec.head_pos() == 0,
            vec.room() == push_limit() - items@.len(),
            vec.ref_count() == 1,
            vec.is_quiet(),
            vec.spare_blocks() == 0,
    {
        let mut vec = Self::new();
        vec.push_batch(items);
        proof {
            assert(vec@ =~= items@);
        }
        vec
    }

    /// Counts one handle more.
    pub fn clone_ref(&mut self)
        requires
            old(self).wf(),
        ensures
            final(self).wf(),
            final(self)@ == old(self)@,
            final(self).head_pos() == old(self).head_pos(),
            final(self).tail_pos() == old(self).tail_pos(),
            final(self).ref_count() == bumped(old(self).ref_count()),
            final(self).stores_kept(*old(self)),
    {
        self.ref_count = self.ref_count.wrapping_add(1);
        proof {
            assert(self@ =~= old(self)@);
        }
    }

    /// Counts one handle less, and says whether it was the last.
    pub fn drop_ref(&mut self) -> (last: bool)
        requires
            old(self).wf(),
        ensures
            final(self).wf(),
            last == (old(self).ref_count() == 1),
            final(self)@ == old(self)@,
            final(self).head_pos() == old(self).head_pos(),
            final(self).tail_pos() == old(self).tail_pos(),
            final(self).ref_count() == lowered(old(self).ref_count()),
            final(self).stores_kept(*old(self)),
    {
        let previous: usize = self.ref_count;
        self.ref_count = previous.wrapping_sub(1);
        proof {
            assert(self@ =~= old(self)@);
        }
        previous == 1
    }

    /// What a debug print of the vector shows.
    pub fn report(&self) -> (report: AtomicVecReport)
        requires
            self.wf(),
        ensures
            report.len == self@.len(),
            report.capacity == (self.tail_pos() - self.head_pos()) / 32 * 32 + 32,
    {
        AtomicVecReport { len: self.len(), capacity: self.capacity() }
    }
}

impl<T> Default for AtomicVec<T> {
    fn default() -> (vec: Self)
        ensures
            vec.wf(),
            vec@ == Seq::<T>::empty(),
            vec.head_pos() == 0,
            vec.tail_pos() == 0,
            vec.ref_count() == 1,
    {
        Self::new()
    }
}

} // verus!
