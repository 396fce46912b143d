//! The index arithmetic of a vector that is kept in blocks.
//!
//! An index counts positions and carries a flag in its lowest bit. Of the positions of a
//! block, the last is a gap: a thread that finds an index there waits for the thread that
//! moves it past the gap. The head's flag says that the tail is known to be in a later
//! block.

use vstd::prelude::*;

verus! {

/// The positions of a block, its gap included.
pub const BLOCK_CAP: usize = 32;

/// The bits of a position that tell its offset in a block.
pub const BLOCK_CAP_MASK: usize = 31;

/// How far a position is shifted to tell its block.
pub const BLOCK_SHIFT: u32 = 5;

/// How far an index is shifted to tell its position.
pub const INDEX_SHIFT: u32 = 1;

/// The flag of an index.
pub const HAS_NEXT: usize = 1;

/// How many slots of a block hold elements.
pub open spec fn slots_per_block() -> int {
    31
}

/// The position of an index.
pub open spec fn position(index: usize) -> nat {
    (index / 2) as nat
}

/// The flag of an index.
pub open spec fn flagged(index: usize) -> bool {
    index % 2 == 1
}

/// How many slots lie before a position, the gaps left out.
pub open spec fn rank(pos: nat) -> nat {
    (pos - pos / 32) as nat
}

/// What a producer does that has seen the tail.
#[derive(Clone, Copy, Debug, PartialEq, Eq, Structural)]
pub enum PushPlan {
    /// The tail is in a gap: look again.
    Wait,
    /// Replace the tail by `new_tail` and write the slot at `offset`.
    Claim { new_tail: usize, offset: usize, opens: Option<NextBlock> },
}

/// What a producer does that fills the last slot of a block.
#[derive(Clone, Copy, Debug, PartialEq, Eq, Structural)]
pub struct NextBlock {
    /// The tail past the gap.
    pub next_index: usize,
    /// The number of the block that has to be appended.
    pub block_idx: usize,
}

/// What a consumer does that has seen the head and the tail.
#[derive(Clone, Copy, Debug, PartialEq, Eq, Structural)]
pub enum PopPlan {
    /// The head is in a gap: look again.
    Wait,
    /// There is nothing to take.
    Empty,
    /// Replace the head by `new_head` and read the slot at `offset`.
    Claim { new_head: usize, offset: usize, last: bool },
}

/// The arithmetic reading of the bit operations on an index.
pub proof fn lemma_index_bits(x: usize)
    ensures
        x >> 1u32 == x / 2,
        x >> 5u32 == x / 32,
        x & 31 == x % 32,
        x & !31 == x - x % 32,
        x & 1 == x % 2,
        x & !1 == x - x % 2,
        x % 2 == 0 ==> x | 1 == x + 1,
        x % 2 == 1 ==> x | 1 == x,
{
    assert({
        &&& x >> 1u32 == x / 2
        &&& x >> 5u32 == x / 32
        &&& x & 31 == x % 32
        &&& x & !31 == x - x % 32
        &&& x & 1 == x % 2
        &&& x & !1 == x - x % 2
        &&& (x % 2 == 0 ==> x | 1 == x + 1)
        &&& (x % 2 == 1 ==> x | 1 == x)
    }) by (bit_vector);
}

/// The position of an index.
pub fn position_of(index: usize) -> (pos: usize)
    ensures
        pos == position(index),
{
    proof {
        lemma_index_bits(index);
    }
    index >> INDEX_SHIFT
}

/// The block of a position.
pub fn block_of(pos: usize) -> (block: usize)
    ensures
        block == pos / 32,
{
    proof {
        lemma_index_bits(pos);
    }
    pos >> BLOCK_SHIFT
}

/// The offset of a position in its block.
pub fn offset_of(pos: usize) -> (offset: usize)
    ensures
        offset == pos % 32,
{
    proof {
        lemma_index_bits(pos);
    }
    pos & BLOCK_CAP_MASK
}

/// What a producer does that has seen the tail: it waits at a gap, and otherwise counts the
/// tail on by one position. The last slot of a block asks for the next block and for a tail
/// past the gap.
pub open spec fn planned_push(tail: usize) -> PushPlan {
    if position(tail) % 32 == 31 {
        PushPlan::Wait
    } else {
        PushPlan::Claim {
            new_tail: (tail + 2) as usize,
            offset: (position(tail) % 32) as usize,
            opens: if position(tail) % 32 == 30 {
                Some(
                    NextBlock {
                        next_index: (tail + 4) as usize,
                        block_idx: (position(tail) / 32 + 1) as usize,
                    },
                )
            } else {
                None
            },
        }
    }
}

/// What a consumer does that has seen the head and the tail: it waits at a gap; it finds
/// nothing where the two are at the same position, unless the head's flag says that the tail is
/// in a later block; and otherwise it counts the head on by one position and sets its flag
/// where the blocks differ.
pub open spec fn planned_pop(head: usize, tail: usize) -> PopPlan {
    if position(head) % 32 == 31 {
        PopPlan::Wait
    } else if !flagged(head) && position(head) == position(tail) {
        PopPlan::Empty
    } else {
        PopPlan::Claim {
            new_head: (2 * position(head) + 2 + if flagged(head) || position(head) / 32
                != position(tail) / 32 {
                1int
            } else {
                0
            }) as usize,
            offset: (position(head) % 32) as usize,
            last: position(head) % 32 == 30,
        }
    }
}

/// What to do on seeing the tail.
pub fn push_plan(tail: usize) -> (plan: PushPlan)
    requires
        tail <= usize::MAX - 4,
    ensures
        plan == planned_push(tail),
{
    let offset: usize = offset_of(position_of(tail));
    if offset == BLOCK_CAP - 1 {
        return PushPlan::Wait;
    }
    let new_tail: usize = tail + 2;
    let opens = if offset + 1 == BLOCK_CAP - 1 {
        Some(
            NextBlock {
                next_index: new_tail.wrapping_add(2),
                block_idx: block_of(position_of(new_tail)) + 1,
            },
        )
    } else {
        None
    };
    PushPlan::Claim { new_tail, offset, opens }
}

/// What to do on seeing the head and the tail.
pub fn pop_plan(head: usize, tail: usize) -> (plan: PopPlan)
    requires
        head <= usize::MAX - 4,
    ensures
        plan == planned_pop(head, tail),
{
    let offset: usize = offset_of(position_of(head));
    if offset == BLOCK_CAP - 1 {
        return PopPlan::Wait;
    }
    let mut new_head: usize = head + 2;
    proof {
        lemma_index_bits(new_head);
    }
    if new_head & HAS_NEXT == 0 {
        let head_idx: usize = position_of(head);
        let tail_idx: usize = position_of(tail);
        if head_idx == tail_idx {
            return PopPlan::Empty;
        }
        if block_of(head_idx) != block_of(tail_idx) {
            new_head = new_head | HAS_NEXT;
        }
    }
    PopPlan::Claim { new_head, offset, last: offset + 1 == BLOCK_CAP - 1 }
}

/// The head past the gap that `new_head` is in, with its flag set where one more block
/// follows the next.
pub fn head_past_gap(new_head: usize, more: bool) -> (next_index: usize)
    requires
        new_head <= usize::MAX - 4,
    ensures
        next_index == 2 * position(new_head) + 2 + if more {
            1int
        } else {
            0
        },
{
    proof {
        lemma_index_bits(new_head);
        lemma_index_bits((new_head - new_head % 2 + 2) as usize);
    }
    let next_index: usize = (new_head & !HAS_NEXT).wrapping_add(2);
    if more {
        next_index | HAS_NEXT
    } else {
        next_index
    }
}

/// An index is its position twice over, and one more with its flag set.
pub proof fn lemma_index_parts(index: usize)
    ensures
        index == 2 * position(index) + if flagged(index) {
            1int
        } else {
            0
        },
{
}

/// Of each 32 positions the last is a gap: a position that is none lies one slot after those
/// before it, and a gap adds none.
pub proof fn lemma_rank_steps(pos: nat)
    ensures
        rank(0) == 0,
        pos % 32 != 31 ==> rank(pos + 1) == rank(pos) + 1,
        pos % 32 == 31 ==> rank(pos + 1) == rank(pos),
        rank(pos + 32) == rank(pos) + slots_per_block(),
        pos < 31 ==> rank(pos) == pos,
        slots_per_block() == 31,
{
}

/// A producer waits where the tail is in a gap, and nowhere else. It claims the slot that the
/// tail names and moves the tail on by one position, with the flag as it was. Only the claim of
/// the slot before a gap opens a block, and the tail that goes with it is past the gap, at the
/// first slot of the block that is appended.
pub proof fn lemma_push_plan(tail: usize)
    requires
        tail <= usize::MAX - 4,
    ensures
        planned_push(tail) is Wait <==> (tail as int / 2) % 32 == 31,
        planned_push(tail) matches PushPlan::Claim { new_tail, offset, opens } ==> {
            &&& new_tail == tail + 2
            &&& offset < 31
            &&& tail as int / 2 == 32 * (tail as int / 64) + offset
            &&& opens is Some <==> new_tail as int / 2 == 32 * (tail as int / 64) + 31
            &&& opens matches Some(next) ==> {
                &&& next.next_index == new_tail + 2
                &&& next.next_index as int / 2 == 32 * next.block_idx
                &&& next.block_idx == tail as int / 64 + 1
            }
        },
{
}

/// A consumer waits where the head is in a gap, and nowhere else. It finds nothing exactly where
/// head and tail name one position and the head is not flagged. Otherwise it claims the slot
/// that the head names and moves the head on by one position; the head is flagged from then on
/// exactly if it was or the tail is in another block.
pub proof fn lemma_pop_plan(head: usize, tail: usize)
    requires
        head <= usize::MAX - 4,
    ensures
        planned_pop(head, tail) is Wait <==> (head as int / 2) % 32 == 31,
        planned_pop(head, tail) is Empty <==> {
            &&& (head as int / 2) % 32 != 31
            &&& head as int % 2 == 0
            &&& head as int / 2 == tail as int / 2
        },
        planned_pop(head, tail) matches PopPlan::Claim { new_head, offset, last } ==> {
            &&& new_head as int / 2 == head as int / 2 + 1
            &&& new_head as int % 2 == 1 <==> head as int % 2 == 1 || head as int / 64
                != tail as int / 64
            &&& offset < 31
            &&& head as int / 2 == 32 * (head as int / 64) + offset
            &&& last <==> (new_head as int / 2) % 32 == 31
        },
{
}

} // verus!
