//! How producers and consumers share a ring buffer without a lock.
//!
//! A thread draws a ticket by counting a counter on, and only then writes or empties the slot
//! that the ticket names; meanwhile other threads may have drawn tickets of the same slot.
//! [`PushAttempt`] and [`PopAttempt`] are the two sides of the conversation, one access to the
//! shared record at a time. [`Ring`] counts, beside the record, the threads that have drawn a
//! ticket and are not done with its slot. However the accesses follow on each other, no item is
//! lost and none comes twice, and no thread waits for a slot that nobody is going to change.

use crate::atomic::buffer::{pop_ticket, push_ticket};
use vstd::prelude::*;

verus! {

use crate::atomic::buffer::{distance, filled, lemma_filled_update, lemma_offset_step};
use crate::bits::{bumped, lemma_pow2_divides_word, word_values};
use vstd::arithmetic::power2::is_pow2;
use vstd::multiset::Multiset;

/// The next access that an attempt makes to a shared ring buffer.
#[derive(Clone, Copy, Debug, PartialEq, Eq, Structural)]
pub enum RingOp {
    /// Read the producers' counter.
    LoadTail,
    /// Read the consumers' counter.
    LoadHead,
    /// Replace the producers' counter `current` by `new`, if it still is `current`.
    ClaimTail { current: usize, new: usize },
    /// Replace the consumers' counter `current` by `new`, if it still is `current`.
    ClaimHead { current: usize, new: usize },
    /// Put the item into the slot, if the slot is empty.
    Store { slot: usize },
    /// Take the item out of the slot, if there is one.
    Take { slot: usize },
    /// Tell the processor that the thread spins.
    Hint,
    /// The attempt is over: the buffer is full, or it is empty.
    Refused,
    /// The attempt is over: the item was put or taken.
    Done,
}

/// What an access found.
#[derive(Clone, Copy, Debug, PartialEq, Eq, Structural)]
pub enum RingReply {
    /// The access has no result.
    Nothing,
    /// The counter that was read.
    Word { value: usize },
    /// The access took place.
    Took,
    /// The access did not take place.
    Lost,
}

/// Where an attempt stands.
#[derive(Clone, Copy, Debug, PartialEq, Eq, Structural)]
pub enum RingPhase {
    /// Nothing was done yet.
    Start,
    /// The attempt's own counter is being read.
    OwnRead,
    /// The other side's counter is being read.
    OtherRead,
    /// A ticket is being drawn.
    Drawing,
    /// The ticket's slot is being changed.
    Changing,
    /// The processor is being told that the thread spins.
    Hinting,
    /// The attempt is over.
    Over,
}

/// The kind of reply that the access just made gives.
pub open spec fn ring_expects(phase: RingPhase, reply: RingReply) -> bool {
    match phase {
        RingPhase::Start | RingPhase::Hinting => reply == RingReply::Nothing,
        RingPhase::OwnRead | RingPhase::OtherRead => reply is Word,
        RingPhase::Drawing | RingPhase::Changing => reply == RingReply::Took || reply
            == RingReply::Lost,
        RingPhase::Over => false,
    }
}

/// One producer's attempt to put an item into a ring buffer.
#[derive(Clone, Copy, Debug, PartialEq, Eq, Structural)]
pub struct PushAttempt {
    /// Where the attempt stands.
    pub phase: RingPhase,
    /// The number of slots.
    pub cap: usize,
    /// The producers' counter as last seen.
    pub tail: usize,
    /// The slot of the ticket.
    pub slot: usize,
}

impl PushAttempt {
    /// The number of slots is a power of two, and the slot is one of them.
    pub open spec fn wf(self) -> bool {
        &&& is_pow2(self.cap as int)
        &&& self.phase == RingPhase::Drawing || self.phase == RingPhase::Changing || self.phase
            == RingPhase::Hinting ==> self.slot < self.cap
    }

    /// A new attempt on a buffer of `cap` slots.
    pub fn new(cap: usize) -> (attempt: Self)
        requires
            is_pow2(cap as int),
        ensures
            attempt.wf(),
            attempt == (PushAttempt { phase: RingPhase::Start, cap, tail: 0, slot: 0 }),
    {
        PushAttempt { phase: RingPhase::Start, cap, tail: 0, slot: 0 }
    }

    /// Takes what the last access found and says which access comes next: the producer reads
    /// both counters, gives up on a full buffer, draws a ticket or starts over, and then tries
    /// to fill the ticket's slot until it is empty.
    pub fn step(&mut self, reply: RingReply) -> (op: RingOp)
        requires
            old(self).wf(),
            ring_expects(old(self).phase, reply),
        ensures
            final(self).wf(),
            final(self).cap == old(self).cap,
            match (old(self).phase, reply) {
                (RingPhase::OwnRead, RingReply::Word { value }) => {
                    &&& op == RingOp::LoadHead
                    &&& final(self).phase == RingPhase::OtherRead
                    &&& final(self).tail == value
                },
                (RingPhase::OtherRead, RingReply::Word { value }) => if distance(
                    value,
                    old(self).tail,
                ) >= old(self).cap {
                    &&& op == RingOp::Refused
                    &&& final(self).phase == RingPhase::Over
                } else {
                    &&& op == (RingOp::ClaimTail {
                        current: old(self).tail,
                        new: bumped(old(self).tail),
                    })
                    &&& final(self).phase == RingPhase::Drawing
                    &&& final(self).slot == old(self).tail as int % old(self).cap as int
                },
                (RingPhase::Drawing, RingReply::Took) | (RingPhase::Hinting, _) => {
                    &&& op == (RingOp::Store { slot: old(self).slot })
                    &&& final(self).phase == RingPhase::Changing
                    &&& final(self).slot == old(self).slot
                },
                (RingPhase::Changing, RingReply::Took) => {
                    &&& op == RingOp::Done
                    &&& final(self).phase == RingPhase::Over
                },
                (RingPhase::Changing, _) => {
                    &&& op == RingOp::Hint
                    &&& final(self).phase == RingPhase::Hinting
                    &&& final(self).slot == old(self).slot
                },
                _ => {
                    &&& op == RingOp::LoadTail
                    &&& final(self).phase == RingPhase::OwnRead
                },
            },
    {
        match (self.phase, reply) {
            (RingPhase::OwnRead, RingReply::Word { value }) => {
                self.tail = value;
                self.phase = RingPhase::OtherRead;
                RingOp::LoadHead
            },
            (RingPhase::OtherRead, RingReply::Word { value }) => {
                proof {
                    lemma_pow2_divides_word(self.cap);
                }
                match push_ticket(value, self.tail, self.cap) {
                    None => {
                        self.phase = RingPhase::Over;
                        RingOp::Refused
                    },
                    Some(ticket) => {
                        self.slot = ticket.slot;
                        self.phase = RingPhase::Drawing;
                        RingOp::ClaimTail { current: self.tail, new: ticket.next }
                    },
                }
            },
            (RingPhase::Drawing, RingReply::Took) | (RingPhase::Hinting, _) => {
                self.phase = RingPhase::Changing;
                RingOp::Store { slot: self.slot }
            },
            (RingPhase::Changing, RingReply::Took) => {
                self.phase = RingPhase::Over;
                RingOp::Done
            },
            (RingPhase::Changing, _) => {
                self.phase = RingPhase::Hinting;
                RingOp::Hint
            },
            _ => {
                self.phase = RingPhase::OwnRead;
                RingOp::LoadTail
            },
        }
    }
}

/// One consumer's attempt to take an item out of a ring buffer.
#[derive(Clone, Copy, Debug, PartialEq, Eq, Structural)]
pub struct PopAttempt {
    /// Where the attempt stands.
    pub phase: RingPhase,
    /// The number of slots.
    pub cap: usize,
    /// The consumers' counter as last seen.
    pub head: usize,
    /// The slot of the ticket.
    pub slot: usize,
}

impl PopAttempt {
    /// The number of slots is a power of two, and the slot is one of them.
    pub open spec fn wf(self) -> bool {
        &&& is_pow2(self.cap as int)
        &&& self.phase == RingPhase::Drawing || self.phase == RingPhase::Changing || self.phase
            == RingPhase::Hinting ==> self.slot < self.cap
    }

    /// A new attempt on a buffer of `cap` slots.
    pub fn new(cap: usize) -> (attempt: Self)
        requires
            is_pow2(cap as int),
        ensures
            attempt.wf(),
            attempt == (PopAttempt { phase: RingPhase::Start, cap, head: 0, slot: 0 }),
    {
        PopAttempt { phase: RingPhase::Start, cap, head: 0, slot: 0 }
    }

    /// Takes what the last access found and says which access comes next: the consumer reads
    /// both counters, gives up on an empty buffer, draws a ticket or starts over, and then
    /// tries to empty the ticket's slot until it is filled.
    pub fn step(&mut self, reply: RingReply) -> (op: RingOp)
        requires
            old(self).wf(),
            ring_expects(old(self).phase, reply),
        ensures
            final(self).wf(),
            final(self).cap == old(self).cap,
            match (old(self).phase, reply) {
                (RingPhase::OwnRead, RingReply::Word { value }) => {
                    &&& op == RingOp::LoadTail
                    &&& final(self).phase == RingPhase::OtherRead
                    &&& final(self).head == value
                },
                (RingPhase::OtherRead, RingReply::Word { value }) => if value == old(self).head {
                    &&& op == RingOp::Refused
                    &&& final(self).phase == RingPhase::Over
                } else {
                    &&& op == (RingOp::ClaimHead {
                        current: old(self).head,
                        new: bumped(old(self).head),
                    })
                    &&& final(self).phase == RingPhase::Drawing
                    &&& final(self).slot == old(self).head as int % old(self).cap as int
                },
                (RingPhase::Drawing, RingReply::Took) | (RingPhase::Hinting, _) => {
                    &&& op == (RingOp::Take { slot: old(self).slot })
                    &&& final(self).phase == RingPhase::Changing
                    &&& final(self).slot == old(self).slot
                },
                (RingPhase::Changing, RingReply::Took) => {
                    &&& op == RingOp::Done
                    &&& final(self).phase == RingPhase::Over
                },
                (RingPhase::Changing, _) => {
                    &&& op == RingOp::Hint
                    &&& final(self).phase == RingPhase::Hinting
                    &&& final(self).slot == old(self).slot
                },
                _ => {
                    &&& op == RingOp::LoadHead
                    &&& final(self).phase == RingPhase::OwnRead
                },
            },
    {
        match (self.phase, reply) {
            (RingPhase::OwnRead, RingReply::Word { value }) => {
                self.head = value;
                self.phase = RingPhase::OtherRead;
                RingOp::LoadTail
            },
            (RingPhase::OtherRead, RingReply::Word { value }) => {
                proof {
                    lemma_pow2_divides_word(self.cap);
                }
                match pop_ticket(self.head, value, self.cap) {
                    None => {
                        self.phase = RingPhase::Over;
                        RingOp::Refused
                    },
                    Some(ticket) => {
                        self.slot = ticket.slot;
                        self.phase = RingPhase::Drawing;
                        RingOp::ClaimHead { current: self.head, new: ticket.next }
                    },
                }
            },
            (RingPhase::Drawing, RingReply::Took) | (RingPhase::Hinting, _) => {
                self.phase = RingPhase::Changing;
                RingOp::Take { slot: self.slot }
            },
            (RingPhase::Changing, RingReply::Took) => {
                self.phase = RingPhase::Over;
                RingOp::Done
            },
            (RingPhase::Changing, _) => {
                self.phase = RingPhase::Hinting;
                RingOp::Hint
            },
            _ => {
                self.phase = RingPhase::OwnRead;
                RingOp::LoadHead
            },
        }
    }
}

/// A ring buffer, and the threads that are not done with their slots. The counters count
/// without end.
pub struct Ring<T> {
    /// The tickets drawn by consumers.
    pub head: nat,
    /// The tickets drawn by producers.
    pub tail: nat,
    /// What each slot holds.
    pub slots: Seq<Option<T>>,
    /// For each slot, the items of the producers that have drawn a ticket of it and have not
    /// filled it yet.
    pub putting: Seq<Multiset<T>>,
    /// For each slot, how many consumers have drawn a ticket of it and have not emptied it yet.
    pub taking: Seq<nat>,
    /// The items that consumers have taken.
    pub taken: Multiset<T>,
    /// The items that producers have drawn tickets for.
    pub given: Multiset<T>,
}

/// One access to a ring buffer that changes it.
pub enum RingAccess<T> {
    /// A producer with an item draws a ticket.
    DrawPut { item: T },
    /// A consumer draws a ticket.
    DrawTake,
    /// A producer fills its slot.
    Store { slot: int, item: T },
    /// A consumer empties its slot.
    Take { slot: int },
}

impl<T> Ring<T> {
    /// The number of slots.
    pub open spec fn cap(self) -> int {
        self.slots.len() as int
    }

    /// A slot has a ticket that was drawn by a producer and by no consumer: one, or none.
    pub open spec fn pledged(self, slot: int) -> nat {
        if (slot - self.head) % self.cap() < self.tail - self.head {
            1
        } else {
            0
        }
    }

    /// One for a slot that is filled.
    pub open spec fn fill(self, slot: int) -> nat {
        if self.slots[slot] is Some {
            1
        } else {
            0
        }
    }

    /// What is in the slot and what is on its way into it come to one for every consumer on
    /// its way to the slot, and one more if a ticket of it waits for a consumer.
    pub open spec fn is_balanced(self, slot: int) -> bool {
        self.fill(slot) + self.putting[slot].len() == self.taking[slot] + self.pledged(slot)
    }

    /// The counters are in order, and every slot is balanced.
    pub open spec fn agrees(self) -> bool {
        &&& self.cap() > 0
        &&& self.putting.len() == self.cap()
        &&& self.taking.len() == self.cap()
        &&& self.head <= self.tail <= self.head + self.cap()
        &&& forall|slot: int| 0 <= slot < self.cap() ==> #[trigger] self.is_balanced(slot)
    }

    /// Every item that a producer came with is with a producer, in a slot, or with a consumer,
    /// and once.
    pub open spec fn conserves(self) -> bool {
        self.given == self.taken.add(filled(self.slots).to_multiset()).add(gathered(self.putting))
    }

    /// Nobody has drawn a ticket yet.
    pub open spec fn is_new(self) -> bool {
        &&& self.cap() > 0
        &&& self.putting.len() == self.cap()
        &&& self.taking.len() == self.cap()
        &&& self.head == self.tail
        &&& self.taken == Multiset::<T>::empty()
        &&& self.given == Multiset::<T>::empty()
        &&& forall|slot: int|
            0 <= slot < self.cap() ==> {
                &&& #[trigger] self.slots[slot] is None
                &&& self.putting[slot] == Multiset::<T>::empty()
                &&& self.taking[slot] == 0
            }
    }
}

/// All the items of the parts together.
pub open spec fn gathered<T>(parts: Seq<Multiset<T>>) -> Multiset<T>
    decreases parts.len(),
{
    if parts.len() == 0 {
        Multiset::empty()
    } else {
        gathered(parts.drop_last()).add(parts.last())
    }
}

/// The access can be made, and leads from one state to the next.
pub open spec fn follows<T>(before: Ring<T>, access: RingAccess<T>, after: Ring<T>) -> bool {
    match access {
        RingAccess::DrawPut { item } => {
            let slot = before.tail as int % before.cap();
            &&& before.tail < before.head + before.cap()
            &&& after == Ring {
                tail: before.tail + 1,
                putting: before.putting.update(slot, before.putting[slot].insert(item)),
                given: before.given.insert(item),
                ..before
            }
        },
        RingAccess::DrawTake => {
            let slot = before.head as int % before.cap();
            &&& before.head < before.tail
            &&& after == Ring {
                head: before.head + 1,
                taking: before.taking.update(slot, before.taking[slot] + 1),
                ..before
            }
        },
        RingAccess::Store { slot, item } => {
            &&& 0 <= slot < before.cap()
            &&& before.slots[slot] is None
            &&& before.putting[slot].count(item) > 0
            &&& after == Ring {
                slots: before.slots.update(slot, Some(item)),
                putting: before.putting.update(slot, before.putting[slot].remove(item)),
                ..before
            }
        },
        RingAccess::Take { slot } => {
            &&& 0 <= slot < before.cap()
            &&& before.slots[slot] is Some
            &&& before.taking[slot] > 0
            &&& after == Ring {
                slots: before.slots.update(slot, None),
                taking: before.taking.update(slot, (before.taking[slot] - 1) as nat),
                taken: before.taken.insert(before.slots[slot]->0),
                ..before
            }
        },
    }
}

/// The states are those of a new buffer to which the accesses are made one after the other.
pub open spec fn is_run<T>(states: Seq<Ring<T>>, accesses: Seq<RingAccess<T>>) -> bool {
    &&& states.len() == accesses.len() + 1
    &&& states[0].is_new()
    &&& forall|i: int|
        0 <= i < accesses.len() ==> #[trigger] follows(states[i], accesses[i], states[i + 1])
}

/// An access keeps the slots balanced.
pub proof fn lemma_access_agrees<T>(before: Ring<T>, access: RingAccess<T>, after: Ring<T>)
    requires
        before.agrees(),
        follows(before, access, after),
    ensures
        after.agrees(),
{
    let cap = before.cap();
    let head = before.head as int;
    let n = before.tail - before.head;
    assert forall|slot: int| 0 <= slot < cap implies #[trigger] after.is_balanced(slot) by {
        assert(before.is_balanced(slot));
        match access {
            RingAccess::DrawPut { .. } => {
                let drawn = before.tail as int % cap;
                lemma_offset_of(before.tail as int, head, cap);
                if slot != drawn && (slot - head) % cap == n {
                    crate::atomic::buffer::lemma_same_offset(slot, drawn, head, cap);
                }
            },
            RingAccess::DrawTake => {
                lemma_offset_step(slot, head, head + 1, cap);
            },
            _ => {},
        }
    }
}

/// The slot of a ticket lies as far from the head, around the ring, as the ticket does.
proof fn lemma_offset_of(ticket: int, head: int, cap: int)
    requires
        cap > 0,
        0 <= ticket - head < cap,
    ensures
        (ticket % cap - head) % cap == ticket - head,
        0 <= ticket % cap < cap,
{
    vstd::arithmetic::div_mod::lemma_mod_bound(ticket, cap);
    vstd::arithmetic::div_mod::lemma_sub_mod_noop(ticket, head, cap);
    vstd::arithmetic::div_mod::lemma_sub_mod_noop(ticket % cap, head, cap);
    vstd::arithmetic::div_mod::lemma_mod_twice(ticket, cap);
    vstd::arithmetic::div_mod::lemma_small_mod((ticket - head) as nat, cap as nat);
}

/// A producer that finds the slot of its ticket filled does not wait in vain: a consumer is
/// on its way to empty it. A consumer that finds the slot empty does not either: a producer is
/// on its way to fill it.
pub proof fn lemma_nobody_waits_in_vain<T>(state: Ring<T>, slot: int)
    requires
        state.agrees(),
        0 <= slot < state.cap(),
    ensures
        state.putting[slot].len() > 0 && state.slots[slot] is Some ==> state.taking[slot] > 0,
        state.taking[slot] > 0 && state.slots[slot] is None ==> state.putting[slot].len() > 0,
{
    assert(state.is_balanced(slot));
}

/// When every thread is done with its slot, the filled slots are those from the head to the
/// tail, around the ring.
pub proof fn lemma_at_rest<T>(state: Ring<T>, slot: int)
    requires
        state.agrees(),
        0 <= slot < state.cap(),
        state.putting[slot].len() == 0,
        state.taking[slot] == 0,
    ensures
        state.slots[slot] is Some <==> (slot - state.head) % state.cap() < state.tail
            - state.head,
{
    assert(state.is_balanced(slot));
}

proof fn lemma_gathered_update<T>(parts: Seq<Multiset<T>>, slot: int, item: T)
    requires
        0 <= slot < parts.len(),
    ensures
        gathered(parts.update(slot, parts[slot].insert(item))) == gathered(parts).insert(item),
        parts[slot].count(item) > 0 ==> gathered(parts) == gathered(
            parts.update(slot, parts[slot].remove(item)),
        ).insert(item),
    decreases parts.len(),
{
    let more = parts.update(slot, parts[slot].insert(item));
    let less = parts.update(slot, parts[slot].remove(item));
    if slot == parts.len() - 1 {
        assert(more.drop_last() =~= parts.drop_last());
        assert(less.drop_last() =~= parts.drop_last());
        assert(gathered(more) =~= gathered(parts).insert(item));
        if parts[slot].count(item) > 0 {
            assert(gathered(parts) =~= gathered(less).insert(item));
        }
    } else {
        lemma_gathered_update(parts.drop_last(), slot, item);
        assert(more.drop_last() =~= parts.drop_last().update(slot, parts[slot].insert(item)));
        assert(less.drop_last() =~= parts.drop_last().update(slot, parts[slot].remove(item)));
        assert(gathered(more) =~= gathered(parts).insert(item));
        if parts[slot].count(item) > 0 {
            assert(gathered(parts) =~= gathered(less).insert(item));
        }
    }
}

proof fn lemma_nothing_gathered<T>(parts: Seq<Multiset<T>>)
    requires
        forall|slot: int|
            0 <= slot < parts.len() ==> #[trigger] parts[slot] == Multiset::<T>::empty(),
    ensures
        gathered(parts) == Multiset::<T>::empty(),
    decreases parts.len(),
{
    if parts.len() > 0 {
        lemma_nothing_gathered(parts.drop_last());
        assert(parts.last() == Multiset::<T>::empty());
        assert(gathered(parts) =~= Multiset::<T>::empty());
    }
}

/// An access loses no item and makes none up.
pub proof fn lemma_access_conserves<T>(before: Ring<T>, access: RingAccess<T>, after: Ring<T>)
    requires
        before.agrees(),
        before.conserves(),
        follows(before, access, after),
    ensures
        after.conserves(),
{
    match access {
        RingAccess::DrawPut { item } => {
            let slot = before.tail as int % before.cap();
            vstd::arithmetic::div_mod::lemma_mod_bound(before.tail as int, before.cap());
            lemma_gathered_update(before.putting, slot, item);
        },
        RingAccess::DrawTake => {},
        RingAccess::Store { slot, item } => {
            lemma_gathered_update(before.putting, slot, item);
            lemma_filled_update(after.slots, slot);
            assert(after.slots.update(slot, None) =~= before.slots);
        },
        RingAccess::Take { slot } => {
            lemma_filled_update(before.slots, slot);
        },
    }
    assert(after.given =~= after.taken.add(filled(after.slots).to_multiset()).add(
        gathered(after.putting),
    ));
}

/// In every state that threads can reach, whatever the order of their accesses, the slots are
/// balanced and every item is accounted for: what was taken out was put in before, and nothing
/// was taken out twice.
pub proof fn lemma_every_run_conserves<T>(
    states: Seq<Ring<T>>,
    accesses: Seq<RingAccess<T>>,
    n: int,
)
    requires
        is_run(states, accesses),
        0 <= n < states.len(),
    ensures
        states[n].agrees(),
        states[n].conserves(),
        states[n].taken.subset_of(states[n].given),
    decreases n,
{
    if n > 0 {
        lemma_every_run_conserves(states, accesses, n - 1);
        assert(follows(states[n - 1], accesses[n - 1], states[n - 1 + 1]));
        lemma_access_agrees(states[n - 1], accesses[n - 1], states[n]);
        lemma_access_conserves(states[n - 1], accesses[n - 1], states[n]);
    } else {
        let state = states[0];
        assert forall|slot: int| 0 <= slot < state.cap() implies #[trigger] state.is_balanced(
            slot,
        ) by {
            assert(state.slots[slot] is None);
            vstd::arithmetic::div_mod::lemma_mod_bound(slot - state.head, state.cap());
        }
        assert forall|slot: int|
            0 <= slot < state.putting.len() implies #[trigger] state.putting[slot] == Multiset::<
            T,
        >::empty() by {
            assert(state.slots[slot] is None);
        }
        lemma_nothing_gathered(state.putting);
        crate::atomic::buffer::lemma_nothing_filled(state.slots);
        Seq::<T>::empty().to_multiset_ensures();
        assert(state.given =~= state.taken.add(filled(state.slots).to_multiset()).add(
            gathered(state.putting),
        ));
    }
}

/// A counter that counts without end, as the word that stands for it.
pub open spec fn word(count: nat) -> usize {
    (count as int % word_values()) as usize
}

proof fn lemma_word_step(count: nat)
    ensures
        bumped(word(count)) == word(count + 1),
{
    let w = word_values();
    vstd::arithmetic::div_mod::lemma_mod_bound(count as int, w);
    vstd::arithmetic::div_mod::lemma_add_mod_noop(count as int, 1, w);
    vstd::arithmetic::div_mod::lemma_small_mod(1, w as nat);
    if word(count) == usize::MAX {
        vstd::arithmetic::div_mod::lemma_mod_self_0(w);
    } else {
        vstd::arithmetic::div_mod::lemma_small_mod((word(count) + 1) as nat, w as nat);
    }
}

proof fn lemma_word_distance(low: nat, high: nat)
    requires
        low <= high < low + word_values(),
    ensures
        distance(word(low), word(high)) == high - low,
        word(low) == word(high) <==> low == high,
{
    let w = word_values();
    let a = low as int % w;
    let b = high as int % w;
    vstd::arithmetic::div_mod::lemma_fundamental_div_mod(low as int, w);
    vstd::arithmetic::div_mod::lemma_fundamental_div_mod(high as int, w);
    vstd::arithmetic::div_mod::lemma_mod_bound(low as int, w);
    vstd::arithmetic::div_mod::lemma_mod_bound(high as int, w);
    let q = low as int / w;
    let r = high as int / w;
    assert(high - low == w * (r - q) + (b - a)) by (nonlinear_arith)
        requires
            low == w * q + a,
            high == w * r + b,
    ;
    assert(r == q || r == q + 1) by (nonlinear_arith)
        requires
            high - low == w * (r - q) + (b - a),
            0 <= high - low < w,
            0 <= a < w,
            0 <= b < w,
            w > 0,
    ;
}

proof fn lemma_word_slot(count: nat, cap: usize)
    requires
        is_pow2(cap as int),
    ensures
        cap > 0,
        word(count) as int % cap as int == count as int % cap as int,
{
    lemma_pow2_divides_word(cap);
    let w = word_values();
    let k = w / cap as int;
    vstd::arithmetic::div_mod::lemma_fundamental_div_mod(w, cap as int);
    vstd::arithmetic::div_mod::lemma_fundamental_div_mod(count as int, w);
    assert(count == cap as int * (k * (count as int / w)) + word(count)) by (nonlinear_arith)
        requires
            count == w * (count as int / w) + word(count),
            w == cap as int * k,
    ;
    vstd::arithmetic::div_mod::lemma_mod_multiples_vanish(
        k * (count as int / w),
        word(count) as int,
        cap as int,
    );
}

/// A producer that reads the counters in the order of [`PushAttempt`] and then counts the tail
/// on draws a ticket as [`follows`] says. It may have seen a head that other threads have
/// counted on since; that the tail is the one it saw is what its replacement tells.
pub proof fn lemma_push_draws_a_ticket<T>(state: Ring<T>, seen_head: nat, cap: usize, item: T)
    requires
        state.agrees(),
        cap == state.cap(),
        is_pow2(cap as int),
        seen_head <= state.head,
        state.tail - seen_head <= cap,
        distance(word(seen_head), word(state.tail)) < cap,
    ensures
        bumped(word(state.tail)) == word(state.tail + 1),
        ({
            let slot = word(state.tail) as int % cap as int;
            follows(
                state,
                RingAccess::DrawPut { item },
                Ring {
                    tail: state.tail + 1,
                    putting: state.putting.update(slot, state.putting[slot].insert(item)),
                    given: state.given.insert(item),
                    ..state
                },
            )
        }),
{
    lemma_word_distance(seen_head, state.tail);
    lemma_word_step(state.tail);
    lemma_word_slot(state.tail, cap);
}

/// A consumer that reads the counters in the order of [`PopAttempt`] and then counts the head
/// on draws a ticket as [`follows`] says. It may have seen a tail that other threads have
/// counted on since.
pub proof fn lemma_pop_draws_a_ticket<T>(state: Ring<T>, seen_tail: nat, cap: usize)
    requires
        state.agrees(),
        cap == state.cap(),
        is_pow2(cap as int),
        state.head <= seen_tail <= state.tail,
        word(state.head) != word(seen_tail),
    ensures
        bumped(word(state.head)) == word(state.head + 1),
        ({
            let slot = word(state.head) as int % cap as int;
            follows(
                state,
                RingAccess::DrawTake,
                Ring {
                    head: state.head + 1,
                    taking: state.taking.update(slot, state.taking[slot] + 1),
                    ..state
                },
            )
        }),
{
    lemma_word_distance(state.head, seen_tail);
    lemma_word_step(state.head);
    lemma_word_slot(state.head, cap);
}

/// A counter that is read gives a word, a replacement takes place or does not, and nothing else
/// has a reply; an attempt that is over waits for none.
pub proof fn lemma_ring_replies(phase: RingPhase, reply: RingReply)
    ensures
        reply is Word ==> (ring_expects(phase, reply) <==> phase == RingPhase::OwnRead || phase
            == RingPhase::OtherRead),
        reply is Took || reply is Lost ==> (ring_expects(phase, reply) <==> phase
            == RingPhase::Drawing || phase == RingPhase::Changing),
        reply is Nothing ==> (ring_expects(phase, reply) <==> phase == RingPhase::Start || phase
            == RingPhase::Hinting),
        ring_expects(phase, reply) ==> phase != RingPhase::Over,
{
}

/// The parts are gathered one after the other, and a part alone is itself.
pub proof fn lemma_gathered_in_turn<T>(
    first: Seq<Multiset<T>>,
    rest: Seq<Multiset<T>>,
    part: Multiset<T>,
)
    ensures
        gathered(Seq::<Multiset<T>>::empty()) == Multiset::<T>::empty(),
        gathered(seq![part]) == part,
        gathered(first + rest) == gathered(first).add(gathered(rest)),
    decreases rest.len(),
{
    let one = seq![part];
    assert(one.drop_last() =~= Seq::<Multiset<T>>::empty());
    assert(gathered(one.drop_last()) == Multiset::<T>::empty());
    assert(gathered(one) =~= part);
    if rest.len() == 0 {
        assert(first + rest =~= first);
        assert(gathered(first).add(gathered(rest)) =~= gathered(first));
    } else {
        lemma_gathered_in_turn(first, rest.drop_last(), part);
        assert((first + rest).drop_last() =~= first + rest.drop_last());
        assert(gathered(first + rest) =~= gathered(first).add(gathered(rest)));
    }
}

} // verus!
