//! A bounded ring buffer with wrapping tickets.
//!
//! A producer takes the ticket `tail`, a consumer the ticket `head`; both count on without
//! end and wrap with the word. A ticket belongs to the slot that its low bits name, so the
//! capacity is a power of two. [`AtomicBuffer`] is the record that the threads share.

use crate::atomic::ring::{RingOp, RingReply};
use vstd::prelude::*;

verus! {

use crate::bits::{bumped, lemma_mask_is_mod, lemma_pow2_divides_word, lowered, word_values};
use crate::order::{is_run, lemma_first_in_first_out, put, taken, Event};
use vstd::arithmetic::power2::is_pow2;

/// The capacity of a buffer that was given none.
pub const DEFAULT_CAPACITY: usize = 32;

/// The shared record of a bounded ring buffer.
#[derive(Debug)]
pub struct AtomicBuffer<T> {
    head: usize,
    tail: usize,
    slots: Vec<Option<T>>,
    ref_count: usize,
    cap: usize,
    cap_mask: usize,
}

/// A ticket that was drawn: the counter that follows it and the slot that it names.
#[derive(Clone, Copy, Debug, PartialEq, Eq, Structural)]
pub struct Ticket {
    /// The counter once the ticket is drawn.
    pub next: usize,
    /// The slot that belongs to the ticket.
    pub slot: usize,
}

/// How many tickets lie between `head` and `tail`, across a wrap of the counters.
pub open spec fn distance(head: usize, tail: usize) -> nat {
    if tail >= head {
        (tail - head) as nat
    } else {
        (tail - head + word_values()) as nat
    }
}

/// The values of the filled slots, in the order of the slots.
pub open spec fn filled<T>(slots: Seq<Option<T>>) -> Seq<T>
    decreases slots.len(),
{
    if slots.len() == 0 {
        Seq::empty()
    } else {
        match slots.last() {
            Some(item) => filled(slots.drop_last()).push(item),
            None => filled(slots.drop_last()),
        }
    }
}

/// The ticket of a producer that saw the two counters: none when the buffer is full.
pub fn push_ticket(head: usize, tail: usize, cap: usize) -> (ticket: Option<Ticket>)
    requires
        is_pow2(cap as int),
    ensures
        ticket is None <==> distance(head, tail) >= cap,
        ticket matches Some(t) ==> t.next == bumped(tail) && t.slot == tail as int % cap as int,
{
    proof {
        lemma_mask_is_mod(tail, cap);
    }
    if tail.wrapping_sub(head) >= cap {
        None
    } else {
        Some(Ticket { next: tail.wrapping_add(1), slot: tail & (cap - 1) })
    }
}

/// The ticket of a consumer that saw the two counters: none when the buffer is empty.
pub fn pop_ticket(head: usize, tail: usize, cap: usize) -> (ticket: Option<Ticket>)
    requires
        is_pow2(cap as int),
    ensures
        ticket is None <==> head == tail,
        ticket matches Some(t) ==> t.next == bumped(head) && t.slot == head as int % cap as int,
{
    proof {
        lemma_mask_is_mod(head, cap);
    }
    if head == tail {
        None
    } else {
        Some(Ticket { next: head.wrapping_add(1), slot: head & (cap - 1) })
    }
}

/// The slot of the ticket that follows: the next slot, around the ring.
proof fn lemma_next_slot(ticket: usize, cap: usize)
    requires
        is_pow2(cap as int),
    ensures
        cap > 0,
        bumped(ticket) as int % cap as int == (ticket + 1) % cap as int,
{
    lemma_pow2_divides_word(cap);
    if ticket == usize::MAX {
        assert(ticket + 1 == word_values());
        vstd::arithmetic::div_mod::lemma_small_mod(0, cap as nat);
    }
}

impl<T> AtomicBuffer<T> {
    /// The number of slots.
    pub closed spec fn cap(self) -> nat {
        self.cap as nat
    }

    /// The ticket of the next consumer.
    pub closed spec fn head(self) -> usize {
        self.head
    }

    /// The ticket of the next producer.
    pub closed spec fn tail(self) -> usize {
        self.tail
    }

    /// The slots.
    pub closed spec fn slots(self) -> Seq<Option<T>> {
        self.slots@
    }

    /// How many handles share the buffer.
    pub closed spec fn ref_count(self) -> usize {
        self.ref_count
    }

    /// How many tickets of producers have no ticket of a consumer yet.
    pub open spec fn backlog(self) -> nat {
        distance(self.head(), self.tail())
    }

    /// The slot of the next producer.
    pub open spec fn tail_slot(self) -> int {
        self.tail() as int % self.cap() as int
    }

    /// The slot of the next consumer.
    pub open spec fn head_slot(self) -> int {
        self.head() as int % self.cap() as int
    }

    /// The capacity is a power of two, there are as many slots, and no more tickets are out.
    pub closed spec fn wf(self) -> bool {
        &&& is_pow2(self.cap as int)
        &&& self.cap > 0
        &&& self.cap_mask == self.cap - 1
        &&& self.slots.len() == self.cap
        &&& self.backlog() <= self.cap
    }

    /// Every producer and consumer has finished: the filled slots are those from the head to
    /// the tail, around the ring.
    pub open spec fn settled(self) -> bool {
        forall|p: int|
            0 <= p < self.cap() ==> (#[trigger] self.slots()[p] is Some <==> (p
                - self.head()) % (self.cap() as int) < self.backlog())
    }

    /// The items from the head to the tail.
    pub open spec fn contents(self) -> Seq<T> {
        Seq::new(
            self.backlog(),
            |i: int| self.slots()[(self.head() + i) % self.cap() as int]->0,
        )
    }

    /// Nothing but the counters and slots of `before` differs.
    pub open spec fn same_buffer(self, before: Self) -> bool {
        &&& self.cap() == before.cap()
        &&& self.ref_count() == before.ref_count()
    }

    /// The facts that well-formedness says about the public parts.
    pub proof fn lemma_wf(self)
        requires
            self.wf(),
        ensures
            is_pow2(self.cap() as int),
            0 < self.cap() <= usize::MAX,
            self.slots().len() == self.cap(),
            self.backlog() <= self.cap(),
            self.contents().len() == self.backlog(),
            self.backlog() == 0 <==> self.head() == self.tail(),
    {
    }

    /// In a settled buffer the next producer finds its slot empty unless the buffer is full,
    /// and the next consumer finds its slot filled unless the buffer is empty.
    pub proof fn lemma_settled_slots(self)
        requires
            self.wf(),
            self.settled(),
        ensures
            self.backlog() < self.cap() ==> self.slots()[self.tail_slot()] is None,
            self.head() != self.tail() ==> self.slots()[self.head_slot()] is Some,
    {
        let cap = self.cap as int;
        let head = self.head as int;
        let h = head % cap;
        let t = self.tail_slot();
        lemma_pow2_divides_word(self.cap);
        assert((h - head) % cap == 0) by {
            vstd::arithmetic::div_mod::lemma_fundamental_div_mod(head, cap);
            vstd::arithmetic::div_mod::lemma_mod_multiples_basic(-(head / cap), cap);
            assert(h - head == -(head / cap) * cap) by (nonlinear_arith)
                requires
                    head == cap * (head / cap) + h,
            ;
        }
        assert(self.backlog() < cap ==> (t - head) % cap == self.backlog()) by {
            if self.backlog() < cap {
                self.lemma_tail_offset();
            }
        }
    }

    /// The tail slot lies the backlog after the head, around the ring.
    proof fn lemma_tail_offset(self)
        requires
            self.wf(),
        ensures
            self.tail_slot() == (self.head + self.backlog()) % self.cap as int,
            self.backlog() < self.cap ==> (self.tail_slot() - self.head) % self.cap as int
                == self.backlog(),
    {
        let cap = self.cap as int;
        let head = self.head as int;
        let tail = self.tail as int;
        let n = self.backlog() as int;
        lemma_pow2_divides_word(self.cap);
        let words = word_values();
        assert(tail % cap == (head + n) % cap) by {
            if tail < head {
                assert(head + n == tail + words);
                vstd::arithmetic::div_mod::lemma_add_mod_noop(tail, words, cap);
                vstd::arithmetic::div_mod::lemma_mod_twice(tail, cap);
            }
        }
        vstd::arithmetic::div_mod::lemma_sub_mod_noop(head + n, head, cap);
        vstd::arithmetic::div_mod::lemma_sub_mod_noop((head + n) % cap, head, cap);
        vstd::arithmetic::div_mod::lemma_mod_twice(head + n, cap);
        if n < cap {
            vstd::arithmetic::div_mod::lemma_small_mod(n as nat, cap as nat);
        }
    }

    /// A buffer with the default capacity.
    pub fn new() -> (buffer: Self)
        ensures
            buffer.wf(),
            buffer.settled(),
            buffer.contents() == Seq::<T>::empty(),
            buffer.cap() == DEFAULT_CAPACITY,
            buffer.head() == 0,
            buffer.tail() == 0,
            buffer.ref_count() == 1,
    {
        proof {
            reveal(is_pow2);
            reveal_with_fuel(is_pow2, 7);
        }
        Self::with_capacity(DEFAULT_CAPACITY)
    }

    /// A buffer with `cap` slots, a power of two.
    pub fn with_capacity(cap: usize) -> (buffer: Self)
        requires
            is_pow2(cap as int),
        ensures
            buffer.wf(),
            buffer.settled(),
            buffer.contents() == Seq::<T>::empty(),
            buffer.cap() == cap,
            buffer.head() == 0,
            buffer.tail() == 0,
            buffer.ref_count() == 1,
    {
        proof {
            lemma_mask_is_mod(0, cap);
        }
        let mut slots: Vec<Option<T>> = Vec::with_capacity(cap);
        while slots.len() < cap
            invariant
                slots.len() <= cap,
                forall|p: int| 0 <= p < slots.len() ==> #[trigger] slots@[p] is None,
            decreases cap - slots.len(),
        {
            slots.push(None);
        }
        AtomicBuffer { head: 0, tail: 0, slots, ref_count: 1, cap, cap_mask: cap - 1 }
    }

    /// Puts `item` into the slot of the next producer's ticket; hands it back when the buffer
    /// is full. That slot has to be empty: a producer waits for the consumer that is late.
    pub fn push(&mut self, item: T) -> (result: Result<(), T>)
        requires
            old(self).wf(),
            old(self).backlog() < old(self).cap() ==> old(self).slots()[old(self).tail_slot()]
                is None,
        ensures
            final(self).wf(),
            final(self).same_buffer(*old(self)),
            final(self).head() == old(self).head(),
            result is Err <==> old(self).backlog() >= old(self).cap(),
            result matches Err(back) ==> back == item && *final(self) == *old(self),
            result is Ok ==> {
                &&& final(self).tail() == bumped(old(self).tail())
                &&& final(self).slots() == old(self).slots().update(
                    old(self).tail_slot(),
                    Some(item),
                )
                &&& final(self).backlog() == old(self).backlog() + 1
                &&& old(self).settled() ==> final(self).settled() && final(self).contents()
                    == old(self).contents().push(item)
            },
    {
        match push_ticket(self.head, self.tail, self.cap) {
            None => Err(item),
            Some(ticket) => {
                self.tail = ticket.next;
                self.slots[ticket.slot] = Some(item);
                proof {
                    let cap = self.cap as int;
                    let head = self.head as int;
                    old(self).lemma_tail_offset();
                    if old(self).settled() {
                        let n = old(self).backlog() as int;
                        assert forall|p: int| 0 <= p < cap implies (#[trigger] self.slots()[p]
                            is Some <==> (p - head) % cap < n + 1) by {
                            assert(old(self).slots()[p] is Some <==> (p - head) % cap < n);
                            if p != ticket.slot && (p - head) % cap == n {
                                lemma_same_offset(p, ticket.slot as int, head, cap);
                            }
                        }
                        assert forall|i: int| 0 <= i < n + 1 implies self.slots()[(head + i)
                            % cap]->0 == #[trigger] old(self).contents().push(item)[i] by {
                            if i < n {
                                lemma_distinct_slots(head, i, n, cap);
                            }
                        }
                        assert(self.contents() =~= old(self).contents().push(item));
                    }
                }
                Ok(())
            },
        }
    }

    /// Takes the item out of the slot of the next consumer's ticket; `None` when the buffer
    /// is empty. Otherwise that slot has to be filled: a consumer waits for the producer that
    /// is late.
    pub fn pop(&mut self) -> (result: Option<T>)
        requires
            old(self).wf(),
            old(self).head() != old(self).tail() ==> old(self).slots()[old(self).head_slot()]
                is Some,
        ensures
            final(self).wf(),
            final(self).same_buffer(*old(self)),
            final(self).tail() == old(self).tail(),
            result is None <==> old(self).head() == old(self).tail(),
            result is None ==> *final(self) == *old(self),
            result matches Some(item) ==> {
                &&& old(self).slots()[old(self).head_slot()] == Some(item)
                &&& final(self).head() == bumped(old(self).head())
                &&& final(self).slots() == old(self).slots().update(old(self).head_slot(), None)
                &&& final(self).backlog() == old(self).backlog() - 1
                &&& old(self).settled() ==> final(self).settled() && item
                    == old(self).contents().first() && final(self).contents()
                    == old(self).contents().drop_first()
            },
    {
        match pop_ticket(self.head, self.tail, self.cap) {
            None => None,
            Some(ticket) => {
                self.head = ticket.next;
                let item = self.slots[ticket.slot].take();
                proof {
                    self.lemma_popped(*old(self), item);
                }
                item
            },
        }
    }

    proof fn lemma_popped(self, before: Self, item: Option<T>)
        requires
            before.wf(),
            before.head != before.tail,
            self.tail == before.tail,
            self.cap == before.cap,
            self.head == bumped(before.head),
            self.slots@ == before.slots@.update(before.head_slot(), None),
            item == before.slots@[before.head_slot()],
        ensures
            self.backlog() == before.backlog() - 1,
            before.settled() ==> self.settled() && item == Some(before.contents().first())
                && self.contents() == before.contents().drop_first(),
    {
        let cap = self.cap as int;
        let head = before.head as int;
        let next = self.head as int;
        let n = before.backlog() as int;
        lemma_next_slot(before.head, before.cap);
        if before.settled() {
            before.lemma_settled_slots();
            assert forall|p: int| 0 <= p < cap implies (#[trigger] self.slots()[p] is Some <==> (p
                - next) % cap < n - 1) by {
                assert(before.slots()[p] is Some <==> (p - head) % cap < n);
                lemma_offset_step(p, head, next, cap);
            }
            assert(before.contents()[0] == before.slots()[(head + 0) % cap]->0);
            assert forall|i: int| 0 <= i < n - 1 implies self.slots()[(next + i) % cap]->0
                == #[trigger] before.contents().drop_first()[i] by {
                vstd::arithmetic::div_mod::lemma_add_mod_noop(next, i, cap);
                vstd::arithmetic::div_mod::lemma_add_mod_noop(head + 1, i, cap);
                assert((next + i) % cap == (head + 1 + i) % cap);
                lemma_distinct_slots(head, 0, i + 1, cap);
            }
            assert(self.contents() =~= before.contents().drop_first());
        }
    }

    /// The item in the head's slot, which stays there: a look at what the next consumer gets,
    /// without counting the head on. There is none when the buffer is empty, or while the
    /// producer that has the head's ticket has not stored its item yet.
    pub fn try_pop_weak(&self) -> (result: Option<&T>)
        requires
            self.wf(),
        ensures
            self.head() == self.tail() ==> result is None,
            self.head() != self.tail() ==> match self.slots()[self.head_slot()] {
                None => result is None,
                Some(item) => result == Some(&item),
            },
            self.settled() && self.backlog() > 0 ==> result == Some(&self.contents().first()),
    {
        match pop_ticket(self.head, self.tail, self.cap) {
            None => None,
            Some(ticket) => {
                proof {
                    if self.settled() {
                        self.lemma_settled_slots();
                        assert(self.contents()[0] == self.slots()[(self.head + 0)
                            % self.cap as int]->0);
                    }
                }
                self.slots[ticket.slot].as_ref()
            },
        }
    }

    /// Makes one access of a [`crate::atomic::ring::PushAttempt`] or a
    /// [`crate::atomic::ring::PopAttempt`]. The item is in the thread's hand before it is put
    /// and after it is taken. A counter is only counted on by one, the tail only while the
    /// buffer is not full, and the head only while it is not empty.
    pub fn perform(&mut self, op: RingOp, hand: &mut Option<T>) -> (reply: RingReply)
        requires
            old(self).wf(),
            match op {
                RingOp::ClaimTail { current, new } => current == old(self).tail() ==> new == bumped(
                    current,
                ) && old(self).backlog() < old(self).cap(),
                RingOp::ClaimHead { current, new } => current == old(self).head() ==> new == bumped(
                    current,
                ) && old(self).backlog() > 0,
                RingOp::Store { slot } => slot < old(self).cap() && *old(hand) is Some,
                RingOp::Take { slot } => slot < old(self).cap() && *old(hand) is None,
                _ => true,
            },
        ensures
            final(self).wf(),
            final(self).same_buffer(*old(self)),
            final(self).tail() == if op is ClaimTail && reply == RingReply::Took {
                bumped(old(self).tail())
            } else {
                old(self).tail()
            },
            final(self).head() == if op is ClaimHead && reply == RingReply::Took {
                bumped(old(self).head())
            } else {
                old(self).head()
            },
            match op {
                RingOp::LoadTail => reply == (RingReply::Word { value: old(self).tail() }),
                RingOp::LoadHead => reply == (RingReply::Word { value: old(self).head() }),
                RingOp::ClaimTail { current, .. } => reply == if current == old(self).tail() {
                    RingReply::Took
                } else {
                    RingReply::Lost
                },
                RingOp::ClaimHead { current, .. } => reply == if current == old(self).head() {
                    RingReply::Took
                } else {
                    RingReply::Lost
                },
                RingOp::Store { slot } => reply == if old(self).slots()[slot as int] is None {
                    RingReply::Took
                } else {
                    RingReply::Lost
                },
                RingOp::Take { slot } => reply == if old(self).slots()[slot as int] is Some {
                    RingReply::Took
                } else {
                    RingReply::Lost
                },
                _ => reply == RingReply::Nothing,
            },
            match op {
                RingOp::Store { slot } | RingOp::Take { slot } => if reply == RingReply::Took {
                    &&& final(self).slots() == old(self).slots().update(slot as int, *old(hand))
                    &&& *final(hand) == old(self).slots()[slot as int]
                } else {
                    &&& final(self).slots() == old(self).slots()
                    &&& *final(hand) == *old(hand)
                },
                _ => final(self).slots() == old(self).slots() && *final(hand) == *old(hand),
            },
    {
        match op {
            RingOp::LoadTail => RingReply::Word { value: self.tail },
            RingOp::LoadHead => RingReply::Word { value: self.head },
            RingOp::ClaimTail { current, new } => {
                if self.tail == current {
                    self.tail = new;
                    RingReply::Took
                } else {
                    RingReply::Lost
                }
            },
            RingOp::ClaimHead { current, new } => {
                if self.head == current {
                    self.head = new;
                    RingReply::Took
                } else {
                    RingReply::Lost
                }
            },
            RingOp::Store { slot } => {
                if self.slots[slot].is_none() {
                    self.slots[slot] = hand.take();
                    RingReply::Took
                } else {
                    RingReply::Lost
                }
            },
            RingOp::Take { slot } => {
                if self.slots[slot].is_some() {
                    *hand = self.slots[slot].take();
                    RingReply::Took
                } else {
                    RingReply::Lost
                }
            },
            RingOp::Hint => {
                std::hint::spin_loop();
                RingReply::Nothing
            },
            RingOp::Refused | RingOp::Done => RingReply::Nothing,
        }
    }

    /// The number of slots.
    pub fn capacity(&self) -> (cap: usize)
        ensures
            cap == self.cap(),
    {
        self.cap
    }

    /// Whether no ticket of a producer waits for a consumer.
    pub fn is_empty_fast(&self) -> (empty: bool)
        ensures
            empty == (self.backlog() == 0),
    {
        self.head == self.tail
    }

    /// How many tickets of producers wait for a consumer.
    pub fn len_approx(&self) -> (len: usize)
        ensures
            len == self.backlog(),
    {
        self.tail.wrapping_sub(self.head)
    }

    /// Empties every slot in the order of the slots and starts the counters over.
    pub fn drain_all(&mut self) -> (items: Vec<T>)
        requires
            old(self).wf(),
        ensures
            final(self).wf(),
            final(self).same_buffer(*old(self)),
            items@ == filled(old(self).slots()),
            final(self).head() == 0,
            final(self).tail() == 0,
            final(self).backlog() == 0,
            final(self).settled(),
            final(self).contents() == Seq::<T>::empty(),
    {
        self.drain_to_vec()
    }

    /// Empties the buffer: takes the items out in the order of the slots and starts the
    /// counters over.
    pub fn drain_to_vec(&mut self) -> (items: Vec<T>)
        requires
            old(self).wf(),
        ensures
            final(self).wf(),
            final(self).same_buffer(*old(self)),
            items@ == filled(old(self).slots()),
            final(self).head() == 0,
            final(self).tail() == 0,
            final(self).backlog() == 0,
            final(self).settled(),
            final(self).contents() == Seq::<T>::empty(),
    {
        self.head = 0;
        self.tail = 0;
        let mut items: Vec<T> = Vec::with_capacity(self.cap);
        let mut i: usize = 0;
        while i < self.slots.len()
            invariant
                0 <= i <= self.slots.len(),
                self.head == 0,
                self.tail == 0,
                self.cap == old(self).cap,
                self.cap_mask == old(self).cap_mask,
                self.ref_count == old(self).ref_count,
                self.slots.len() == old(self).slots.len(),
                forall|p: int| 0 <= p < i ==> #[trigger] self.slots@[p] is None,
                forall|p: int|
                    i <= p < self.slots.len() ==> #[trigger] self.slots@[p] == old(self).slots@[p],
                items@ == filled(old(self).slots@.take(i as int)),
            decreases self.slots.len() - i,
        {
            let item = self.slots[i].take();
            proof {
                let ahead = old(self).slots@.take(i + 1);
                assert(ahead.drop_last() =~= old(self).slots@.take(i as int));
                assert(ahead.last() == item);
            }
            match item {
                Some(item) => items.push(item),
                None => {},
            }
            i += 1;
        }
        proof {
            assert(old(self).slots@.take(i as int) =~= old(self).slots@);
        }
        items
    }

    /// Counts one more handle.
    pub fn clone_ref(&mut self)
        requires
            old(self).wf(),
        ensures
            final(self).wf(),
            final(self).ref_count() == bumped(old(self).ref_count()),
            final(self).cap() == old(self).cap(),
            final(self).head() == old(self).head(),
            final(self).tail() == old(self).tail(),
            final(self).slots() == old(self).slots(),
    {
        self.ref_count = self.ref_count.wrapping_add(1);
    }

    /// Counts one handle less, and says whether it was the last.
    pub fn drop_ref(&mut self) -> (last: bool)
        requires
            old(self).wf(),
        ensures
            final(self).wf(),
            last == (old(self).ref_count() == 1),
            final(self).ref_count() == lowered(old(self).ref_count()),
            final(self).cap() == old(self).cap(),
            final(self).head() == old(self).head(),
            final(self).tail() == old(self).tail(),
            final(self).slots() == old(self).slots(),
    {
        let previous: usize = self.ref_count;
        self.ref_count = previous.wrapping_sub(1);
        previous == 1
    }
}

impl<T> Default for AtomicBuffer<T> {
    fn default() -> (buffer: Self)
        ensures
            buffer.wf(),
            buffer.settled(),
            buffer.contents() == Seq::<T>::empty(),
            buffer.cap() == DEFAULT_CAPACITY,
            buffer.ref_count() == 1,
    {
        Self::new()
    }
}

/// Two slots at the same offset from the head are the same slot.
pub proof fn lemma_same_offset(p: int, q: int, head: int, cap: int)
    requires
        0 <= p < cap,
        0 <= q < cap,
        (p - head) % cap == (q - head) % cap,
    ensures
        p == q,
{
    vstd::arithmetic::div_mod::lemma_mod_equivalence(p - head, q - head, cap);
    assert((p - q) % cap == 0) by {
        assert((p - head) - (q - head) == p - q);
    }
    if p > q {
        vstd::arithmetic::div_mod::lemma_small_mod((p - q) as nat, cap as nat);
    } else if q > p {
        vstd::arithmetic::div_mod::lemma_mod_equivalence(p, q, cap);
        vstd::arithmetic::div_mod::lemma_small_mod(p as nat, cap as nat);
        vstd::arithmetic::div_mod::lemma_small_mod(q as nat, cap as nat);
    }
}

/// Offsets less than the capacity apart name distinct slots.
proof fn lemma_distinct_slots(head: int, i: int, j: int, cap: int)
    requires
        0 <= i < j < i + cap,
        0 < cap,
    ensures
        (head + i) % cap != (head + j) % cap,
{
    if (head + i) % cap == (head + j) % cap {
        vstd::arithmetic::div_mod::lemma_mod_equivalence(head + j, head + i, cap);
        assert((head + j) - (head + i) == j - i);
        vstd::arithmetic::div_mod::lemma_small_mod((j - i) as nat, cap as nat);
    }
}

/// Moving the head on by one slot lowers every offset by one, around the ring.
pub proof fn lemma_offset_step(p: int, head: int, next: int, cap: int)
    requires
        0 <= p < cap,
        0 <= head,
        next % cap == (head + 1) % cap,
    ensures
        p == head % cap ==> (p - head) % cap == 0 && (p - next) % cap == cap - 1,
        p != head % cap ==> (p - head) % cap > 0 && (p - next) % cap == (p - head) % cap - 1,
{
    let d = (p - head) % cap;
    vstd::arithmetic::div_mod::lemma_mod_bound(p - head, cap);
    vstd::arithmetic::div_mod::lemma_mod_bound(head, cap);
    assert((p - next) % cap == (p - (head + 1)) % cap) by {
        vstd::arithmetic::div_mod::lemma_sub_mod_noop(p, next, cap);
        vstd::arithmetic::div_mod::lemma_sub_mod_noop(p, head + 1, cap);
    }
    assert((p - head - 1) % cap == (d - 1) % cap) by {
        vstd::arithmetic::div_mod::lemma_sub_mod_noop(p - head, 1, cap);
        vstd::arithmetic::div_mod::lemma_sub_mod_noop(d, 1, cap);
        vstd::arithmetic::div_mod::lemma_mod_twice(p - head, cap);
    }
    assert(d == 0 <==> p == head % cap) by {
        let h = head % cap;
        vstd::arithmetic::div_mod::lemma_sub_mod_noop(p, head, cap);
        vstd::arithmetic::div_mod::lemma_small_mod(p as nat, cap as nat);
        assert((p % cap - head % cap) % cap == d);
        if p > h {
            vstd::arithmetic::div_mod::lemma_small_mod((p - h) as nat, cap as nat);
        } else if p < h {
            vstd::arithmetic::div_mod::lemma_small_mod((p - h + cap) as nat, cap as nat);
            vstd::arithmetic::div_mod::lemma_mod_add_multiples_vanish(p - h, cap);
        } else {
            vstd::arithmetic::div_mod::lemma_small_mod(0, cap as nat);
        }
    }
    if d == 0 {
        vstd::arithmetic::div_mod::lemma_small_mod((cap - 1) as nat, cap as nat);
        vstd::arithmetic::div_mod::lemma_mod_add_multiples_vanish(-1, cap);
    } else {
        vstd::arithmetic::div_mod::lemma_small_mod((d - 1) as nat, cap as nat);
    }
}

/// Emptying a filled slot takes its item, and no other, out of what the slots hold.
pub proof fn lemma_filled_update<T>(slots: Seq<Option<T>>, p: int)
    requires
        0 <= p < slots.len(),
        slots[p] is Some,
    ensures
        filled(slots).to_multiset() == filled(slots.update(p, None)).to_multiset().insert(
            slots[p]->0,
        ),
    decreases slots.len(),
{
    let after = slots.update(p, None);
    if p == slots.len() - 1 {
        assert(after.drop_last() =~= slots.drop_last());
        filled(slots.drop_last()).to_multiset_ensures();
    } else {
        lemma_filled_update(slots.drop_last(), p);
        assert(after.drop_last() =~= slots.drop_last().update(p, None));
        filled(slots.drop_last()).to_multiset_ensures();
        filled(after.drop_last()).to_multiset_ensures();
        assert(filled(slots).to_multiset() =~= filled(after).to_multiset().insert(slots[p]->0));
    }
}

/// Empty slots hold nothing.
pub proof fn lemma_nothing_filled<T>(slots: Seq<Option<T>>)
    requires
        forall|p: int| 0 <= p < slots.len() ==> #[trigger] slots[p] is None,
    ensures
        filled(slots) == Seq::<T>::empty(),
    decreases slots.len(),
{
    if slots.len() > 0 {
        lemma_nothing_filled(slots.drop_last());
    }
}

/// The items from a head on around a ring, `n` in number, are what the slots hold, if those
/// slots and no others are filled.
proof fn lemma_ring_items<T>(slots: Seq<Option<T>>, head: int, n: nat)
    requires
        0 <= head,
        n <= slots.len(),
        0 < slots.len(),
        forall|p: int|
            0 <= p < slots.len() ==> (#[trigger] slots[p] is Some <==> (p - head) % (
            slots.len() as int) < n),
    ensures
        filled(slots).to_multiset() == Seq::new(
            n,
            |i: int| slots[(head + i) % slots.len() as int]->0,
        ).to_multiset(),
    decreases n,
{
    let cap = slots.len() as int;
    let items = Seq::new(n, |i: int| slots[(head + i) % cap]->0);
    if n == 0 {
        assert forall|p: int| 0 <= p < slots.len() implies #[trigger] slots[p] is None by {
            vstd::arithmetic::div_mod::lemma_mod_bound(p - head, cap);
        }
        lemma_nothing_filled(slots);
        assert(items =~= Seq::<T>::empty());
    } else {
        let h = head % cap;
        vstd::arithmetic::div_mod::lemma_mod_bound(head, cap);
        lemma_offset_step(h, head, head + 1, cap);
        assert(slots[h] is Some);
        let after = slots.update(h, None);
        let rest = Seq::new((n - 1) as nat, |i: int| after[(head + 1 + i) % cap]->0);
        assert forall|p: int| 0 <= p < after.len() implies (#[trigger] after[p] is Some <==> (p - (
        head + 1)) % cap < n - 1) by {
            lemma_offset_step(p, head, head + 1, cap);
            assert(slots[p] is Some <==> (p - head) % cap < n);
        }
        lemma_ring_items(after, head + 1, (n - 1) as nat);
        lemma_filled_update(slots, h);
        assert forall|i: int| 0 <= i < n - 1 implies rest[i] == items[i + 1] by {
            lemma_distinct_slots(head, 0, i + 1, cap);
        }
        assert(items =~= seq![slots[h]->0] + rest);
        vstd::seq_lib::lemma_multiset_commutative(seq![slots[h]->0], rest);
        assert(seq![slots[h]->0].to_multiset() =~= vstd::multiset::Multiset::singleton(
            slots[h]->0,
        )) by {
            Seq::<T>::empty().to_multiset_ensures();
            assert(Seq::<T>::empty().push(slots[h]->0) =~= seq![slots[h]->0]);
        }
        assert(items.to_multiset() =~= rest.to_multiset().insert(slots[h]->0));
    }
}

impl<T> AtomicBuffer<T> {
    /// Draining a buffer on which nobody is at work loses no item and makes none up: what the
    /// slots hold, in the order of the slots, are the items from the head to the tail.
    pub proof fn lemma_drain_gives_contents(self)
        requires
            self.wf(),
            self.settled(),
        ensures
            filled(self.slots()).to_multiset() == self.contents().to_multiset(),
    {
        self.lemma_wf();
        lemma_ring_items(self.slots(), self.head() as int, self.backlog());
    }

    /// Whoever pushes and whoever pops, and however they take turns: the items popped,
    /// followed by those that are left, are the items that were there at first, followed by
    /// those pushed. None is lost, none comes twice, and none overtakes another.
    pub proof fn lemma_order_of_items(states: Seq<Self>, events: Seq<Event<T>>)
        requires
            is_run(states.map_values(|state: Self| state.contents()), events),
        ensures
            taken(events) + states.last().contents() == states.first().contents() + put(events),
    {
        lemma_first_in_first_out(states.map_values(|state: Self| state.contents()), events);
    }
}

/// From the head it is the distance to the tail, around the word: no less and no more, and one
/// more with each ticket of a producer.
pub proof fn lemma_distance(head: usize, tail: usize)
    ensures
        (head + distance(head, tail)) % (usize::MAX + 1) == tail,
        distance(head, tail) <= usize::MAX,
        distance(head, head) == 0,
        distance(head, tail) == 0 <==> head == tail,
        bumped(tail) != head ==> distance(head, bumped(tail)) == distance(head, tail) + 1,
        head != tail ==> distance(bumped(head), tail) == distance(head, tail) - 1,
{
    let words = usize::MAX + 1;
    if tail >= head {
        vstd::arithmetic::div_mod::lemma_small_mod(tail as nat, words as nat);
    } else {
        vstd::arithmetic::div_mod::lemma_mod_add_multiples_vanish(tail as int, words);
        vstd::arithmetic::div_mod::lemma_small_mod(tail as nat, words as nat);
        assert(head + distance(head, tail) == words + tail);
    }
}

/// The items of the slots are listed slot by slot: those of the first slots, followed by those
/// of the rest, and a slot gives its item or nothing.
pub proof fn lemma_filled_in_turn<T>(first: Seq<Option<T>>, rest: Seq<Option<T>>, item: T)
    ensures
        filled(first + rest) == filled(first) + filled(rest),
        filled(Seq::<Option<T>>::empty()) == Seq::<T>::empty(),
        filled(seq![Some(item)]) == seq![item],
        filled(seq![None::<T>]) == Seq::<T>::empty(),
    decreases rest.len(),
{
    let one = seq![Some(item)];
    assert(one.drop_last() =~= Seq::<Option<T>>::empty());
    assert(filled(one.drop_last()) == Seq::<T>::empty());
    let none = seq![None::<T>];
    assert(none.drop_last() =~= Seq::<Option<T>>::empty());
    assert(filled(none.drop_last()) == Seq::<T>::empty());
    if rest.len() == 0 {
        assert(first + rest =~= first);
    } else {
        lemma_filled_in_turn(first, rest.drop_last(), item);
        assert((first + rest).drop_last() =~= first + rest.drop_last());
        assert((first + rest).last() == rest.last());
    }
}

impl<T> AtomicBuffer<T> {
    /// The items of a settled buffer stand in consecutive slots around the ring: the first in
    /// the slot of the next consumer, and the slot after the last is that of the next producer.
    pub proof fn lemma_ring_order(self, i: int)
        requires
            self.wf(),
            self.settled(),
            0 <= i < self.contents().len(),
        ensures
            self.slots()[(self.head() as int + i) % self.slots().len() as int] == Some(
                self.contents()[i],
            ),
            self.tail_slot() == (self.head() as int + self.contents().len())
                % self.slots().len() as int,
            self.head_slot() == self.head() as int % self.slots().len() as int,
            0 <= self.head_slot() < self.slots().len(),
            0 <= self.tail_slot() < self.slots().len(),
            self.contents().len() <= self.slots().len(),
    {
        let cap = self.cap as int;
        let p = (self.head + i) % cap;
        self.lemma_tail_offset();
        vstd::arithmetic::div_mod::lemma_mod_bound(self.head + i, cap);
        vstd::arithmetic::div_mod::lemma_mod_bound(self.head as int, cap);
        vstd::arithmetic::div_mod::lemma_mod_bound(self.tail as int, cap);
        assert((p - self.head) % cap == i) by {
            vstd::arithmetic::div_mod::lemma_sub_mod_noop(self.head + i, self.head as int, cap);
            vstd::arithmetic::div_mod::lemma_sub_mod_noop(p, self.head as int, cap);
            vstd::arithmetic::div_mod::lemma_mod_twice(self.head + i, cap);
            vstd::arithmetic::div_mod::lemma_small_mod(i as nat, cap as nat);
        }
        assert(self.slots()[p] is Some);
    }
}

} // verus!
