//! How threads fill an array together without a lock.
//!
//! A thread that pushes replaces the tail that it saw by the next one and so claims the slot at
//! the tail; only then does it write the slot and count the element. A thread that finds
//! another tail in place tries again with that one. [`ArrayPush`] is one thread's push, access
//! by access; [`Row`] is an array while any number of pushes are under way.

use crate::atomic::array::{claim_slot, AtomicArray};
use crate::base::backoff::{Backoff, Pause};
use vstd::prelude::*;

verus! {

use crate::atomic::array::claimed;

/// The next access that a push makes.
#[derive(Clone, Copy, Debug, PartialEq, Eq, Structural)]
pub enum ArrayOp {
    /// Read the tail.
    Load,
    /// Replace the tail `current` by `new`, if it still is `current`.
    Claim { current: usize, new: usize },
    /// Back off for a moment.
    Rest { pause: Pause },
    /// The slot at `index` is the thread's own: write it, and count the element.
    Fill { index: usize },
    /// Every slot is taken: give the value back.
    Refused,
}

/// What an access found.
#[derive(Clone, Copy, Debug, PartialEq, Eq, Structural)]
pub enum ArrayReply {
    /// The access has no result.
    Nothing,
    /// The tail that was read.
    Tail { value: usize },
    /// The replacement took place.
    Took,
    /// The replacement did not take place; this tail was there.
    Lost { value: usize },
}

/// Where a push stands.
#[derive(Clone, Copy, Debug, PartialEq, Eq, Structural)]
pub enum ArrayPhase {
    /// Nothing was done yet.
    Start,
    /// The tail is being read.
    Reading,
    /// The tail is being replaced.
    Claiming,
    /// A backoff step is being taken.
    Resting,
    /// The slot is claimed, or the push refused.
    Settled,
}

/// One thread's push to an array.
#[derive(Debug)]
pub struct ArrayPush {
    /// Where the push stands.
    pub phase: ArrayPhase,
    /// The capacity of the array.
    pub capacity: usize,
    /// The tail as last seen.
    pub seen: usize,
    /// The thread has lost a slot to another before.
    pub slow: bool,
    /// How long the push has backed off.
    pub backoff: Backoff,
}

impl ArrayPush {
    /// The kind of reply that the access just made gives.
    pub open spec fn expects(self, reply: ArrayReply) -> bool {
        match self.phase {
            ArrayPhase::Start | ArrayPhase::Resting => reply == ArrayReply::Nothing,
            ArrayPhase::Reading => reply is Tail,
            ArrayPhase::Claiming => reply is Took || reply is Lost,
            ArrayPhase::Settled => false,
        }
    }

    /// What a push does that has seen the tail `tail`: it claims the slot there, and is refused
    /// only where the tail says that every slot is taken.
    pub open spec fn decides(self, tail: usize, op: ArrayOp) -> bool {
        &&& self.seen == tail
        &&& match claimed(tail, self.capacity) {
            Some(next) => {
                &&& op == ArrayOp::Claim { current: tail, new: next }
                &&& self.phase == ArrayPhase::Claiming
            },
            None => op == ArrayOp::Refused && self.phase == ArrayPhase::Settled,
        }
    }

    /// What a push does next that stood at `before` and whose access found `reply`. A lost slot
    /// is no refusal: the first time the thread reads the tail again, and after that it backs
    /// off and goes on with the tail that it found.
    pub open spec fn steps(self, before: Self, reply: ArrayReply, op: ArrayOp) -> bool {
        &&& self.capacity == before.capacity
        &&& self.slow == (before.slow || reply is Lost)
        &&& self.phase != ArrayPhase::Resting ==> self.backoff == before.backoff
        &&& match (before.phase, reply) {
            (ArrayPhase::Start, _) => op == ArrayOp::Load && self.phase == ArrayPhase::Reading,
            (ArrayPhase::Reading, ArrayReply::Tail { value }) => self.decides(value, op),
            (ArrayPhase::Claiming, ArrayReply::Took) => {
                &&& op == ArrayOp::Fill { index: before.seen }
                &&& self.phase == ArrayPhase::Settled
                &&& self.seen == before.seen
            },
            (ArrayPhase::Claiming, ArrayReply::Lost { value }) => if before.slow {
                &&& op matches ArrayOp::Rest { pause } && before.backoff.snoozes(pause)
                &&& self.phase == ArrayPhase::Resting
                &&& self.seen == value
                &&& self.backoff.at_step(
                    before.backoff,
                    if before.backoff.step() <= before.backoff.yield_limit() {
                        before.backoff.step() + 1
                    } else {
                        before.backoff.step()
                    },
                )
            } else {
                op == ArrayOp::Load && self.phase == ArrayPhase::Reading
            },
            (ArrayPhase::Resting, _) => self.decides(before.seen, op),
            _ => false,
        }
    }

    /// A new push to an array with the capacity.
    pub fn new(capacity: usize, backoff: Backoff) -> (push: Self)
        requires
            backoff.wf(),
        ensures
            push == (ArrayPush {
                phase: ArrayPhase::Start,
                capacity,
                seen: 0,
                slow: false,
                backoff,
            }),
    {
        ArrayPush { phase: ArrayPhase::Start, capacity, seen: 0, slow: false, backoff }
    }

    fn decide(&mut self, tail: usize) -> (op: ArrayOp)
        ensures
            final(self).capacity == old(self).capacity,
            final(self).slow == old(self).slow,
            final(self).backoff == old(self).backoff,
            final(self).decides(tail, op),
    {
        self.seen = tail;
        match claim_slot(tail, self.capacity) {
            Some(next) => {
                self.phase = ArrayPhase::Claiming;
                ArrayOp::Claim { current: tail, new: next }
            },
            None => {
                self.phase = ArrayPhase::Settled;
                ArrayOp::Refused
            },
        }
    }

    /// Takes what the last access found and says which access comes next, as
    /// [`ArrayPush::steps`] tells.
    pub fn step(&mut self, reply: ArrayReply) -> (op: ArrayOp)
        requires
            old(self).backoff.wf(),
            old(self).expects(reply),
        ensures
            final(self).backoff.wf(),
            final(self).steps(*old(self), reply, op),
    {
        match (self.phase, reply) {
            (ArrayPhase::Start, _) => {
                self.phase = ArrayPhase::Reading;
                ArrayOp::Load
            },
            (ArrayPhase::Reading, ArrayReply::Tail { value }) => self.decide(value),
            (ArrayPhase::Claiming, ArrayReply::Lost { value }) => {
                if self.slow {
                    self.seen = value;
                    self.phase = ArrayPhase::Resting;
                    let pause = self.backoff.snooze();
                    ArrayOp::Rest { pause }
                } else {
                    self.slow = true;
                    self.phase = ArrayPhase::Reading;
                    ArrayOp::Load
                }
            },
            (ArrayPhase::Resting, _) => self.decide(self.seen),
            _ => {
                self.phase = ArrayPhase::Settled;
                ArrayOp::Fill { index: self.seen }
            },
        }
    }
}

/// An array while threads push to it.
pub struct Row<T> {
    /// The most elements that the array can hold.
    pub cap: usize,
    /// The tail.
    pub tail: usize,
    /// The count of elements.
    pub len: nat,
    /// The slots.
    pub slots: Seq<Option<T>>,
    /// The elements that were there at first.
    pub first: Seq<T>,
    /// The values whose slots were claimed since, in the order of the claims.
    pub given: Seq<T>,
    /// The claims whose elements were counted.
    pub counted: Set<int>,
}

/// One access that a push makes.
pub enum RowAccess<T> {
    /// A thread that saw the tail `seen` replaces it, and so claims a slot for its value.
    Claim { seen: usize, value: T },
    /// A thread that saw the tail `seen` finds another one in place.
    Lose { seen: usize },
    /// A thread that saw the tail `seen` gives its value back.
    Refuse { seen: usize },
    /// The thread with the claim writes its slot.
    Write { claim: int },
    /// The thread with the claim counts its element.
    Count { claim: int },
}

impl<T> Row<T> {
    /// The index of the slot that belongs to a claim.
    pub open spec fn index(self, claim: int) -> int {
        self.first.len() + claim
    }
}

/// The access can be made, and leads from one state to the next. What a thread saw is a tail
/// that the array had, and the tail never goes back: [`lemma_tail_grows`].
pub open spec fn follows<T>(before: Row<T>, access: RowAccess<T>, after: Row<T>) -> bool {
    match access {
        RowAccess::Claim { seen, value } => {
            &&& seen == before.tail
            &&& claimed(seen, before.cap) matches Some(next) && after == (Row {
                tail: next,
                given: before.given.push(value),
                ..before
            })
        },
        RowAccess::Lose { seen } => {
            &&& seen < before.tail
            &&& claimed(seen, before.cap) is Some
            &&& after == before
        },
        RowAccess::Refuse { seen } => {
            &&& seen <= before.tail
            &&& claimed(seen, before.cap) is None
            &&& after == before
        },
        RowAccess::Write { claim } => {
            &&& 0 <= claim < before.given.len()
            &&& before.slots[before.index(claim)] is None
            &&& after == (Row {
                slots: before.slots.update(before.index(claim), Some(before.given[claim])),
                ..before
            })
        },
        RowAccess::Count { claim } => {
            &&& 0 <= claim < before.given.len()
            &&& before.slots[before.index(claim)] is Some
            &&& !before.counted.contains(claim)
            &&& after == (Row {
                len: before.len + 1,
                counted: before.counted.insert(claim),
                ..before
            })
        },
    }
}

/// The states are those of an array, which nobody pushes to at first, to which the accesses are
/// made one after the other.
pub open spec fn is_run<T>(states: Seq<Row<T>>, accesses: Seq<RowAccess<T>>) -> bool {
    &&& states.len() == accesses.len() + 1
    &&& states[0].is_at_rest()
    &&& states[0].given.len() == 0
    &&& states[0].counted == Set::<int>::empty()
    &&& forall|i: int|
        0 <= i < accesses.len() ==> #[trigger] follows(states[i], accesses[i], states[i + 1])
}

impl<T> Row<T> {
    /// The elements: those that were there at first, and behind them the values in the order
    /// of their claims.
    pub open spec fn contents(self) -> Seq<T> {
        self.first + self.given
    }

    /// Nobody is between its claim and its count: the elements stand at the front, each in a
    /// slot of its own, the other slots are empty, and the count is right.
    pub open spec fn is_at_rest(self) -> bool {
        &&& self.slots.len() == self.cap
        &&& self.tail == self.contents().len() <= self.cap
        &&& self.len == self.contents().len()
        &&& forall|i: int|
            0 <= i < self.cap ==> #[trigger] self.slots[i] == if i < self.contents().len() {
                Some(self.contents()[i])
            } else {
                None
            }
    }

    /// The tail counts the claims. A claimed slot is empty or has the value that claimed it, and
    /// a counted one has it; the elements that were there at first stay; the slots behind the
    /// tail are empty.
    pub open spec fn agrees(self) -> bool {
        &&& self.slots.len() == self.cap
        &&& self.tail == self.contents().len() <= self.cap
        &&& self.len == self.first.len() + self.counted.len()
        &&& self.counted.finite()
        &&& forall|claim: int| #[trigger]
            self.counted.contains(claim) ==> 0 <= claim < self.given.len()
        &&& forall|i: int|
            0 <= i < self.cap ==> {
                &&& (#[trigger] self.slots[i] matches Some(value) ==> i < self.tail && value
                    == self.contents()[i])
                &&& i < self.first.len() || self.counted.contains(i - self.first.len())
                    ==> self.slots[i] is Some
            }
    }
}

/// An access leaves every value where it belongs, and the tail does not go back.
pub proof fn lemma_access_agrees<T>(before: Row<T>, access: RowAccess<T>, after: Row<T>)
    requires
        before.agrees(),
        follows(before, access, after),
    ensures
        after.agrees(),
        after.cap == before.cap,
        after.first == before.first,
        before.tail <= after.tail,
        before.given.is_prefix_of(after.given),
{
    assert(before.given.is_prefix_of(after.given)) by {
        assert(before.given =~= after.given.subrange(0, before.given.len() as int));
    }
    assert forall|i: int| 0 <= i < after.cap implies {
        &&& (#[trigger] after.slots[i] matches Some(value) ==> i < after.tail && value
            == after.contents()[i])
        &&& i < after.first.len() || after.counted.contains(i - after.first.len())
            ==> after.slots[i] is Some
    } by {
        let slot = before.slots[i];
    }
}

/// The tail never goes back: a tail that a thread saw earlier is at most the tail that is there.
pub proof fn lemma_tail_grows<T>(
    states: Seq<Row<T>>,
    accesses: Seq<RowAccess<T>>,
    earlier: int,
    later: int,
)
    requires
        is_run(states, accesses),
        0 <= earlier <= later < states.len(),
    ensures
        states[earlier].tail <= states[later].tail,
        states[later].agrees(),
        states[later].cap == states[0].cap,
        states[later].first == states[0].first,
    decreases later,
{
    if later == 0 {
        let start = states[0];
        assert(start.counted =~= Set::<int>::empty());
        assert(start.contents() =~= start.first);
        assert(start.agrees());
    } else {
        let before = if earlier < later {
            earlier
        } else {
            later - 1
        };
        lemma_tail_grows(states, accesses, before, later - 1);
        assert(follows(states[later - 1], accesses[later - 1], states[later - 1 + 1]));
        lemma_access_agrees(states[later - 1], accesses[later - 1], states[later]);
    }
}

/// How many pushes have got a slot.
pub open spec fn claims<T>(accesses: Seq<RowAccess<T>>) -> nat
    decreases accesses.len(),
{
    if accesses.len() == 0 {
        0
    } else {
        claims(accesses.drop_last()) + if accesses.last() is Claim {
            1nat
        } else {
            0
        }
    }
}

/// How many pushes have given their value back.
pub open spec fn refusals<T>(accesses: Seq<RowAccess<T>>) -> nat
    decreases accesses.len(),
{
    if accesses.len() == 0 {
        0
    } else {
        refusals(accesses.drop_last()) + if accesses.last() is Refuse {
            1nat
        } else {
            0
        }
    }
}

proof fn lemma_claims_are_given<T>(states: Seq<Row<T>>, accesses: Seq<RowAccess<T>>)
    requires
        is_run(states, accesses),
    ensures
        states.last().given.len() == claims(accesses),
        refusals(accesses) > 0 ==> states.last().tail == states.last().cap,
    decreases accesses.len(),
{
    if accesses.len() > 0 {
        let n = accesses.len() - 1;
        let earlier = states.drop_last();
        let past = accesses.drop_last();
        assert forall|i: int| 0 <= i < past.len() implies #[trigger] follows(
            earlier[i],
            past[i],
            earlier[i + 1],
        ) by {
            assert(follows(states[i], accesses[i], states[i + 1]));
        }
        lemma_claims_are_given(earlier, past);
        lemma_tail_grows(states, accesses, n, n + 1);
        assert(follows(states[n], accesses[n], states[n + 1]));
    }
}

/// A push is refused only once every slot is taken: while the pushes that have ended, in
/// success or not, are no more than the room that there was at first, all of them have got a
/// slot, however often they lost one to each other.
pub proof fn lemma_refused_only_when_full<T>(states: Seq<Row<T>>, accesses: Seq<RowAccess<T>>)
    requires
        is_run(states, accesses),
    ensures
        refusals(accesses) > 0 ==> states.last().tail == states[0].cap && claims(accesses)
            == states[0].cap - states[0].first.len(),
        claims(accesses) + refusals(accesses) <= states[0].cap - states[0].first.len()
            ==> refusals(accesses) == 0,
{
    lemma_claims_are_given(states, accesses);
    lemma_tail_grows(states, accesses, 0, states.len() - 1);
}

/// Each value that got a slot has an index of its own, that of its claim, in every state that
/// threads can reach; no other value ever stands there, and what was there at first stays.
pub proof fn lemma_own_index<T>(states: Seq<Row<T>>, accesses: Seq<RowAccess<T>>, n: int)
    requires
        is_run(states, accesses),
        0 <= n < states.len(),
    ensures
        states[n].tail == states[0].first.len() + states[n].given.len() <= states[0].cap,
        forall|i: int|
            0 <= i < states[0].cap ==> (#[trigger] states[n].slots[i] matches Some(value) ==> {
                &&& i < states[n].tail
                &&& value == states[n].contents()[i]
            }),
        forall|i: int|
            0 <= i < states[0].first.len() ==> #[trigger] states[n].slots[i] == Some(
                states[0].first[i],
            ),
{
    lemma_tail_grows(states, accesses, 0, n);
}

/// Where the pushes that have got a slot have all counted their elements, the array is at rest
/// again: it has grown by exactly as many elements as there were such pushes, and its elements
/// are those that were there at first with the pushed values behind them, each once.
pub proof fn lemma_pushes_all_arrive<T>(states: Seq<Row<T>>, accesses: Seq<RowAccess<T>>)
    requires
        is_run(states, accesses),
        forall|claim: int|
            0 <= claim < states.last().given.len() ==> #[trigger] states.last().counted.contains(
                claim,
            ),
    ensures
        states.last().is_at_rest(),
        states.last().len == states[0].len + claims(accesses),
        states.last().contents() == states[0].contents() + states.last().given,
        states.last().given.len() == claims(accesses),
{
    let last = states.last();
    lemma_claims_are_given(states, accesses);
    lemma_tail_grows(states, accesses, 0, states.len() - 1);
    let all = vstd::set_lib::set_int_range(0, last.given.len() as int);
    vstd::set_lib::lemma_int_range(0, last.given.len() as int);
    assert(last.counted =~= all);
    assert(states[0].contents() =~= states[0].first);
    assert forall|i: int| 0 <= i < last.cap implies #[trigger] last.slots[i] == if i
        < last.contents().len() {
        Some(last.contents()[i])
    } else {
        None
    } by {
        if last.first.len() <= i < last.contents().len() {
            assert(last.counted.contains(i - last.first.len()));
        }
    }
}

/// What an access of a push with the value finds in an array, and what it makes of it.
pub open spec fn finds<T>(
    op: ArrayOp,
    value: T,
    before: Row<T>,
    reply: ArrayReply,
    after: Row<T>,
) -> bool {
    match op {
        ArrayOp::Load => reply == (ArrayReply::Tail { value: before.tail }) && after == before,
        ArrayOp::Claim { current, new } => if before.tail == current {
            &&& reply == ArrayReply::Took
            &&& after == Row { tail: new, given: before.given.push(value), ..before }
        } else {
            &&& reply == ArrayReply::Lost { value: before.tail }
            &&& after == before
        },
        ArrayOp::Rest { .. } => reply == ArrayReply::Nothing && after == before,
        ArrayOp::Fill { .. } | ArrayOp::Refused => false,
    }
}

impl ArrayPush {
    /// The claim that a push has which is about to fill its slot.
    pub open spec fn claim<T>(self, row: Row<T>) -> int {
        self.seen - row.first.len()
    }

    /// The access that a push asks for fits what the array shows. A tail that it saw is one that
    /// the array had; a slot that it fills is its own, still empty and not counted.
    pub open spec fn agrees<T>(self, op: ArrayOp, value: T, row: Row<T>) -> bool {
        &&& self.capacity == row.cap
        &&& match self.phase {
            ArrayPhase::Start => false,
            ArrayPhase::Reading => op == ArrayOp::Load,
            ArrayPhase::Claiming => {
                &&& self.seen <= row.tail
                &&& claimed(self.seen, self.capacity) matches Some(next) && op
                    == (ArrayOp::Claim { current: self.seen, new: next })
            },
            ArrayPhase::Resting => op is Rest && self.seen <= row.tail,
            ArrayPhase::Settled => match op {
                ArrayOp::Fill { index } => {
                    &&& index == self.seen
                    &&& 0 <= self.claim(row) < row.given.len()
                    &&& row.given[self.claim(row)] == value
                    &&& row.slots[index as int] is None
                    &&& !row.counted.contains(self.claim(row))
                },
                ArrayOp::Refused => {
                    &&& self.seen <= row.tail
                    &&& claimed(self.seen, self.capacity) is None
                },
                _ => false,
            },
        }
    }
}

/// Whatever a push asks for is an access of a run, or leaves the array as it is: a replacement
/// of the tail claims a slot or loses it, a filled slot is written and then counted, and a push
/// is refused only where the array shows that every slot is taken.
pub proof fn lemma_push_makes_accesses<T>(push: ArrayPush, op: ArrayOp, value: T, row: Row<T>)
    requires
        row.agrees(),
        push.agrees(op, value, row),
    ensures
        op matches ArrayOp::Claim { current, new } ==> if row.tail == current {
            follows(
                row,
                RowAccess::Claim { seen: current, value },
                Row { tail: new, given: row.given.push(value), ..row },
            )
        } else {
            follows(row, RowAccess::Lose { seen: current }, row)
        },
        op is Fill ==> {
            let claim = push.claim(row);
            let written = Row {
                slots: row.slots.update(push.seen as int, Some(value)),
                ..row
            };
            &&& follows(row, RowAccess::Write { claim }, written)
            &&& follows(
                written,
                RowAccess::Count { claim },
                Row { len: row.len + 1, counted: row.counted.insert(claim), ..written },
            )
        },
        op == ArrayOp::Refused ==> {
            &&& follows(row, RowAccess::Refuse { seen: push.seen }, row)
            &&& row.tail == row.cap
            &&& row.contents().len() == row.cap
        },
{
}

/// A push that is told what its access found asks for an access that fits the array again, from
/// its first access on. A slot that it claims is no other push's: the claims that others have
/// are all earlier ones.
pub proof fn lemma_push_keeps_agreement<T>(
    before: ArrayPush,
    op: ArrayOp,
    value: T,
    row: Row<T>,
    reply: ArrayReply,
    found: Row<T>,
    after: ArrayPush,
    next: ArrayOp,
)
    requires
        row.agrees(),
        ({
            ||| before.phase == ArrayPhase::Start && before.capacity == row.cap && found == row
            ||| before.agrees(op, value, row) && finds(op, value, row, reply, found)
        }),
        after.steps(before, reply, next),
    ensures
        after.agrees(next, value, found),
        found.agrees(),
        found != row ==> {
            &&& follows(row, RowAccess::Claim { seen: before.seen, value }, found)
            &&& after.claim(found) == row.given.len()
        },
{
    if found != row {
        lemma_access_agrees(row, RowAccess::Claim { seen: before.seen, value }, found);
        assert(row.slots[row.tail as int] is None);
    }
}

/// What other threads do meanwhile leaves the access that a push asks for fitting: nobody else
/// writes or counts the slot that it has claimed.
pub proof fn lemma_others_keep_agreement<T>(
    push: ArrayPush,
    op: ArrayOp,
    value: T,
    row: Row<T>,
    access: RowAccess<T>,
    after: Row<T>,
)
    requires
        row.agrees(),
        push.agrees(op, value, row),
        follows(row, access, after),
        access matches RowAccess::Write { claim } ==> !(op is Fill && claim == push.claim(row)),
        access matches RowAccess::Count { claim } ==> !(op is Fill && claim == push.claim(row)),
    ensures
        push.agrees(op, value, after),
        push.claim(after) == push.claim(row),
        op is Fill ==> push.claim(row) < row.given.len(),
        after.agrees(),
{
    lemma_access_agrees(row, access, after);
}

/// The accesses of a push that no other thread comes between.
pub open spec fn undisturbed<T>(tail: usize, value: T) -> Seq<RowAccess<T>> {
    seq![
        RowAccess::Claim { seen: tail, value },
        RowAccess::Write { claim: 0 },
        RowAccess::Count { claim: 0 },
    ]
}

impl<T> AtomicArray<T> {
    /// The array as threads find it that start to push.
    pub open spec fn row(self) -> Row<T> {
        Row {
            cap: self.cap() as usize,
            tail: self@.len() as usize,
            len: self@.len(),
            slots: Seq::new(
                self.cap(),
                |i: int|
                    if i < self@.len() {
                        Some(self@[i])
                    } else {
                        None
                    },
            ),
            first: self@,
            given: Seq::empty(),
            counted: Set::empty(),
        }
    }

    /// An array that nobody pushes to is at rest. A push that no other thread comes between is
    /// a run of three accesses: it claims the slot at the tail, writes it and counts the
    /// element, and leaves the elements that [`AtomicArray::push`] does. Where the array is
    /// full, it is refused.
    pub proof fn lemma_undisturbed_push(self, value: T)
        requires
            self.wf(),
        ensures
            self.row().is_at_rest(),
            self.row().contents() == self@,
            is_run(seq![self.row()], Seq::<RowAccess<T>>::empty()),
            self@.len() < self.cap() ==> exists|states: Seq<Row<T>>|
                {
                    &&& #[trigger] is_run(states, undisturbed(self.row().tail, value))
                    &&& states[0] == self.row()
                    &&& states.last().is_at_rest()
                    &&& states.last().contents() == self@.push(value)
                },
            self@.len() >= self.cap() ==> is_run(
                seq![self.row(), self.row()],
                seq![RowAccess::<T>::Refuse { seen: self.row().tail }],
            ),
    {
        self.lemma_wf();
        let start = self.row();
        assert(start.contents() =~= self@);
        assert(start.is_at_rest());
        if self@.len() < self.cap() {
            let at = start.index(0);
            let claim = Row { tail: (start.tail + 1) as usize, given: seq![value], ..start };
            let write = Row { slots: claim.slots.update(at, Some(value)), ..claim };
            let count = Row {
                len: write.len + 1,
                counted: Set::<int>::empty().insert(0),
                ..write
            };
            let states = seq![start, claim, write, count];
            let accesses = undisturbed(start.tail, value);
            assert(start.given.push(value) =~= seq![value]);
            assert(follows(states[0], accesses[0], states[1]));
            assert(follows(states[1], accesses[1], states[2]));
            assert(follows(states[2], accesses[2], states[3]));
            assert(is_run(states, accesses));
            assert(count.contents() =~= self@.push(value));
            assert(count.is_at_rest());
        } else {
            let states = seq![start, start];
            let accesses = seq![RowAccess::<T>::Refuse { seen: start.tail }];
            assert(follows(states[0], accesses[0], states[1]));
        }
    }
}

/// Claims and refusals are counted access by access, and each access counts as what it is.
pub proof fn lemma_accesses_in_turn<T>(
    first: Seq<RowAccess<T>>,
    second: Seq<RowAccess<T>>,
    access: RowAccess<T>,
)
    ensures
        claims(first + second) == claims(first) + claims(second),
        refusals(first + second) == refusals(first) + refusals(second),
        claims(seq![access]) == if access is Claim {
            1int
        } else {
            0
        },
        refusals(seq![access]) == if access is Refuse {
            1int
        } else {
            0
        },
    decreases second.len(),
{
    let none = Seq::<RowAccess<T>>::empty();
    assert(seq![access].drop_last() =~= none);
    assert(claims(none) == 0);
    assert(refusals(none) == 0);
    if second.len() == 0 {
        assert(first + second =~= first);
    } else {
        lemma_accesses_in_turn(first, second.drop_last(), access);
        assert((first + second).drop_last() =~= first + second.drop_last());
    }
}

impl ArrayPush {
    /// A push, access by access. It goes for the slot at the tail that it last saw exactly where
    /// that tail is below the capacity, and gives its value back exactly where it is not; a
    /// slot that it got it fills, and no other. A lost slot sends it to read the tail anew, and
    /// from the second loss on to rest and go on with the tail that it found. Each access is
    /// one whose reply it waits for.
    pub proof fn lemma_push_steps(self, before: Self, reply: ArrayReply, op: ArrayOp)
        requires
            before.expects(reply),
            self.steps(before, reply, op),
        ensures
            before.phase != ArrayPhase::Settled,
            self.capacity == before.capacity,
            self.slow <==> before.slow || reply is Lost,
            op matches ArrayOp::Claim { current, new } ==> {
                &&& current == self.seen < self.capacity
                &&& new == current + 1
                &&& reply == (ArrayReply::Tail { value: current }) || before.phase
                    == ArrayPhase::Resting && current == before.seen
            },
            op is Refused ==> {
                &&& self.seen >= self.capacity
                &&& reply == (ArrayReply::Tail { value: self.seen }) || before.phase
                    == ArrayPhase::Resting && self.seen == before.seen
            },
            op is Claim || op is Refused <==> before.phase == ArrayPhase::Reading || before.phase
                == ArrayPhase::Resting,
            op is Fill <==> before.phase == ArrayPhase::Claiming && reply is Took,
            op matches ArrayOp::Fill { index } ==> index == before.seen == self.seen,
            op is Load <==> {
                ||| before.phase == ArrayPhase::Start
                ||| before.phase == ArrayPhase::Claiming && reply is Lost && !before.slow
            },
            op is Rest <==> before.phase == ArrayPhase::Claiming && reply is Lost && before.slow,
            op matches ArrayOp::Rest { pause } ==> {
                &&& before.backoff.snoozes(pause)
                &&& reply == (ArrayReply::Lost { value: self.seen })
                &&& self.backoff.spin_limit() == before.backoff.spin_limit()
                &&& self.backoff.yield_limit() == before.backoff.yield_limit()
                &&& before.backoff.step() <= before.backoff.yield_limit() ==> self.backoff.step()
                    == before.backoff.step() + 1
                &&& before.backoff.step() > before.backoff.yield_limit() ==> self.backoff.step()
                    == before.backoff.step()
            },
            op !is Rest ==> self.backoff == before.backoff,
            op is Fill || op is Refused <==> self.phase == ArrayPhase::Settled,
            op is Load <==> self.phase == ArrayPhase::Reading,
            op is Claim <==> self.phase == ArrayPhase::Claiming,
            op is Rest <==> self.phase == ArrayPhase::Resting,
            forall|next: ArrayReply|
                #[trigger] self.expects(next) <==> {
                    ||| op is Load && next is Tail
                    ||| op is Claim && (next is Took || next is Lost)
                    ||| op is Rest && next is Nothing
                },
    {
    }
}

impl ArrayPush {
    /// A tail that is read is given, a replacement takes place or does not, and nothing else has
    /// a reply; a push that is settled waits for none.
    pub proof fn lemma_expected_replies(self, reply: ArrayReply)
        ensures
            reply is Tail ==> (self.expects(reply) <==> self.phase == ArrayPhase::Reading),
            reply is Took || reply is Lost ==> (self.expects(reply) <==> self.phase
                == ArrayPhase::Claiming),
            reply is Nothing ==> (self.expects(reply) <==> self.phase == ArrayPhase::Start
                || self.phase == ArrayPhase::Resting),
    {
    }
}

} // verus!
