//! How producers and consumers share a vector of blocks without a lock.
//!
//! A producer counts the tail on and only then writes the slot that it has claimed; a consumer
//! counts the head on and waits until the slot that it has claimed is written. [`Line`] keeps
//! the claims in their order, gaps left out. However the accesses follow on each other, the
//! consumer with a claim gets the item of the producer with the same claim.

use vstd::prelude::*;

verus! {

use crate::atomic::index::{flagged, position, rank, PopPlan, PushPlan};

/// What became of a claim.
pub enum Claim<T> {
    /// A producer has the claim and has not written its slot yet.
    Coming(T),
    /// The slot is written.
    Written(T),
    /// A consumer has read the slot.
    Taken,
}

/// The claims of a vector, in their order, and what was handed over.
pub struct Line<T> {
    /// How many claims consumers have.
    pub head: nat,
    /// What became of each claim of a producer.
    pub claims: Seq<Claim<T>>,
    /// The items that producers came with, in the order of their claims.
    pub given: Seq<T>,
    /// What the consumers with each claim got.
    pub got: Map<int, T>,
}

/// One access to a vector that changes it.
pub enum LineAccess<T> {
    /// A producer with an item counts the tail on.
    ClaimPut { item: T },
    /// A consumer counts the head on.
    ClaimTake,
    /// A producer writes its slot.
    Write { claim: int },
    /// A consumer reads its slot.
    Read { claim: int },
}

/// The access can be made, and leads from one state to the next.
pub open spec fn follows<T>(before: Line<T>, access: LineAccess<T>, after: Line<T>) -> bool {
    match access {
        LineAccess::ClaimPut { item } => after == Line {
            claims: before.claims.push(Claim::Coming(item)),
            given: before.given.push(item),
            ..before
        },
        LineAccess::ClaimTake => {
            &&& before.head < before.claims.len()
            &&& after == Line { head: before.head + 1, ..before }
        },
        LineAccess::Write { claim } => {
            &&& 0 <= claim < before.claims.len()
            &&& before.claims[claim] matches Claim::Coming(item) && after == (Line {
                claims: before.claims.update(claim, Claim::Written(item)),
                ..before
            })
        },
        LineAccess::Read { claim } => {
            &&& 0 <= claim < before.head
            &&& claim < before.claims.len()
            &&& before.claims[claim] matches Claim::Written(item) && after == (Line {
                claims: before.claims.update(claim, Claim::Taken),
                got: before.got.insert(claim, item),
                ..before
            })
        },
    }
}

/// The states are those of a new vector to which the accesses are made one after the other.
pub open spec fn is_run<T>(states: Seq<Line<T>>, accesses: Seq<LineAccess<T>>) -> bool {
    &&& states.len() == accesses.len() + 1
    &&& states[0].head == 0
    &&& states[0].claims.len() == 0
    &&& states[0].given.len() == 0
    &&& states[0].got == Map::<int, T>::empty()
    &&& forall|i: int|
        0 <= i < accesses.len() ==> #[trigger] follows(states[i], accesses[i], states[i + 1])
}

impl<T> Line<T> {
    /// The item of a claim is the one that its producer came with, until its consumer has it.
    pub open spec fn is_kept(self, claim: int) -> bool {
        match self.claims[claim] {
            Claim::Coming(item) | Claim::Written(item) => {
                &&& item == self.given[claim]
                &&& !self.got.dom().contains(claim)
            },
            Claim::Taken => {
                &&& claim < self.head
                &&& self.got.dom().contains(claim)
                &&& self.got[claim] == self.given[claim]
            },
        }
    }

    /// Consumers have no more claims than producers, and every item is where it belongs.
    pub open spec fn agrees(self) -> bool {
        &&& self.head <= self.claims.len()
        &&& self.given.len() == self.claims.len()
        &&& forall|claim: int|
            0 <= claim < self.claims.len() ==> #[trigger] self.is_kept(claim)
        &&& forall|claim: int| #[trigger]
            self.got.dom().contains(claim) ==> 0 <= claim < self.claims.len()
    }
}

/// An access leaves every item where it belongs.
pub proof fn lemma_access_agrees<T>(before: Line<T>, access: LineAccess<T>, after: Line<T>)
    requires
        before.agrees(),
        follows(before, access, after),
    ensures
        after.agrees(),
        before.given.is_prefix_of(after.given),
{
    assert forall|claim: int| 0 <= claim < after.claims.len() implies #[trigger] after.is_kept(
        claim,
    ) by {
        if claim < before.claims.len() {
            assert(before.is_kept(claim));
        }
    }
    assert(before.given.is_prefix_of(after.given)) by {
        assert(before.given =~= after.given.subrange(0, before.given.len() as int));
    }
}

/// First in, first out, in every state that threads can reach, however slow they are between
/// their claims and their slots: the consumer with the claim `i` gets what the producer with
/// the claim `i` came with. One that has not got it yet waits for a producer that has its claim
/// and is on its way to write the slot, or finds the slot written.
pub proof fn lemma_claims_match<T>(states: Seq<Line<T>>, accesses: Seq<LineAccess<T>>, n: int)
    requires
        is_run(states, accesses),
        0 <= n < states.len(),
    ensures
        states[n].agrees(),
        forall|i: int| #[trigger]
            states[n].got.dom().contains(i) ==> states[n].got[i] == states[n].given[i],
        forall|i: int|
            0 <= i < states[n].head && !states[n].got.dom().contains(i) ==> (
            #[trigger] states[n].claims[i]) is Coming || states[n].claims[i] is Written,
    decreases n,
{
    if n > 0 {
        lemma_claims_match(states, accesses, n - 1);
        assert(follows(states[n - 1], accesses[n - 1], states[n - 1 + 1]));
        lemma_access_agrees(states[n - 1], accesses[n - 1], states[n]);
    }
    let state = states[n];
    assert forall|i: int| #[trigger] state.got.dom().contains(i) implies state.got[i]
        == state.given[i] by {
        assert(state.is_kept(i));
    }
    assert forall|i: int| 0 <= i < state.head && !state.got.dom().contains(i) implies (
    #[trigger] state.claims[i]) is Coming || state.claims[i] is Written by {
        assert(state.is_kept(i));
    }
}

/// A producer that counts the tail on, as [`crate::atomic::index::push_plan`] says, claims the
/// rank of the tail's position, and the tail's rank goes up by one; moving the tail past a gap
/// does not change its rank. The slot is the one of that rank: no other rank has it.
pub proof fn lemma_push_claims_a_rank(tail: usize, plan: PushPlan)
    requires
        tail <= usize::MAX - 4,
        plan == crate::atomic::index::planned_push(tail),
    ensures
        plan matches PushPlan::Claim { new_tail, offset, opens } ==> {
            &&& rank(position(new_tail)) == rank(position(tail)) + 1
            &&& offset == rank(position(tail)) % 31
            &&& position(tail) / 32 == rank(position(tail)) / 31
            &&& opens matches Some(next) ==> rank(position(next.next_index)) == rank(
                position(new_tail),
            )
        },
{
}

/// A consumer that counts the head on, as [`crate::atomic::index::pop_plan`] says, claims the
/// rank of the head's position, and the head's rank goes up by one. If the head's flag tells
/// the truth, that the tail is in a later block, a producer has claimed that rank before.
pub proof fn lemma_pop_claims_a_rank(head: usize, tail: usize, plan: PopPlan)
    requires
        head <= usize::MAX - 4,
        position(head) <= position(tail),
        flagged(head) ==> position(head) / 32 < position(tail) / 32,
        plan == crate::atomic::index::planned_pop(head, tail),
    ensures
        plan matches PopPlan::Claim { new_head, offset, .. } ==> {
            &&& rank(position(head)) < rank(position(tail))
            &&& rank(position(new_head)) == rank(position(head)) + 1
            &&& offset == rank(position(head)) % 31
            &&& position(head) / 32 == rank(position(head)) / 31
            &&& flagged(new_head) ==> position(head) / 32 < position(tail) / 32
        },
        plan == PopPlan::Empty ==> rank(position(head)) == rank(position(tail)),
{
}

} // verus!
