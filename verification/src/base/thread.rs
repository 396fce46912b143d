//! A parking place for threads, with tokens.
//!
//! [`ThreadParker`] is the record that the threads share: how many tokens there are, and the
//! number of handles. A thread parks until it can take a token; unparking adds one.

use crate::base::futex::{futex_wake, FutexCall};
use vstd::prelude::*;

verus! {

use crate::bits::{bumped, lowered};

/// No token is left: a thread that parks has to sleep.
pub const PARKED: usize = 0;

/// The tokens of a new parking place.
pub const UNPARKED: usize = 1;

/// The shared record of a parking place.
#[derive(Debug)]
pub struct ThreadParker {
    tokens: usize,
    ref_count: usize,
}

/// What a parking place says.
pub struct ParkerView {
    /// How many tokens there are.
    pub tokens: usize,
    /// How many handles share the parking place.
    pub ref_count: usize,
}

impl View for ThreadParker {
    type V = ParkerView;

    closed spec fn view(&self) -> ParkerView {
        ParkerView { tokens: self.tokens, ref_count: self.ref_count }
    }
}

impl ParkerView {
    /// The parking place with one token more.
    pub open spec fn with_token(self) -> Self {
        ParkerView { tokens: bumped(self.tokens), ..self }
    }

    /// The parking place with one token less, if there is one.
    pub open spec fn without_token(self) -> Self {
        if self.tokens > 0 {
            ParkerView { tokens: (self.tokens - 1) as usize, ..self }
        } else {
            self
        }
    }
}

/// What a thread does next that wants to park.
#[derive(Clone, Copy, Debug, PartialEq, Eq, Structural)]
pub enum ParkStep {
    /// Make the call, and try again.
    Sleep { call: FutexCall },
    /// Go on: a token was taken.
    Done,
}

/// What a thread does after it tried to take a token: go on with one, and otherwise sleep
/// while there is none.
pub fn after_try(taken: bool) -> (step: ParkStep)
    ensures
        step == if taken {
            ParkStep::Done
        } else {
            ParkStep::Sleep { call: FutexCall::Wait { expected: 0 } }
        },
{
    if taken {
        ParkStep::Done
    } else {
        ParkStep::Sleep { call: FutexCall::Wait { expected: PARKED as u32 } }
    }
}

impl ThreadParker {
    /// A parking place with one token and two handles, one for the thread that parks and one
    /// for the thread that unparks it.
    pub fn new() -> (parker: Self)
        ensures
            parker@ == (ParkerView { tokens: 1, ref_count: 2 }),
    {
        let mut parker = ThreadParker { tokens: UNPARKED, ref_count: 1 };
        parker.clone_ref();
        parker.clone_ref();
        parker.drop_ref();
        parker
    }

    /// Takes a token, if there is one.
    pub fn try_consume_token(&mut self) -> (taken: bool)
        ensures
            taken == (old(self)@.tokens > 0),
            final(self)@ == old(self)@.without_token(),
    {
        if self.tokens > PARKED {
            self.tokens = self.tokens - 1;
            true
        } else {
            false
        }
    }

    /// Adds a token. Returns how many there were.
    pub fn add_token(&mut self) -> (previous: usize)
        ensures
            previous == old(self)@.tokens,
            final(self)@ == old(self)@.with_token(),
    {
        let previous: usize = self.tokens;
        self.tokens = previous.wrapping_add(1);
        previous
    }

    /// Takes a token. There has to be one: a thread that finds none sleeps, as [`after_try`]
    /// says.
    pub fn park(&mut self)
        requires
            old(self)@.tokens > 0,
        ensures
            final(self)@ == old(self)@.without_token(),
    {
        self.try_consume_token();
    }

    /// Adds a token, and wakes one thread.
    pub fn unpark(&mut self) -> (call: FutexCall)
        ensures
            call == (FutexCall::Wake { count: 1 }),
            final(self)@ == old(self)@.with_token(),
    {
        self.add_token();
        futex_wake(Some(self.tokens))
    }

    /// Counts one handle more.
    pub fn clone_ref(&mut self)
        ensures
            final(self)@ == (ParkerView { ref_count: bumped(old(self)@.ref_count), ..old(self)@ }),
    {
        self.ref_count = self.ref_count.wrapping_add(1);
    }

    /// Counts one handle less, and says whether it was the last.
    pub fn drop_ref(&mut self) -> (last: bool)
        ensures
            last == (old(self)@.ref_count == 1),
            final(self)@ == (ParkerView {
                ref_count: lowered(old(self)@.ref_count),
                ..old(self)@
            }),
    {
        let previous: usize = self.ref_count;
        self.ref_count = previous.wrapping_sub(1);
        previous == 1
    }
}

/// What a parking place says after tokens were added (`true`) and asked for (`false`).
pub open spec fn after_acts(parker: ParkerView, acts: Seq<bool>) -> ParkerView
    decreases acts.len(),
{
    if acts.len() == 0 {
        parker
    } else if acts.last() {
        after_acts(parker, acts.drop_last()).with_token()
    } else {
        after_acts(parker, acts.drop_last()).without_token()
    }
}

/// How many of the acts added a token.
pub open spec fn added(acts: Seq<bool>) -> nat
    decreases acts.len(),
{
    if acts.len() == 0 {
        0
    } else {
        added(acts.drop_last()) + if acts.last() {
            1nat
        } else {
            0
        }
    }
}

/// How many of the acts asked for a token and found one.
pub open spec fn taken(parker: ParkerView, acts: Seq<bool>) -> nat
    decreases acts.len(),
{
    if acts.len() == 0 {
        0
    } else {
        taken(parker, acts.drop_last()) + if !acts.last() && after_acts(
            parker,
            acts.drop_last(),
        ).tokens > 0 {
            1nat
        } else {
            0
        }
    }
}

/// While the tokens can be counted, none is lost and none is made up: those that are left and
/// those that were taken are those that were there and those that were added.
pub proof fn lemma_tokens_conserved(parker: ParkerView, acts: Seq<bool>)
    requires
        parker.tokens + added(acts) <= usize::MAX,
    ensures
        after_acts(parker, acts).tokens + taken(parker, acts) == parker.tokens + added(acts),
    decreases acts.len(),
{
    if acts.len() > 0 {
        lemma_tokens_conserved(parker, acts.drop_last());
    }
}

/// A token that is added is there, one that is taken is gone, and neither changes the handles;
/// asking where there is none changes nothing.
pub proof fn lemma_tokens_one_by_one(parker: ParkerView)
    ensures
        parker.tokens < usize::MAX ==> parker.with_token().tokens == parker.tokens + 1,
        parker.tokens == usize::MAX ==> parker.with_token().tokens == 0,
        parker.with_token().ref_count == parker.ref_count,
        parker.tokens > 0 ==> parker.without_token().tokens == parker.tokens - 1,
        parker.tokens == 0 ==> parker.without_token() == parker,
        parker.without_token().ref_count == parker.ref_count,
        parker.tokens < usize::MAX ==> parker.with_token().without_token() == parker,
{
}

/// Acts count one after the other: those of two stages are those of the first and then those of
/// the second, begun where the first left off.
pub proof fn lemma_acts_in_turn(parker: ParkerView, first: Seq<bool>, second: Seq<bool>)
    ensures
        after_acts(parker, Seq::<bool>::empty()) == parker,
        after_acts(parker, seq![true]) == parker.with_token(),
        after_acts(parker, seq![false]) == parker.without_token(),
        after_acts(parker, first + second) == after_acts(after_acts(parker, first), second),
        added(seq![true]) == 1,
        added(seq![false]) == 0,
        added(first + second) == added(first) + added(second),
        taken(parker, seq![true]) == 0,
        taken(parker, seq![false]) == if parker.tokens > 0 {
            1int
        } else {
            0
        },
        taken(parker, first + second) == taken(parker, first) + taken(
            after_acts(parker, first),
            second,
        ),
    decreases second.len(),
{
    let none = Seq::<bool>::empty();
    assert(seq![true].drop_last() =~= none);
    assert(seq![false].drop_last() =~= none);
    assert(after_acts(parker, none) == parker);
    assert(added(none) == 0);
    assert(taken(parker, none) == 0);
    if second.len() == 0 {
        assert(first + second =~= first);
    } else {
        lemma_acts_in_turn(parker, first, second.drop_last());
        assert((first + second).drop_last() =~= first + second.drop_last());
    }
}

} // verus!
