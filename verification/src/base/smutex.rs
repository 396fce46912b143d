//! A recursive mutex with an exclusive mode and a group mode.
//!
//! [`SMutex`] is the record that the threads share. The thread that locked it exclusively
//! may lock it again, in either mode, and holds it until it has unlocked as often. Any number
//! of threads hold it together in group mode, and the state counts them: the exclusive mode
//! waits until the last of them has left.

use crate::base::backoff::{Backoff, Pause};
use vstd::prelude::*;

verus! {

use crate::bits::{bumped, lemma_wrapping_count, lowered};

/// Neither mode is in use.
pub const UNLOCKED: usize = 0;

/// The exclusive mode is in use.
pub const LOCKED: usize = 1;

/// One thread more in group mode.
pub const MEMBER: usize = 2;

/// What a mutex says.
pub struct SMutexView {
    /// The exclusive mode is in use.
    pub locked: bool,
    /// How many threads hold the mutex in group mode.
    pub members: nat,
    /// The thread that holds the mutex exclusively; zero for none.
    pub owner: usize,
    /// How often the owner holds the mutex.
    pub recursion: usize,
}

/// The shared record of a recursive mutex.
#[derive(Debug)]
pub struct SMutex {
    state: usize,
    owner: usize,
    recursion: usize,
}

/// What a thread that locked a mutex holds: the mode that it has to unlock.
#[derive(Clone, Copy, Debug, PartialEq, Eq, Structural)]
#[must_use]
pub struct SGuard {
    /// The mutex was locked in group mode.
    pub is_group: bool,
}

/// The next access that a lock attempt makes to the shared record.
#[derive(Clone, Copy, Debug, PartialEq, Eq, Structural)]
pub enum SLockOp {
    /// Read the owner.
    LoadOwner,
    /// Count one more hold of the owner.
    Reenter,
    /// Read the state.
    Load,
    /// Replace the state `current` by `new`, if it still is `current`.
    Claim { current: usize, new: usize },
    /// Note the thread `owner` as the owner with one hold.
    Own { owner: usize },
    /// Sleep while the state is `expected`.
    Wait { expected: usize },
    /// Back off for a moment.
    Rest { pause: Pause },
    /// The mutex is held.
    Acquired,
}

/// What an access found.
#[derive(Clone, Copy, Debug, PartialEq, Eq, Structural)]
pub enum SReply {
    /// The access has no result.
    Nothing,
    /// The word that was read.
    Word { value: usize },
    /// The replacement took place.
    Took,
    /// The replacement did not take place; this state was there.
    Lost { value: usize },
}

/// The exclusive bit of a state.
pub open spec fn locked_bit(state: usize) -> bool {
    state % 2 == 1
}

/// The threads in group mode that a state counts.
pub open spec fn members_of(state: usize) -> nat {
    (state / 2) as nat
}

/// How many threads a state can count in group mode.
pub open spec fn member_limit() -> nat {
    (usize::MAX / 2) as nat
}

/// The members that are left when one leaves, if there is one.
pub open spec fn one_less(members: nat) -> nat {
    if members == 0 {
        0
    } else {
        (members - 1) as nat
    }
}

proof fn lemma_state_parts(state: usize)
    ensures
        state == 2 * members_of(state) + if locked_bit(state) {
            1int
        } else {
            0
        },
        members_of(state) <= member_limit(),
        members_of(state) < member_limit() ==> state <= usize::MAX - 2,
        !locked_bit(state) && state <= usize::MAX - 2 ==> members_of(state) < member_limit(),
{
}

/// The state that a mutex keeps in the word.
pub open spec fn is_state(m: SMutexView, word: usize) -> bool {
    locked_bit(word) == m.locked && members_of(word) == m.members
}

/// What an access of a lock attempt finds in a mutex, and what it makes of it.
pub open spec fn performed(
    op: SLockOp,
    before: SMutexView,
    reply: SReply,
    after: SMutexView,
) -> bool {
    match op {
        SLockOp::LoadOwner => reply == (SReply::Word { value: before.owner }) && after == before,
        SLockOp::Load => {
            &&& reply matches SReply::Word { value } && is_state(before, value)
            &&& after == before
        },
        SLockOp::Reenter => {
            &&& reply == SReply::Nothing
            &&& after == SMutexView { recursion: bumped(before.recursion), ..before }
        },
        SLockOp::Own { owner } => {
            &&& reply == SReply::Nothing
            &&& after == SMutexView { owner, recursion: 1, ..before }
        },
        SLockOp::Claim { current, new } => match reply {
            SReply::Took => {
                &&& is_state(before, current)
                &&& after == SMutexView {
                    locked: locked_bit(new),
                    members: members_of(new),
                    ..before
                }
            },
            SReply::Lost { value } => {
                &&& value != current
                &&& is_state(before, value)
                &&& after == before
            },
            _ => false,
        },
        _ => reply == SReply::Nothing && after == before,
    }
}

impl View for SMutex {
    type V = SMutexView;

    closed spec fn view(&self) -> SMutexView {
        SMutexView {
            locked: locked_bit(self.state),
            members: members_of(self.state),
            owner: self.owner,
            recursion: self.recursion,
        }
    }
}

impl SMutex {
    /// A mutex that nobody holds.
    pub fn new() -> (mutex: Self)
        ensures
            mutex@ == (SMutexView { locked: false, members: 0, owner: 0, recursion: 0 }),
    {
        SMutex { state: UNLOCKED, owner: 0, recursion: 0 }
    }

    /// The thread that holds the mutex exclusively; zero for none.
    pub fn owner(&self) -> (owner: usize)
        ensures
            owner == self@.owner,
    {
        self.owner
    }

    /// How often the owner holds the mutex.
    pub fn recursion(&self) -> (recursion: usize)
        ensures
            recursion == self@.recursion,
    {
        self.recursion
    }

    /// Whether the exclusive mode is in use.
    pub fn is_locked(&self) -> (locked: bool)
        ensures
            locked == self@.locked,
    {
        self.state % 2 == LOCKED
    }

    /// How many threads hold the mutex in group mode.
    pub fn members(&self) -> (members: usize)
        ensures
            members == self@.members,
    {
        self.state / MEMBER
    }

    /// Locks exclusively for the thread `tid`. The mutex has to belong to that thread or to
    /// nobody, in either mode; otherwise a thread waits as [`SLock`] says.
    pub fn lock(&mut self, tid: usize) -> (guard: SGuard)
        requires
            tid != 0,
            old(self)@.owner == tid || !old(self)@.locked && old(self)@.members == 0,
        ensures
            guard == (SGuard { is_group: false }),
            final(self)@ == if old(self)@.owner == tid {
                SMutexView {
                    recursion: bumped(old(self)@.recursion),
                    ..old(self)@
                }
            } else {
                SMutexView { locked: true, members: 0, owner: tid, recursion: 1 }
            },
    {
        if self.owner == tid {
            self.recursion = self.recursion.wrapping_add(1);
        } else {
            self.state = LOCKED;
            self.owner = tid;
            self.recursion = 1;
        }
        SGuard { is_group: false }
    }

    /// Locks in group mode for the thread `tid`. The mutex may not belong to another thread
    /// exclusively; otherwise a thread waits as [`SLockGroup`] says. The exclusive owner
    /// counts one more hold instead of joining the group; any other thread is one member more.
    pub fn lock_group(&mut self, tid: usize) -> (guard: SGuard)
        requires
            tid != 0,
            old(self)@.owner == tid || !old(self)@.locked && old(self)@.members < member_limit(),
        ensures
            guard == (SGuard { is_group: true }),
            final(self)@ == if old(self)@.owner == tid {
                SMutexView {
                    recursion: bumped(old(self)@.recursion),
                    ..old(self)@
                }
            } else {
                SMutexView { members: old(self)@.members + 1, ..old(self)@ }
            },
    {
        if self.owner == tid {
            self.recursion = self.recursion.wrapping_add(1);
        } else {
            proof {
                lemma_state_parts(self.state);
            }
            self.state = self.state + MEMBER;
        }
        SGuard { is_group: true }
    }

    /// Gives up one exclusive hold of the thread `tid`, which has to be the owner. The last
    /// hold frees the mutex; the result says whether a sleeper has to be woken.
    pub fn raw_unlock(&mut self, tid: usize) -> (wake: bool)
        requires
            old(self)@.owner == tid,
        ensures
            wake == (old(self)@.recursion <= 1),
            final(self)@ == if wake {
                SMutexView {
                    locked: false,
                    members: old(self)@.members,
                    owner: 0,
                    recursion: lowered(old(self)@.recursion),
                }
            } else {
                SMutexView { recursion: (old(self)@.recursion - 1) as usize, ..old(self)@ }
            },
    {
        let rec: usize = self.recursion;
        self.recursion = rec.wrapping_sub(1);
        if rec > 1 {
            return false;
        }
        self.owner = 0;
        self.state = self.state - self.state % 2;
        true
    }

    /// Gives up a group hold of the thread `tid`. An exclusive owner gives up one of its
    /// holds, as [`SMutex::raw_unlock`] does. Any other thread is one member less; the others
    /// stay. The result says whether a sleeper has to be woken.
    pub fn raw_unlock_group(&mut self, tid: usize) -> (wake: bool)
        ensures
            wake == (old(self)@.owner != tid || old(self)@.recursion <= 1),
            final(self)@ == if !wake {
                SMutexView { recursion: (old(self)@.recursion - 1) as usize, ..old(self)@ }
            } else if old(self)@.owner == tid {
                SMutexView {
                    locked: false,
                    members: old(self)@.members,
                    owner: 0,
                    recursion: lowered(old(self)@.recursion),
                }
            } else {
                SMutexView { members: one_less(old(self)@.members), ..old(self)@ }
            },
    {
        if self.owner == tid {
            return self.raw_unlock(tid);
        }
        if self.state >= MEMBER {
            self.state = self.state - MEMBER;
        }
        true
    }

    /// Carries out one access of a lock attempt on the record.
    pub fn perform(&mut self, op: SLockOp) -> (reply: SReply)
        ensures
            performed(op, old(self)@, reply, final(self)@),
    {
        match op {
            SLockOp::LoadOwner => SReply::Word { value: self.owner },
            SLockOp::Load => SReply::Word { value: self.state },
            SLockOp::Reenter => {
                self.recursion = self.recursion.wrapping_add(1);
                SReply::Nothing
            },
            SLockOp::Own { owner } => {
                self.owner = owner;
                self.recursion = 1;
                SReply::Nothing
            },
            SLockOp::Claim { current, new } => {
                if self.state == current {
                    self.state = new;
                    SReply::Took
                } else {
                    SReply::Lost { value: self.state }
                }
            },
            _ => SReply::Nothing,
        }
    }
}

impl SGuard {
    /// Unlocks `m` in the mode that this guard stands for.
    pub fn unlock(&self, m: &mut SMutex, tid: usize) -> (wake: bool)
        requires
            !self.is_group ==> old(m)@.owner == tid,
        ensures
            wake == (old(m)@.recursion <= 1 || self.is_group && old(m)@.owner != tid),
            !wake ==> final(m)@ == (SMutexView {
                recursion: (old(m)@.recursion - 1) as usize,
                ..old(m)@
            }),
            wake && old(m)@.owner == tid ==> final(m)@ == (SMutexView {
                locked: false,
                members: old(m)@.members,
                owner: 0,
                recursion: lowered(old(m)@.recursion),
            }),
            wake && old(m)@.owner != tid ==> final(m)@ == (SMutexView {
                members: one_less(old(m)@.members),
                ..old(m)@
            }),
    {
        if self.is_group {
            m.raw_unlock_group(tid)
        } else {
            m.raw_unlock(tid)
        }
    }

    /// Locks `m` again in the mode that this guard stands for.
    pub fn lock(&self, m: &mut SMutex, tid: usize)
        requires
            tid != 0,
            old(m)@.owner == tid || !old(m)@.locked && if self.is_group {
                old(m)@.members < member_limit()
            } else {
                old(m)@.members == 0
            },
        ensures
            final(m)@ == if old(m)@.owner == tid {
                SMutexView {
                    recursion: bumped(old(m)@.recursion),
                    ..old(m)@
                }
            } else if self.is_group {
                SMutexView { members: old(m)@.members + 1, ..old(m)@ }
            } else {
                SMutexView { locked: true, members: 0, owner: tid, recursion: 1 }
            },
    {
        if self.is_group {
            let _guard = m.lock_group(tid);
        } else {
            let _guard = m.lock(tid);
        }
    }
}

/// Where an attempt at the exclusive mode stands.
#[derive(Clone, Copy, Debug, PartialEq, Eq, Structural)]
pub enum SPhase {
    /// Nothing was done yet.
    Start,
    /// The owner is being read.
    OwnerRead,
    /// The owner's holds are being counted up.
    Reentering,
    /// The state is being read before it is replaced.
    Loading,
    /// The state is being replaced.
    Claiming,
    /// The owner is being noted.
    Owning,
    /// A backoff step is being taken.
    Resting,
    /// The state is being read before sleep.
    Checking,
    /// The thread sleeps.
    Waiting,
    /// The mutex is held.
    Held,
}

/// One thread's attempt at the exclusive mode.
#[derive(Debug)]
pub struct SLock {
    /// Where the attempt stands.
    pub phase: SPhase,
    /// The thread.
    pub tid: usize,
    /// How long the attempt has backed off.
    pub backoff: Backoff,
}

impl SLock {
    /// The kind of reply that the access just made gives.
    pub open spec fn expects(self, reply: SReply) -> bool {
        match self.phase {
            SPhase::OwnerRead | SPhase::Checking => reply is Word,
            SPhase::Claiming => reply is Took || reply is Lost,
            SPhase::Held | SPhase::Loading => false,
            _ => reply == SReply::Nothing,
        }
    }

    /// What an attempt does next that stood at `before` and whose access found `reply`.
    pub open spec fn steps(self, before: Self, reply: SReply, op: SLockOp) -> bool {
        &&& self.tid == before.tid
        &&& self.phase != SPhase::Resting ==> self.backoff == before.backoff
        &&& match (before.phase, reply) {
            (SPhase::Start, _) => op == SLockOp::LoadOwner && self.phase
                == SPhase::OwnerRead,
            (SPhase::OwnerRead, SReply::Word { value }) => if value == before.tid {
                op == SLockOp::Reenter && self.phase == SPhase::Reentering
            } else {
                op == (SLockOp::Claim { current: UNLOCKED, new: LOCKED })
                    && self.phase == SPhase::Claiming
            },
            (SPhase::Reentering, _) => op == SLockOp::Acquired && self.phase
                == SPhase::Held,
            (SPhase::Claiming, SReply::Took) => op == (SLockOp::Own { owner: before.tid })
                && self.phase == SPhase::Owning,
            (SPhase::Claiming, _) => if before.backoff.step()
                >= before.backoff.spin_limit() {
                op == SLockOp::Load && self.phase == SPhase::Checking
            } else {
                &&& op matches SLockOp::Rest { pause } && before.backoff.snoozes(pause)
                &&& self.phase == SPhase::Resting
                &&& self.backoff.at_step(
                    before.backoff,
                    before.backoff.step() + 1,
                )
            },
            (SPhase::Owning, _) => op == SLockOp::Acquired && self.phase
                == SPhase::Held,
            (SPhase::Checking, SReply::Word { value }) => if locked_bit(value) {
                op == (SLockOp::Wait { expected: LOCKED }) && self.phase
                    == SPhase::Waiting
            } else {
                op == (SLockOp::Claim { current: UNLOCKED, new: LOCKED })
                    && self.phase == SPhase::Claiming
            },
            (SPhase::Waiting, _) => op == SLockOp::Load && self.phase
                == SPhase::Checking,
            (SPhase::Resting, _) => op == (SLockOp::Claim { current: UNLOCKED, new: LOCKED })
                && self.phase == SPhase::Claiming,
            _ => false,
        }
    }

    /// A new attempt of the thread `tid`.
    pub fn new(tid: usize, backoff: Backoff) -> (attempt: Self)
        requires
            backoff.wf(),
        ensures
            attempt == (SLock { phase: SPhase::Start, tid, backoff }),
    {
        SLock { phase: SPhase::Start, tid, backoff }
    }

    /// Takes what the last access found and says which access comes next.
    pub fn step(&mut self, reply: SReply) -> (op: SLockOp)
        requires
            old(self).backoff.wf(),
            old(self).expects(reply),
        ensures
            final(self).backoff.wf(),
            final(self).steps(*old(self), reply, op),
    {
        match (self.phase, reply) {
            (SPhase::Start, _) => {
                self.phase = SPhase::OwnerRead;
                SLockOp::LoadOwner
            },
            (SPhase::OwnerRead, SReply::Word { value }) => {
                if value == self.tid {
                    self.phase = SPhase::Reentering;
                    SLockOp::Reenter
                } else {
                    self.phase = SPhase::Claiming;
                    SLockOp::Claim { current: UNLOCKED, new: LOCKED }
                }
            },
            (SPhase::Reentering, _) | (SPhase::Owning, _) => {
                self.phase = SPhase::Held;
                SLockOp::Acquired
            },
            (SPhase::Claiming, SReply::Took) => {
                self.phase = SPhase::Owning;
                SLockOp::Own { owner: self.tid }
            },
            (SPhase::Claiming, _) => {
                if !self.backoff.is_yielding() {
                    let pause = self.backoff.snooze();
                    self.phase = SPhase::Resting;
                    SLockOp::Rest { pause }
                } else {
                    self.phase = SPhase::Checking;
                    SLockOp::Load
                }
            },
            (SPhase::Checking, SReply::Word { value }) => {
                if value % 2 == LOCKED {
                    self.phase = SPhase::Waiting;
                    SLockOp::Wait { expected: LOCKED }
                } else {
                    self.phase = SPhase::Claiming;
                    SLockOp::Claim { current: UNLOCKED, new: LOCKED }
                }
            },
            (SPhase::Waiting, _) => {
                self.phase = SPhase::Checking;
                SLockOp::Load
            },
            _ => {
                self.phase = SPhase::Claiming;
                SLockOp::Claim { current: UNLOCKED, new: LOCKED }
            },
        }
    }
}

/// One thread's attempt at the group mode.
#[derive(Debug)]
pub struct SLockGroup {
    /// Where the attempt stands.
    pub phase: SPhase,
    /// The thread.
    pub tid: usize,
    /// The state as last seen before sleep.
    pub state: usize,
    /// How long the attempt has backed off.
    pub backoff: Backoff,
}

impl SLockGroup {
    /// The kind of reply that the access just made gives.
    pub open spec fn expects(self, reply: SReply) -> bool {
        match self.phase {
            SPhase::OwnerRead | SPhase::Loading | SPhase::Checking => reply is Word,
            SPhase::Claiming => reply is Took || reply is Lost,
            SPhase::Held | SPhase::Owning => false,
            _ => reply == SReply::Nothing,
        }
    }

    /// What an attempt does that has just seen `state`: it joins the group unless the
    /// exclusive mode is in use, or the state can count no more members, from which it backs
    /// off.
    pub open spec fn decides(self, before: Self, state: usize, op: SLockOp) -> bool {
        if !locked_bit(state) && members_of(state) < member_limit() {
            &&& op matches SLockOp::Claim { current, new } && current == state && !locked_bit(new)
                && members_of(new) == members_of(state) + 1
            &&& self.phase == SPhase::Claiming
            &&& self.backoff == before.backoff
        } else {
            &&& op matches SLockOp::Rest { pause } && before.backoff.snoozes(pause)
            &&& self.phase == SPhase::Resting
            &&& self.state == state
            &&& self.backoff.at_step(
                before.backoff,
                if before.backoff.step() <= before.backoff.yield_limit() {
                    before.backoff.step() + 1
                } else {
                    before.backoff.step()
                },
            )
        }
    }

    /// What an attempt does next that stood at `before` and whose access found `reply`.
    pub open spec fn steps(self, before: Self, reply: SReply, op: SLockOp) -> bool {
        &&& self.tid == before.tid
        &&& self.phase != SPhase::Resting ==> self.backoff == before.backoff
        &&& match (before.phase, reply) {
            (SPhase::Start, _) => op == SLockOp::LoadOwner && self.phase
                == SPhase::OwnerRead,
            (SPhase::OwnerRead, SReply::Word { value }) => if value == before.tid {
                op == SLockOp::Reenter && self.phase == SPhase::Reentering
            } else {
                op == SLockOp::Load && self.phase == SPhase::Loading
            },
            (SPhase::Loading, SReply::Word { value }) => self.decides(
                before,
                value,
                op,
            ),
            (SPhase::Claiming, SReply::Lost { value }) => self.decides(
                before,
                value,
                op,
            ),
            (SPhase::Checking, SReply::Word { value }) => if locked_bit(value) {
                op == (SLockOp::Wait { expected: before.state }) && self.phase
                    == SPhase::Waiting && self.state == before.state
            } else {
                op == SLockOp::Load && self.phase == SPhase::Loading
            },
            (SPhase::Resting, _) | (SPhase::Waiting, _) => op == SLockOp::Load
                && self.phase == SPhase::Checking && self.state
                == before.state,
            (SPhase::Reentering, _) | (SPhase::Claiming, SReply::Took) => op
                == SLockOp::Acquired && self.phase == SPhase::Held,
            _ => false,
        }
    }

    /// A new attempt of the thread `tid`.
    pub fn new(tid: usize, backoff: Backoff) -> (attempt: Self)
        requires
            backoff.wf(),
        ensures
            attempt == (SLockGroup { phase: SPhase::Start, tid, state: 0, backoff }),
    {
        SLockGroup { phase: SPhase::Start, tid, state: 0, backoff }
    }

    fn decide(&mut self, state: usize) -> (op: SLockOp)
        requires
            old(self).backoff.wf(),
        ensures
            final(self).backoff.wf(),
            final(self).tid == old(self).tid,
            final(self).decides(*old(self), state, op),
    {
        proof {
            lemma_state_parts(state);
        }
        if state % 2 != LOCKED && state <= usize::MAX - MEMBER {
            self.phase = SPhase::Claiming;
            return SLockOp::Claim { current: state, new: state + MEMBER };
        }
        self.state = state;
        self.phase = SPhase::Resting;
        let pause = self.backoff.snooze();
        SLockOp::Rest { pause }
    }

    /// Takes what the last access found and says which access comes next.
    pub fn step(&mut self, reply: SReply) -> (op: SLockOp)
        requires
            old(self).backoff.wf(),
            old(self).expects(reply),
        ensures
            final(self).backoff.wf(),
            final(self).steps(*old(self), reply, op),
    {
        match (self.phase, reply) {
            (SPhase::Start, _) => {
                self.phase = SPhase::OwnerRead;
                SLockOp::LoadOwner
            },
            (SPhase::OwnerRead, SReply::Word { value }) => {
                if value == self.tid {
                    self.phase = SPhase::Reentering;
                    SLockOp::Reenter
                } else {
                    self.phase = SPhase::Loading;
                    SLockOp::Load
                }
            },
            (SPhase::Loading, SReply::Word { value }) => self.decide(value),
            (SPhase::Claiming, SReply::Lost { value }) => self.decide(value),
            (SPhase::Checking, SReply::Word { value }) => {
                if value % 2 == LOCKED {
                    self.phase = SPhase::Waiting;
                    SLockOp::Wait { expected: self.state }
                } else {
                    self.phase = SPhase::Loading;
                    SLockOp::Load
                }
            },
            (SPhase::Resting, _) | (SPhase::Waiting, _) => {
                self.phase = SPhase::Checking;
                SLockOp::Load
            },
            _ => {
                self.phase = SPhase::Held;
                SLockOp::Acquired
            },
        }
    }
}

/// How many more times a thread locked than it unlocked.
pub open spec fn depth_after(actions: Seq<bool>) -> int
    decreases actions.len(),
{
    if actions.len() == 0 {
        0
    } else {
        depth_after(actions.drop_last()) + if actions.last() {
            1int
        } else {
            -1int
        }
    }
}

/// The mutex after one action of the thread `tid`: `true` locks it exclusively, `false`
/// gives up one hold. This is what [`SMutex::lock`] and [`SMutex::raw_unlock`] do.
pub open spec fn after_action(m: SMutexView, tid: usize, lock: bool) -> SMutexView {
    if lock {
        if m.owner == tid {
            SMutexView { recursion: bumped(m.recursion), ..m }
        } else {
            SMutexView { locked: true, members: 0, owner: tid, recursion: 1 }
        }
    } else if m.recursion <= 1 {
        SMutexView {
            locked: false,
            members: m.members,
            owner: 0,
            recursion: lowered(m.recursion),
        }
    } else {
        SMutexView { recursion: (m.recursion - 1) as usize, ..m }
    }
}

/// The mutex after all of `actions` of the thread `tid`.
pub open spec fn after_actions(m: SMutexView, tid: usize, actions: Seq<bool>) -> SMutexView
    decreases actions.len(),
{
    if actions.len() == 0 {
        m
    } else {
        after_action(after_actions(m, tid, actions.drop_last()), tid, actions.last())
    }
}

/// Recursive locking: starting from a free mutex, as long as a thread never unlocks more
/// often than it locked, the mutex is locked exactly while its depth is positive, its
/// recursion count is that depth, and the thread is the owner exactly then.
pub proof fn lemma_recursion_is_depth(tid: usize, actions: Seq<bool>)
    requires
        tid != 0,
        actions.len() <= usize::MAX,
        forall|i: int| 0 <= i <= actions.len() ==> #[trigger] depth_after(actions.take(i)) >= 0,
    ensures
        ({
            let free = SMutexView { locked: false, members: 0, owner: 0, recursion: 0 };
            let m = after_actions(free, tid, actions);
            &&& m.recursion == depth_after(actions)
            &&& m.locked == (depth_after(actions) > 0)
            &&& m.owner == (if depth_after(actions) > 0 {
                tid
            } else {
                0
            })
            &&& m.members == 0
            &&& depth_after(actions) <= actions.len()
        }),
    decreases actions.len(),
{
    assert(actions.take(actions.len() as int) =~= actions);
    if actions.len() > 0 {
        let before = actions.drop_last();
        assert forall|i: int| 0 <= i <= before.len() implies #[trigger] depth_after(
            before.take(i),
        ) >= 0 by {
            assert(before.take(i) =~= actions.take(i));
        }
        lemma_recursion_is_depth(tid, before);
        assert(depth_after(actions) >= 0);
    }
}

/// What a thread does with the mutex, when it is its turn.
pub enum Turn {
    /// The thread locks exclusively.
    Lock { tid: usize },
    /// The thread gives up one exclusive hold.
    Unlock { tid: usize },
    /// A thread that is not the owner joins the group.
    Join { tid: usize },
    /// A thread that is not the owner leaves the group.
    Part { tid: usize },
}

/// The turn can be taken, and leads from one state to the next, as [`SMutex::lock`],
/// [`SMutex::raw_unlock`], [`SMutex::lock_group`] and [`SMutex::raw_unlock_group`] say.
pub open spec fn follows(before: SMutexView, turn: Turn, after: SMutexView) -> bool {
    match turn {
        Turn::Lock { tid } => {
            &&& tid != 0
            &&& before.owner == tid || !before.locked && before.members == 0
            &&& before.recursion < usize::MAX
            &&& after == if before.owner == tid {
                SMutexView { recursion: bumped(before.recursion), ..before }
            } else {
                SMutexView { locked: true, members: 0, owner: tid, recursion: 1 }
            }
        },
        Turn::Unlock { tid } => {
            &&& tid != 0
            &&& before.owner == tid
            &&& after == if before.recursion <= 1 {
                SMutexView {
                    locked: false,
                    owner: 0,
                    recursion: lowered(before.recursion),
                    ..before
                }
            } else {
                SMutexView { recursion: (before.recursion - 1) as usize, ..before }
            }
        },
        Turn::Join { tid } => {
            &&& tid != 0
            &&& before.owner != tid
            &&& !before.locked
            &&& before.members < member_limit()
            &&& after == SMutexView { members: before.members + 1, ..before }
        },
        Turn::Part { tid } => {
            &&& before.owner != tid
            &&& after == SMutexView { members: one_less(before.members), ..before }
        },
    }
}

/// The states are those of a new mutex with which threads take the turns one after the other.
pub open spec fn is_run(states: Seq<SMutexView>, turns: Seq<Turn>) -> bool {
    &&& states.len() == turns.len() + 1
    &&& states[0] == SMutexView { locked: false, members: 0, owner: 0, recursion: 0 }
    &&& forall|i: int|
        0 <= i < turns.len() ==> #[trigger] follows(states[i], turns[i], states[i + 1])
}

/// How often a thread has locked exclusively and not unlocked.
pub open spec fn holds(turns: Seq<Turn>, tid: usize) -> int
    decreases turns.len(),
{
    if turns.len() == 0 {
        0
    } else {
        holds(turns.drop_last(), tid) + match turns.last() {
            Turn::Lock { tid: t } => if t == tid {
                1int
            } else {
                0
            },
            Turn::Unlock { tid: t } => if t == tid {
                -1int
            } else {
                0
            },
            _ => 0int,
        }
    }
}

/// How many threads have joined the group and not left it.
pub open spec fn members(turns: Seq<Turn>) -> int
    decreases turns.len(),
{
    if turns.len() == 0 {
        0
    } else {
        members(turns.drop_last()) + match turns.last() {
            Turn::Join { .. } => 1int,
            Turn::Part { .. } => -1int,
            _ => 0int,
        }
    }
}

/// Mutual exclusion: whatever turns the threads take, the exclusive holds are all those of one
/// thread, the owner, and the mutex counts them. Of the single accesses that a turn is made of,
/// [`crate::base::exclusion`] says the same.
pub proof fn lemma_one_owner(states: Seq<SMutexView>, turns: Seq<Turn>, tid: usize)
    requires
        is_run(states, turns),
        tid != 0,
    ensures
        holds(turns, tid) == if states.last().owner == tid {
            states.last().recursion as int
        } else {
            0
        },
        states.last().locked <==> states.last().owner != 0,
        states.last().owner != 0 ==> states.last().recursion >= 1,
        states.last().owner == 0 ==> states.last().recursion == 0,
    decreases turns.len(),
{
    if turns.len() > 0 {
        let n = turns.len() - 1;
        let earlier = states.drop_last();
        let past = turns.drop_last();
        assert forall|i: int| 0 <= i < past.len() implies #[trigger] follows(
            earlier[i],
            past[i],
            earlier[i + 1],
        ) by {
            assert(follows(states[i], turns[i], states[i + 1]));
        }
        lemma_one_owner(earlier, past, tid);
        assert(follows(states[n], turns[n], states[n + 1]));
    }
}

/// Exclusion between the two modes, for a group of any size: as long as no more threads leave
/// the group than have joined it, the mutex counts its members, and while there is one the
/// exclusive mode is not in use. So no thread that is not the owner locks exclusively before
/// the last member has left.
pub proof fn lemma_group_kept_out(states: Seq<SMutexView>, turns: Seq<Turn>)
    requires
        is_run(states, turns),
        forall|k: int| 0 <= k <= turns.len() ==> members(#[trigger] turns.take(k)) >= 0,
    ensures
        states.last().members == members(turns),
        members(turns) > 0 ==> !states.last().locked && states.last().owner == 0,
        members(turns) > 0 ==> forall|tid: usize, after: SMutexView|
            tid != 0 ==> !#[trigger] follows(states.last(), Turn::Lock { tid }, after),
    decreases turns.len(),
{
    assert(turns.take(turns.len() as int) =~= turns);
    if turns.len() > 0 {
        let n = turns.len() - 1;
        let earlier = states.drop_last();
        let past = turns.drop_last();
        assert forall|i: int| 0 <= i < past.len() implies #[trigger] follows(
            earlier[i],
            past[i],
            earlier[i + 1],
        ) by {
            assert(follows(states[i], turns[i], states[i + 1]));
        }
        assert forall|k: int| 0 <= k <= past.len() implies members(
            #[trigger] past.take(k),
        ) >= 0 by {
            assert(past.take(k) =~= turns.take(k));
        }
        lemma_group_kept_out(earlier, past);
        lemma_one_owner(earlier, past, 1);
        assert(follows(states[n], turns[n], states[n + 1]));
    }
}

/// A state is its members twice over, and one more with the exclusive bit set; one member less
/// is one less, down to none.
pub proof fn lemma_state_words(state: usize, members: nat)
    ensures
        state == 2 * members_of(state) + if locked_bit(state) {
            1int
        } else {
            0
        },
        member_limit() == usize::MAX as int / 2,
        members > 0 ==> one_less(members) + 1 == members,
        one_less(0) == 0,
        forall|m: SMutexView|
            #[trigger] is_state(m, state) <==> state == 2 * m.members + if m.locked {
                1int
            } else {
                0
            },
{
}

/// What the accesses of an attempt do. The owner and its holds change where they are noted or
/// counted, and nowhere else; the two modes change by a replacement, and only where it finds the
/// state that it expects; and what is read is what is there.
pub proof fn lemma_accesses(op: SLockOp, before: SMutexView, reply: SReply, after: SMutexView)
    requires
        performed(op, before, reply, after),
    ensures
        op !is Own && op !is Reenter ==> {
            &&& after.owner == before.owner
            &&& after.recursion == before.recursion
        },
        op !is Claim || reply !is Took ==> {
            &&& after.locked == before.locked
            &&& after.members == before.members
        },
        op matches SLockOp::Own { owner } ==> after.owner == owner && after.recursion == 1,
        op is Reenter ==> {
            &&& after.owner == before.owner
            &&& after.recursion as int == (before.recursion + 1) % (usize::MAX + 1)
        },
        op is LoadOwner ==> (reply matches SReply::Word { value } && value == before.owner),
        op is Load ==> (reply matches SReply::Word { value } && value == 2 * before.members
            + if before.locked {
            1int
        } else {
            0
        }),
        op matches SLockOp::Claim { current, new } ==> {
            &&& reply is Took || reply is Lost
            &&& reply is Took <==> current == 2 * before.members + if before.locked {
                1int
            } else {
                0
            }
            &&& reply is Took ==> new == 2 * after.members + if after.locked {
                1int
            } else {
                0
            }
            &&& reply matches SReply::Lost { value } ==> value == 2 * before.members
                + if before.locked {
                1int
            } else {
                0
            }
        },
        op is Own || op is Reenter || op is Wait || op is Rest || op is Acquired ==> reply
            is Nothing,
{
    lemma_wrapping_count(before.recursion, 0, 0);
}

impl SLock {
    /// An attempt at the exclusive mode, access by access. It counts one more hold exactly where
    /// it finds itself the owner; it goes for a state without members and exclusive bit, and for
    /// no other; what it then notes is itself; it sleeps only after it has seen the exclusive
    /// bit; and it is done exactly where it has counted its hold or noted itself. Each access
    /// is one whose reply it waits for.
    pub proof fn lemma_attempt(self, before: Self, reply: SReply, op: SLockOp)
        requires
            before.expects(reply),
            self.steps(before, reply, op),
        ensures
            before.phase != SPhase::Held,
            self.tid == before.tid,
            op is LoadOwner <==> before.phase == SPhase::Start,
            op is Reenter <==> {
                &&& before.phase == SPhase::OwnerRead
                &&& reply matches SReply::Word { value } && value == before.tid
            },
            op is Claim <==> {
                ||| before.phase == SPhase::Resting
                ||| before.phase == SPhase::OwnerRead && (reply matches SReply::Word { value }
                    && value != before.tid)
                ||| before.phase == SPhase::Checking && (reply matches SReply::Word { value }
                    && value as int % 2 == 0)
            },
            op matches SLockOp::Claim { current, new } ==> current == 0 && new == 1,
            op is Own <==> before.phase == SPhase::Claiming && reply is Took,
            op matches SLockOp::Own { owner } ==> owner == before.tid,
            op is Rest <==> {
                &&& before.phase == SPhase::Claiming
                &&& reply is Lost
                &&& before.backoff.step() < before.backoff.spin_limit()
            },
            op matches SLockOp::Rest { pause } ==> {
                &&& before.backoff.snoozes(pause)
                &&& self.backoff.step() == before.backoff.step() + 1
                &&& self.backoff.spin_limit() == before.backoff.spin_limit()
                &&& self.backoff.yield_limit() == before.backoff.yield_limit()
            },
            op !is Rest ==> self.backoff == before.backoff,
            op is Load <==> {
                ||| before.phase == SPhase::Waiting
                ||| {
                    &&& before.phase == SPhase::Claiming
                    &&& reply is Lost
                    &&& before.backoff.step() >= before.backoff.spin_limit()
                }
            },
            op is Wait <==> {
                &&& before.phase == SPhase::Checking
                &&& reply matches SReply::Word { value } && value as int % 2 == 1
            },
            op matches SLockOp::Wait { expected } ==> expected == 1,
            op is Acquired <==> before.phase == SPhase::Reentering || before.phase
                == SPhase::Owning,
            op is Acquired <==> self.phase == SPhase::Held,
            op is LoadOwner <==> self.phase == SPhase::OwnerRead,
            op is Reenter <==> self.phase == SPhase::Reentering,
            op is Claim <==> self.phase == SPhase::Claiming,
            op is Own <==> self.phase == SPhase::Owning,
            op is Load <==> self.phase == SPhase::Checking,
            op is Wait <==> self.phase == SPhase::Waiting,
            op is Rest <==> self.phase == SPhase::Resting,
            forall|m: SMutexView, next: SReply, later: SMutexView|
                #[trigger] performed(op, m, next, later) && op !is Acquired ==> self.expects(next),
    {
    }
}

impl SLockGroup {
    /// An attempt at the group mode, access by access. It counts one more hold exactly where it
    /// finds itself the owner; it goes for a state without the exclusive bit, with one member
    /// more, and backs off where that bit is set or one more cannot be counted; it sleeps only
    /// after it has seen the bit; and it is done exactly where it has counted its hold or joined.
    /// Each access is one whose reply it waits for.
    pub proof fn lemma_attempt(self, before: Self, reply: SReply, op: SLockOp)
        requires
            before.expects(reply),
            self.steps(before, reply, op),
        ensures
            before.phase != SPhase::Held,
            self.tid == before.tid,
            op is LoadOwner <==> before.phase == SPhase::Start,
            op is Reenter <==> {
                &&& before.phase == SPhase::OwnerRead
                &&& reply matches SReply::Word { value } && value == before.tid
            },
            op is Claim || op is Rest <==> {
                ||| before.phase == SPhase::Loading
                ||| before.phase == SPhase::Claiming && reply is Lost
            },
            op matches SLockOp::Claim { current, new } ==> {
                &&& current as int % 2 == 0
                &&& new == current + 2
                &&& reply == (SReply::Word { value: current }) || reply == (SReply::Lost {
                    value: current,
                })
            },
            op matches SLockOp::Rest { pause } ==> {
                &&& before.backoff.snoozes(pause)
                &&& self.backoff.spin_limit() == before.backoff.spin_limit()
                &&& self.backoff.yield_limit() == before.backoff.yield_limit()
                &&& before.backoff.step() <= before.backoff.yield_limit() ==> self.backoff.step()
                    == before.backoff.step() + 1
                &&& before.backoff.step() > before.backoff.yield_limit() ==> self.backoff.step()
                    == before.backoff.step()
                &&& self.state as int % 2 == 1 || self.state >= usize::MAX - 1
                &&& reply == (SReply::Word { value: self.state }) || reply == (SReply::Lost {
                    value: self.state,
                })
            },
            op !is Rest ==> self.backoff == before.backoff,
            op is Load <==> {
                ||| before.phase == SPhase::Resting
                ||| before.phase == SPhase::Waiting
                ||| before.phase == SPhase::OwnerRead && (reply matches SReply::Word { value }
                    && value != before.tid)
                ||| before.phase == SPhase::Checking && (reply matches SReply::Word { value }
                    && value as int % 2 == 0)
            },
            op is Wait <==> {
                &&& before.phase == SPhase::Checking
                &&& reply matches SReply::Word { value } && value as int % 2 == 1
            },
            op matches SLockOp::Wait { expected } ==> expected == before.state && self.state
                == before.state,
            op is Acquired <==> {
                ||| before.phase == SPhase::Reentering
                ||| before.phase == SPhase::Claiming && reply is Took
            },
            op is Acquired <==> self.phase == SPhase::Held,
            op is LoadOwner <==> self.phase == SPhase::OwnerRead,
            op is Reenter <==> self.phase == SPhase::Reentering,
            op is Claim <==> self.phase == SPhase::Claiming,
            op is Load <==> self.phase == SPhase::Loading || self.phase == SPhase::Checking,
            op is Wait <==> self.phase == SPhase::Waiting,
            op is Rest <==> self.phase == SPhase::Resting,
            self.phase == SPhase::Checking ==> self.state == before.state,
            op !is Own,
            forall|m: SMutexView, next: SReply, later: SMutexView|
                #[trigger] performed(op, m, next, later) && op !is Acquired ==> self.expects(next),
    {
    }
}

/// Actions and turns count one after the other: those of two stages are those of the first and
/// those of the second, begun where the first left off.
pub proof fn lemma_actions_in_turn(
    m: SMutexView,
    tid: usize,
    first: Seq<bool>,
    second: Seq<bool>,
)
    ensures
        depth_after(seq![true]) == 1,
        depth_after(seq![false]) == -1,
        depth_after(first + second) == depth_after(first) + depth_after(second),
        after_actions(m, tid, Seq::<bool>::empty()) == m,
        after_actions(m, tid, seq![true]) == after_action(m, tid, true),
        after_actions(m, tid, seq![false]) == after_action(m, tid, false),
        after_actions(m, tid, first + second) == after_actions(
            after_actions(m, tid, first),
            tid,
            second,
        ),
        forall|after: SMutexView| #[trigger]
            follows(m, Turn::Lock { tid }, after) ==> after == after_action(m, tid, true),
        forall|after: SMutexView| #[trigger]
            follows(m, Turn::Unlock { tid }, after) ==> after == after_action(m, tid, false),
    decreases second.len(),
{
    let none = Seq::<bool>::empty();
    assert(seq![true].drop_last() =~= none);
    assert(seq![false].drop_last() =~= none);
    assert(depth_after(none) == 0);
    assert(after_actions(m, tid, none) == m);
    if second.len() == 0 {
        assert(first + second =~= first);
    } else {
        lemma_actions_in_turn(m, tid, first, second.drop_last());
        assert((first + second).drop_last() =~= first + second.drop_last());
    }
}

/// The holds of a thread are counted turn by turn, and so are the members: a thread's own locks
/// and unlocks count for it and for nobody else, and joins and parts count whoever takes them.
pub proof fn lemma_turns_in_turn(first: Seq<Turn>, second: Seq<Turn>, turn: Turn, tid: usize)
    ensures
        holds(first + second, tid) == holds(first, tid) + holds(second, tid),
        members(first + second) == members(first) + members(second),
        holds(seq![turn], tid) == (if turn == (Turn::Lock { tid }) {
            1int
        } else {
            0
        }) - (if turn == (Turn::Unlock { tid }) {
            1int
        } else {
            0
        }),
        members(seq![turn]) == (if turn is Join {
            1int
        } else {
            0
        }) - (if turn is Part {
            1int
        } else {
            0
        }),
    decreases second.len(),
{
    let none = Seq::<Turn>::empty();
    assert(seq![turn].drop_last() =~= none);
    assert(holds(none, tid) == 0);
    assert(members(none) == 0);
    if second.len() == 0 {
        assert(first + second =~= first);
    } else {
        lemma_turns_in_turn(first, second.drop_last(), turn, tid);
        assert((first + second).drop_last() =~= first + second.drop_last());
    }
}

/// What a turn does to the mutex: a lock adds a hold of the thread that takes it and of no other,
/// an unlock takes one away and frees the mutex with the last, and the group grows and shrinks by
/// one member. A thread locks only a mutex that is its own or that nobody holds in either mode,
/// and joins only while nobody holds it exclusively.
pub proof fn lemma_turn(before: SMutexView, turn: Turn, after: SMutexView)
    requires
        follows(before, turn, after),
    ensures
        turn matches Turn::Lock { tid } ==> {
            &&& after.owner == tid
            &&& before.owner == tid ==> {
                &&& after.recursion == before.recursion + 1
                &&& after.locked == before.locked
                &&& after.members == before.members
            }
            &&& before.owner != tid ==> {
                &&& !before.locked
                &&& before.members == 0
                &&& after.locked
                &&& after.recursion == 1
                &&& after.members == 0
            }
        },
        turn matches Turn::Unlock { tid } ==> {
            &&& before.owner == tid
            &&& after.members == before.members
            &&& before.recursion > 0 ==> after.recursion == before.recursion - 1
            &&& before.recursion <= 1 ==> !after.locked && after.owner == 0
            &&& before.recursion > 1 ==> after.locked == before.locked && after.owner == tid
        },
        turn matches Turn::Join { tid } ==> {
            &&& !before.locked
            &&& before.owner != tid
            &&& after.members == before.members + 1
            &&& after.locked == before.locked
            &&& after.owner == before.owner
            &&& after.recursion == before.recursion
        },
        turn matches Turn::Part { tid } ==> {
            &&& before.owner != tid
            &&& before.members > 0 ==> after.members + 1 == before.members
            &&& before.members == 0 ==> after.members == 0
            &&& after.locked == before.locked
            &&& after.owner == before.owner
            &&& after.recursion == before.recursion
        },
{
}

impl SLock {
    /// A word that is read gives a word, a replacement takes place or does not, and nothing else
    /// has a reply; an attempt that holds the mutex waits for none.
    pub proof fn lemma_expected_replies(self, reply: SReply)
        ensures
            reply is Word ==> (self.expects(reply) <==> self.phase == SPhase::OwnerRead
                || self.phase == SPhase::Checking),
            reply is Took || reply is Lost ==> (self.expects(reply) <==> self.phase
                == SPhase::Claiming),
            reply is Nothing ==> (self.expects(reply) <==> {
                ||| self.phase == SPhase::Start
                ||| self.phase == SPhase::Reentering
                ||| self.phase == SPhase::Owning
                ||| self.phase == SPhase::Resting
                ||| self.phase == SPhase::Waiting
            }),
            self.expects(reply) ==> self.phase != SPhase::Held,
    {
    }
}

impl SLockGroup {
    /// A word that is read gives a word, a replacement takes place or does not, and nothing else
    /// has a reply; an attempt that holds the mutex waits for none.
    pub proof fn lemma_expected_replies(self, reply: SReply)
        ensures
            reply is Word ==> (self.expects(reply) <==> {
                ||| self.phase == SPhase::OwnerRead
                ||| self.phase == SPhase::Loading
                ||| self.phase == SPhase::Checking
            }),
            reply is Took || reply is Lost ==> (self.expects(reply) <==> self.phase
                == SPhase::Claiming),
            reply is Nothing ==> (self.expects(reply) <==> {
                ||| self.phase == SPhase::Start
                ||| self.phase == SPhase::Reentering
                ||| self.phase == SPhase::Resting
                ||| self.phase == SPhase::Waiting
            }),
            self.expects(reply) ==> self.phase != SPhase::Held,
    {
    }
}

} // verus!
