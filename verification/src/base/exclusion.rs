//! Why a recursive mutex keeps its owner and its group apart, access by access.
//!
//! A thread takes the exclusive mode in two accesses, one that claims the state and one that
//! notes the owner, and gives up its last hold in three. Other threads come between any two of
//! them. [`Room`] keeps, beside what the mutex says, how far each thread has got; however the
//! accesses follow on each other, at most one thread is anywhere between its claim and the
//! access that frees the state, and none is in the group meanwhile.

use vstd::prelude::*;

verus! {

use crate::base::smutex::{
    locked_bit, member_limit, members_of, one_less, performed, SLock, SLockGroup, SLockOp,
    SMutexView, SPhase, SReply, LOCKED, UNLOCKED,
};
use crate::bits::{bumped, lowered};

/// How far a thread has got with the exclusive mode.
pub enum Stage {
    /// The thread has no part in it.
    Outside,
    /// The thread has claimed the state and is not noted as the owner yet.
    Claimed,
    /// The thread is the owner and holds the mutex so often.
    Owner { holds: nat },
    /// The thread has counted its last hold off and is still noted as the owner.
    Lowered,
    /// The thread is not noted as the owner any more and has not freed the state yet.
    Disowned,
}

/// A mutex, and the threads that use it.
pub struct Room {
    /// What the mutex says.
    pub m: SMutexView,
    /// How far each thread has got that has a part in the exclusive mode.
    pub stages: Map<usize, Stage>,
    /// How often threads have joined the group and not left it.
    pub joined: nat,
}

impl Room {
    /// How far a thread has got.
    pub open spec fn stage(self, tid: usize) -> Stage {
        if self.stages.dom().contains(tid) {
            self.stages[tid]
        } else {
            Stage::Outside
        }
    }

    /// How far the threads have got after one of them has got to a stage.
    pub open spec fn with_stage(self, tid: usize, stage: Stage) -> Map<usize, Stage> {
        self.stages.insert(tid, stage)
    }

    /// The thread is in the midst of locking or unlocking exclusively: it has more accesses to
    /// make before it can do anything else.
    pub open spec fn is_amid(self, tid: usize) -> bool {
        match self.stage(tid) {
            Stage::Outside | Stage::Owner { .. } => false,
            Stage::Claimed | Stage::Lowered | Stage::Disowned => true,
        }
    }
}

/// One access to the mutex that changes it.
pub enum RoomAccess {
    /// A thread that is not noted as the owner claims a free state.
    Claim { tid: usize },
    /// A thread that has claimed the state notes itself as the owner.
    Own { tid: usize },
    /// A thread that finds itself noted as the owner counts one hold more.
    Reenter { tid: usize },
    /// A thread that finds itself noted as the owner counts one hold less.
    Lower { tid: usize },
    /// A thread that has counted its last hold off notes no owner.
    Disown { tid: usize },
    /// A thread that has noted no owner frees the state.
    Free { tid: usize },
    /// A thread that is not noted as the owner joins the group.
    Join { tid: usize },
    /// A thread that is not noted as the owner leaves the group.
    Part { tid: usize },
}

impl RoomAccess {
    /// The thread that makes the access.
    pub open spec fn tid(self) -> usize {
        match self {
            RoomAccess::Claim { tid } | RoomAccess::Own { tid } | RoomAccess::Reenter { tid }
            | RoomAccess::Lower { tid } | RoomAccess::Disown { tid } | RoomAccess::Free { tid }
            | RoomAccess::Join { tid } | RoomAccess::Part { tid } => tid,
        }
    }
}

/// The access can be made, and leads from one state to the next. What a thread goes by is what
/// the words of the mutex show it, and which of its own accesses it has made.
pub open spec fn follows(before: Room, access: RoomAccess, after: Room) -> bool {
    let m = before.m;
    &&& access.tid() != 0
    &&& match access {
        RoomAccess::Claim { tid } => {
            &&& !before.is_amid(tid)
            &&& m.owner != tid
            &&& !m.locked && m.members == 0
            &&& after == Room {
                m: SMutexView { locked: true, ..m },
                stages: before.with_stage(tid, Stage::Claimed),
                ..before
            }
        },
        RoomAccess::Own { tid } => {
            &&& before.stage(tid) == Stage::Claimed
            &&& after == Room {
                m: SMutexView { owner: tid, recursion: 1, ..m },
                stages: before.with_stage(tid, Stage::Owner { holds: 1 }),
                ..before
            }
        },
        RoomAccess::Reenter { tid } => {
            &&& !before.is_amid(tid)
            &&& m.owner == tid
            &&& m.recursion < usize::MAX
            &&& after == Room {
                m: SMutexView { recursion: bumped(m.recursion), ..m },
                stages: before.with_stage(
                    tid,
                    match before.stage(tid) {
                        Stage::Owner { holds } => Stage::Owner { holds: holds + 1 },
                        stage => stage,
                    },
                ),
                ..before
            }
        },
        RoomAccess::Lower { tid } => {
            &&& !before.is_amid(tid)
            &&& m.owner == tid
            &&& after == Room {
                m: SMutexView { recursion: lowered(m.recursion), ..m },
                stages: before.with_stage(
                    tid,
                    match before.stage(tid) {
                        Stage::Owner { holds } => if m.recursion > 1 {
                            Stage::Owner { holds: (holds - 1) as nat }
                        } else {
                            Stage::Lowered
                        },
                        stage => stage,
                    },
                ),
                ..before
            }
        },
        RoomAccess::Disown { tid } => {
            &&& before.stage(tid) == Stage::Lowered
            &&& after == Room {
                m: SMutexView { owner: 0, ..m },
                stages: before.with_stage(tid, Stage::Disowned),
                ..before
            }
        },
        RoomAccess::Free { tid } => {
            &&& before.stage(tid) == Stage::Disowned
            &&& after == Room {
                m: SMutexView { locked: false, ..m },
                stages: before.with_stage(tid, Stage::Outside),
                ..before
            }
        },
        RoomAccess::Join { tid } => {
            &&& !before.is_amid(tid)
            &&& m.owner != tid
            &&& !m.locked && m.members < member_limit()
            &&& after == Room {
                m: SMutexView { members: m.members + 1, ..m },
                joined: before.joined + 1,
                ..before
            }
        },
        RoomAccess::Part { tid } => {
            &&& !before.is_amid(tid)
            &&& m.owner != tid
            &&& before.joined > 0
            &&& after == Room {
                m: SMutexView { members: one_less(m.members), ..m },
                joined: (before.joined - 1) as nat,
                ..before
            }
        },
    }
}

/// The states are those of a new mutex to which the accesses are made one after the other.
pub open spec fn is_run(states: Seq<Room>, accesses: Seq<RoomAccess>) -> bool {
    &&& states.len() == accesses.len() + 1
    &&& states[0].m == SMutexView { locked: false, members: 0, owner: 0, recursion: 0 }
    &&& states[0].stages == Map::<usize, Stage>::empty()
    &&& states[0].joined == 0
    &&& forall|i: int|
        0 <= i < accesses.len() ==> #[trigger] follows(states[i], accesses[i], states[i + 1])
}

impl Room {
    /// The words of the mutex are those that a thread at its stage leaves them in.
    pub open spec fn shows(self, tid: usize) -> bool {
        match self.stage(tid) {
            Stage::Outside => self.m.owner != tid,
            Stage::Claimed | Stage::Disowned => {
                &&& self.m.locked
                &&& self.m.owner == 0
                &&& self.m.recursion == 0
            },
            Stage::Owner { holds } => {
                &&& self.m.locked
                &&& self.m.owner == tid
                &&& self.m.recursion == holds
                &&& holds >= 1
            },
            Stage::Lowered => {
                &&& self.m.locked
                &&& self.m.owner == tid
                &&& self.m.recursion == 0
            },
        }
    }

    /// No two threads have a part in the exclusive mode, and the words show the one that has.
    /// The group is counted, and is empty while the state is claimed.
    pub open spec fn agrees(self) -> bool {
        &&& self.stage(0) == Stage::Outside
        &&& forall|tid: usize| tid != 0 ==> #[trigger] self.shows(tid)
        &&& forall|a: usize, b: usize|
            #![trigger self.stage(a), self.stage(b)]
            self.stage(a) != Stage::Outside && self.stage(b) != Stage::Outside ==> a == b
        &&& self.m.locked <==> exists|tid: usize| #[trigger] self.stage(tid) != Stage::Outside
        &&& !self.m.locked ==> self.m.owner == 0 && self.m.recursion == 0
        &&& self.m.members == self.joined
        &&& self.m.locked ==> self.joined == 0
    }
}

/// An access keeps the words and the threads in agreement.
pub proof fn lemma_access_agrees(before: Room, access: RoomAccess, after: Room)
    requires
        before.agrees(),
        follows(before, access, after),
    ensures
        after.agrees(),
{
    let tid = access.tid();
    assert(before.shows(tid));
    assert forall|t: usize| t != tid implies #[trigger] after.stage(t) == before.stage(t) by {}
    assert forall|t: usize| t != 0 implies #[trigger] after.shows(t) by {
        assert(before.shows(t));
        assert(after.stage(t) == before.stage(t) || t == tid);
        if before.stage(t) != Stage::Outside && before.stage(tid) != Stage::Outside {
            assert(t == tid);
        }
    }
    if after.m.locked {
        if before.m.locked {
            let t = choose|t: usize| #[trigger] before.stage(t) != Stage::Outside;
            assert(after.stage(t) != Stage::Outside);
        } else {
            assert(after.stage(tid) != Stage::Outside);
        }
    }
}

/// Exclusion over single accesses: in every state that threads can reach, whatever the order of
/// their accesses, at most one thread is between its claim of the exclusive mode and the access
/// that frees it. Nobody is in the group meanwhile. The thread that is noted as the owner is
/// that thread, and the count of holds is its own.
pub proof fn lemma_exclusion(states: Seq<Room>, accesses: Seq<RoomAccess>, n: int)
    requires
        is_run(states, accesses),
        0 <= n < states.len(),
    ensures
        states[n].agrees(),
        forall|a: usize, b: usize|
            #![trigger states[n].stage(a), states[n].stage(b)]
            states[n].stage(a) != Stage::Outside && states[n].stage(b) != Stage::Outside ==> a
                == b,
        forall|tid: usize| #[trigger]
            states[n].stage(tid) != Stage::Outside ==> states[n].m.locked && states[n].joined
                == 0,
        forall|tid: usize|
            (#[trigger] states[n].stage(tid) matches Stage::Owner { holds } ==> {
                &&& states[n].m.owner == tid
                &&& states[n].m.recursion == holds
            }),
        states[n].m.members == states[n].joined,
    decreases n,
{
    if n > 0 {
        lemma_exclusion(states, accesses, n - 1);
        assert(follows(states[n - 1], accesses[n - 1], states[n - 1 + 1]));
        lemma_access_agrees(states[n - 1], accesses[n - 1], states[n]);
    }
    let room = states[n];
    assert forall|tid: usize| #[trigger]
        room.stage(tid) != Stage::Outside implies room.m.locked && room.joined == 0 by {
        assert(tid != 0);
        assert(room.shows(tid));
    }
    assert forall|tid: usize|
        (#[trigger] room.stage(tid) matches Stage::Owner { holds } ==> {
            &&& room.m.owner == tid
            &&& room.m.recursion == holds
        }) by {
        if tid != 0 {
            assert(room.shows(tid));
        }
    }
}

impl Room {
    /// The room after the thread made an access of an attempt at the exclusive mode that left
    /// the mutex as `m`.
    pub open spec fn after_lock(
        self,
        tid: usize,
        op: SLockOp,
        reply: SReply,
        m: SMutexView,
    ) -> Room {
        match (op, reply) {
            (SLockOp::Claim { .. }, SReply::Took) => Room {
                m,
                stages: self.with_stage(tid, Stage::Claimed),
                ..self
            },
            (SLockOp::Own { .. }, _) => Room {
                m,
                stages: self.with_stage(tid, Stage::Owner { holds: 1 }),
                ..self
            },
            (SLockOp::Reenter, _) => self.reentered(tid, m),
            _ => Room { m, ..self },
        }
    }

    /// The room after the thread made an access of an attempt at the group mode that left the
    /// mutex as `m`.
    pub open spec fn after_lock_group(
        self,
        tid: usize,
        op: SLockOp,
        reply: SReply,
        m: SMutexView,
    ) -> Room {
        match (op, reply) {
            (SLockOp::Claim { .. }, SReply::Took) => Room { m, joined: self.joined + 1, ..self },
            (SLockOp::Reenter, _) => self.reentered(tid, m),
            _ => Room { m, ..self },
        }
    }

    /// The room after the thread counted one hold more and left the mutex as `m`.
    pub open spec fn reentered(self, tid: usize, m: SMutexView) -> Room {
        Room {
            m,
            stages: self.with_stage(
                tid,
                match self.stage(tid) {
                    Stage::Owner { holds } => Stage::Owner { holds: holds + 1 },
                    stage => stage,
                },
            ),
            ..self
        }
    }
}

impl SLock {
    /// The access that an attempt asks for fits what the thread has done and what the owner's
    /// word shows it.
    pub open spec fn fits(self, op: SLockOp, room: Room) -> bool {
        let starts = !room.is_amid(self.tid);
        let is_stranger = room.m.owner != self.tid;
        &&& self.tid != 0
        &&& match self.phase {
            SPhase::Start | SPhase::Loading => false,
            SPhase::OwnerRead => op == SLockOp::LoadOwner && starts,
            SPhase::Reentering => op == SLockOp::Reenter && starts && !is_stranger,
            SPhase::Claiming => {
                &&& op == SLockOp::Claim { current: UNLOCKED, new: LOCKED }
                &&& starts && is_stranger
            },
            SPhase::Owning => {
                &&& op == SLockOp::Own { owner: self.tid }
                &&& room.stage(self.tid) == Stage::Claimed
            },
            SPhase::Resting => op is Rest && starts && is_stranger,
            SPhase::Checking => op == SLockOp::Load && starts && is_stranger,
            SPhase::Waiting => op is Wait && starts && is_stranger,
            SPhase::Held => op == SLockOp::Acquired && room.stage(self.tid) is Owner,
        }
    }
}

impl SLockGroup {
    /// The access that an attempt asks for fits what the thread has done and what the words
    /// showed it.
    pub open spec fn fits(self, op: SLockOp, room: Room) -> bool {
        let starts = !room.is_amid(self.tid);
        let is_stranger = room.m.owner != self.tid;
        &&& self.tid != 0
        &&& starts
        &&& match self.phase {
            SPhase::Start | SPhase::Owning => false,
            SPhase::OwnerRead => op == SLockOp::LoadOwner,
            SPhase::Reentering => op == SLockOp::Reenter && !is_stranger,
            SPhase::Loading | SPhase::Checking => op == SLockOp::Load && is_stranger,
            SPhase::Claiming => {
                &&& is_stranger
                &&& op matches SLockOp::Claim { current, new } && {
                    &&& !locked_bit(current) && members_of(current) < member_limit()
                    &&& !locked_bit(new) && members_of(new) == members_of(current) + 1
                }
            },
            SPhase::Resting => op is Rest && is_stranger,
            SPhase::Waiting => op is Wait && is_stranger,
            SPhase::Held => op == SLockOp::Acquired,
        }
    }
}

/// The first access that an attempt asks for fits, of a thread that is not in the midst of
/// another call.
pub proof fn lemma_attempts_start(
    lock: SLock,
    group: SLockGroup,
    room: Room,
    locking: SLock,
    grouping: SLockGroup,
    op: SLockOp,
)
    requires
        lock.phase == SPhase::Start,
        group.phase == SPhase::Start,
        lock.tid != 0 && !room.is_amid(lock.tid),
        group.tid != 0 && !room.is_amid(group.tid),
    ensures
        locking.steps(lock, SReply::Nothing, op) ==> locking.fits(op, room),
        grouping.steps(group, SReply::Nothing, op) ==> grouping.fits(op, room),
{
}

/// Whatever an attempt at the exclusive mode does to a mutex is an access of a run, and what it
/// asks for next fits again. It ends with the thread as the owner.
pub proof fn lemma_lock_makes_accesses(
    before: SLock,
    op: SLockOp,
    room: Room,
    reply: SReply,
    m: SMutexView,
    after: SLock,
    next: SLockOp,
)
    requires
        room.agrees(),
        room.m.recursion < usize::MAX,
        before.fits(op, room),
        before.expects(reply),
        performed(op, room.m, reply, m),
        after.steps(before, reply, next),
    ensures
        ({
            let tid = before.tid;
            let found = room.after_lock(tid, op, reply, m);
            &&& found.agrees()
            &&& after.fits(next, found)
            &&& next == SLockOp::Acquired ==> found.stage(tid) is Owner && found.m.owner == tid
            &&& op is Claim && reply == SReply::Took ==> follows(
                room,
                RoomAccess::Claim { tid },
                found,
            )
            &&& op is Own ==> follows(room, RoomAccess::Own { tid }, found)
            &&& op == SLockOp::Reenter ==> follows(room, RoomAccess::Reenter { tid }, found)
            &&& !(op is Claim && reply == SReply::Took) && !(op is Own) && op
                != SLockOp::Reenter ==> found == room
        }),
{
    let tid = before.tid;
    let found = room.after_lock(tid, op, reply, m);
    assert(room.shows(tid));
    if op is Claim && reply == SReply::Took {
        lemma_access_agrees(room, RoomAccess::Claim { tid }, found);
    } else if op is Own {
        lemma_access_agrees(room, RoomAccess::Own { tid }, found);
    } else if op == SLockOp::Reenter {
        lemma_access_agrees(room, RoomAccess::Reenter { tid }, found);
    }
    assert(found.shows(tid));
}

/// Whatever an attempt at the group mode does to a mutex is an access of a run, and what it asks
/// for next fits again. It ends with one member more, or with one hold more of the owner.
pub proof fn lemma_lock_group_makes_accesses(
    before: SLockGroup,
    op: SLockOp,
    room: Room,
    reply: SReply,
    m: SMutexView,
    after: SLockGroup,
    next: SLockOp,
)
    requires
        room.agrees(),
        room.m.recursion < usize::MAX,
        before.fits(op, room),
        before.expects(reply),
        performed(op, room.m, reply, m),
        after.steps(before, reply, next),
    ensures
        ({
            let tid = before.tid;
            let found = room.after_lock_group(tid, op, reply, m);
            &&& found.agrees()
            &&& after.fits(next, found)
            &&& next == SLockOp::Acquired ==> if op == SLockOp::Reenter {
                found.stage(tid) is Owner && found.m.recursion == room.m.recursion + 1
            } else {
                found.joined == room.joined + 1
            }
            &&& op is Claim && reply == SReply::Took ==> follows(
                room,
                RoomAccess::Join { tid },
                found,
            )
            &&& op == SLockOp::Reenter ==> follows(room, RoomAccess::Reenter { tid }, found)
            &&& !(op is Claim && reply == SReply::Took) && op != SLockOp::Reenter ==> found
                == room
        }),
{
    let tid = before.tid;
    let found = room.after_lock_group(tid, op, reply, m);
    assert(room.shows(tid));
    if op is Claim && reply == SReply::Took {
        lemma_access_agrees(room, RoomAccess::Join { tid }, found);
    } else if op == SLockOp::Reenter {
        lemma_access_agrees(room, RoomAccess::Reenter { tid }, found);
    }
    assert(found.shows(tid));
}

/// What other threads do meanwhile leaves what an attempt asks for fitting: only a thread itself
/// notes it as the owner, and only it takes that back.
pub proof fn lemma_others_keep_fits(
    lock: SLock,
    group: SLockGroup,
    op: SLockOp,
    room: Room,
    access: RoomAccess,
    after: Room,
)
    requires
        room.agrees(),
        follows(room, access, after),
    ensures
        access.tid() != lock.tid && lock.fits(op, room) ==> lock.fits(op, after),
        access.tid() != group.tid && group.fits(op, room) ==> group.fits(op, after),
        after.agrees(),
{
    lemma_access_agrees(room, access, after);
    assert(room.shows(access.tid()));
    if lock.tid != 0 {
        assert(room.shows(lock.tid));
        assert(after.shows(lock.tid));
        assert(access.tid() != lock.tid ==> after.stage(lock.tid) == room.stage(lock.tid));
    }
    if group.tid != 0 {
        assert(room.shows(group.tid));
        assert(after.shows(group.tid));
        assert(access.tid() != group.tid ==> after.stage(group.tid) == room.stage(group.tid));
    }
}

/// What [`crate::base::smutex::SMutex::raw_unlock`] does for the owner is one access where holds
/// are left and three where none is; what
/// [`crate::base::smutex::SMutex::raw_unlock_group`] does for any other thread is one.
pub proof fn lemma_unlock_makes_accesses(room: Room, tid: usize)
    requires
        room.agrees(),
        tid != 0,
        !room.is_amid(tid),
    ensures
        room.m.owner == tid && room.m.recursion > 1 ==> exists|after: Room|
            {
                &&& #[trigger] follows(room, RoomAccess::Lower { tid }, after)
                &&& after.m == SMutexView {
                    recursion: (room.m.recursion - 1) as usize,
                    ..room.m
                }
            },
        room.m.owner == tid && room.m.recursion <= 1 ==> exists|
            lower: Room,
            disown: Room,
            free: Room,
        |
            {
                &&& #[trigger] follows(room, RoomAccess::Lower { tid }, lower)
                &&& #[trigger] follows(lower, RoomAccess::Disown { tid }, disown)
                &&& #[trigger] follows(disown, RoomAccess::Free { tid }, free)
                &&& free.stage(tid) == Stage::Outside
                &&& free.m == SMutexView {
                    locked: false,
                    owner: 0,
                    recursion: lowered(room.m.recursion),
                    ..room.m
                }
            },
        room.m.owner != tid && room.joined > 0 ==> exists|after: Room|
            {
                &&& #[trigger] follows(room, RoomAccess::Part { tid }, after)
                &&& after.m == SMutexView { members: one_less(room.m.members), ..room.m }
            },
{
    assert(room.shows(tid));
    let m = room.m;
    if m.owner == tid && m.recursion > 1 {
        let holds = room.stage(tid)->holds;
        let after = Room {
            m: SMutexView { recursion: lowered(m.recursion), ..m },
            stages: room.with_stage(tid, Stage::Owner { holds: (holds - 1) as nat }),
            ..room
        };
        assert(follows(room, RoomAccess::Lower { tid }, after));
    } else if m.owner == tid {
        let lower = Room {
            m: SMutexView { recursion: lowered(m.recursion), ..m },
            stages: room.with_stage(tid, Stage::Lowered),
            ..room
        };
        let disown = Room {
            m: SMutexView { owner: 0, ..lower.m },
            stages: lower.with_stage(tid, Stage::Disowned),
            ..lower
        };
        let free = Room {
            m: SMutexView { locked: false, ..disown.m },
            stages: disown.with_stage(tid, Stage::Outside),
            ..disown
        };
        assert(follows(room, RoomAccess::Lower { tid }, lower));
        assert(follows(lower, RoomAccess::Disown { tid }, disown));
        assert(follows(disown, RoomAccess::Free { tid }, free));
    } else if room.joined > 0 {
        let after = Room {
            m: SMutexView { members: one_less(m.members), ..m },
            joined: (room.joined - 1) as nat,
            ..room
        };
        assert(follows(room, RoomAccess::Part { tid }, after));
    }
}

} // verus!
