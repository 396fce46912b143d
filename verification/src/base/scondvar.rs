//! A condition variable: a counter of notifications that waiting threads watch.

use crate::base::futex::{futex_wake, futex_wake_all, FutexCall};
use vstd::prelude::*;

verus! {

use crate::base::futex::{lemma_counted_on_is_no_sleep, lower_half};
use crate::bits::{bumped, bumped_times};

/// The shared record of a condition variable.
#[derive(Debug)]
pub struct SCondVar {
    epoch: usize,
}

impl SCondVar {
    /// The number of notifications so far, modulo the word size.
    pub closed spec fn view(&self) -> usize {
        self.epoch
    }

    /// A condition variable without notifications.
    pub fn new() -> (condvar: Self)
        ensures
            condvar@ == 0,
    {
        SCondVar { epoch: 0 }
    }

    /// The number of notifications so far, modulo the word size.
    pub fn epoch(&self) -> (epoch: usize)
        ensures
            epoch == self@,
    {
        self.epoch
    }

    /// Notifies and wakes one waiting thread.
    pub fn notify_one(&mut self) -> (call: FutexCall)
        ensures
            final(self)@ == bumped(old(self)@),
            call == (FutexCall::Wake { count: 1 }),
    {
        self.epoch = self.epoch.wrapping_add(1);
        futex_wake(Some(self.epoch))
    }

    /// Notifies and wakes all waiting threads.
    pub fn notify_all(&mut self) -> (call: FutexCall)
        ensures
            final(self)@ == bumped(old(self)@),
            call == (FutexCall::Wake { count: u32::MAX }),
    {
        self.epoch = self.epoch.wrapping_add(1);
        futex_wake_all(Some(self.epoch))
    }
}

/// The next thing that a waiting thread does.
#[derive(Clone, Copy, Debug, PartialEq, Eq, Structural)]
pub enum CondOp {
    /// Read the counter.
    LoadEpoch,
    /// Unlock the mutex, in group mode or not.
    Unlock { is_group: bool },
    /// Sleep while the counter is `epoch`.
    Wait { epoch: usize },
    /// Lock the mutex again, in group mode or not.
    Lock { is_group: bool },
    /// The wait is over; the mutex is locked again.
    Notified,
}

/// Where a wait stands.
#[derive(Clone, Copy, Debug, PartialEq, Eq, Structural)]
pub enum CondPhase {
    /// Nothing was done yet.
    Start,
    /// The counter is being read; the mutex is locked.
    EpochRead,
    /// The mutex is being unlocked.
    Unlocking,
    /// The thread sleeps; the mutex is unlocked.
    Sleeping,
    /// The mutex is being locked again.
    Locking,
    /// The counter is being read again; the mutex is locked.
    Comparing,
    /// The wait is over.
    Done,
}

/// One thread's wait on a condition variable, with its mutex locked.
#[derive(Clone, Copy, Debug, PartialEq, Eq, Structural)]
pub struct CondWait {
    /// Where the wait stands.
    pub phase: CondPhase,
    /// The mode in which the mutex is locked.
    pub is_group: bool,
    /// The counter as read before the mutex was unlocked.
    pub epoch: usize,
}

impl CondWait {
    /// Whether the thread has its mutex locked in this phase.
    pub open spec fn holds_mutex(self) -> bool {
        match self.phase {
            CondPhase::Unlocking | CondPhase::Sleeping | CondPhase::Locking => false,
            _ => true,
        }
    }

    /// A wait of a thread that locked its mutex in group mode or not.
    pub fn new(is_group: bool) -> (wait: Self)
        ensures
            wait == (CondWait { phase: CondPhase::Start, is_group, epoch: 0 }),
    {
        CondWait { phase: CondPhase::Start, is_group, epoch: 0 }
    }

    /// Says what to do next. `epoch` is the counter where it was just read and is not looked
    /// at otherwise. The thread reads the counter while it holds the mutex, sleeps on that
    /// value without the mutex, and starts over when it wakes and the counter is the same.
    pub fn step(&mut self, epoch: usize) -> (op: CondOp)
        requires
            old(self).phase != CondPhase::Done,
        ensures
            final(self).is_group == old(self).is_group,
            match old(self).phase {
                CondPhase::Start => {
                    &&& op == CondOp::LoadEpoch
                    &&& final(self).phase == CondPhase::EpochRead
                    &&& final(self).epoch == old(self).epoch
                },
                CondPhase::EpochRead => {
                    &&& op == (CondOp::Unlock { is_group: old(self).is_group })
                    &&& final(self).phase == CondPhase::Unlocking
                    &&& final(self).epoch == epoch
                },
                CondPhase::Unlocking => {
                    &&& op == (CondOp::Wait { epoch: old(self).epoch })
                    &&& final(self).phase == CondPhase::Sleeping
                    &&& final(self).epoch == old(self).epoch
                },
                CondPhase::Sleeping => {
                    &&& op == (CondOp::Lock { is_group: old(self).is_group })
                    &&& final(self).phase == CondPhase::Locking
                    &&& final(self).epoch == old(self).epoch
                },
                CondPhase::Locking => {
                    &&& op == CondOp::LoadEpoch
                    &&& final(self).phase == CondPhase::Comparing
                    &&& final(self).epoch == old(self).epoch
                },
                CondPhase::Comparing => if epoch != old(self).epoch {
                    &&& op == CondOp::Notified
                    &&& final(self).phase == CondPhase::Done
                } else {
                    &&& op == CondOp::LoadEpoch
                    &&& final(self).phase == CondPhase::EpochRead
                },
                CondPhase::Done => false,
            },
    {
        match self.phase {
            CondPhase::Start => {
                self.phase = CondPhase::EpochRead;
                CondOp::LoadEpoch
            },
            CondPhase::EpochRead => {
                self.epoch = epoch;
                self.phase = CondPhase::Unlocking;
                CondOp::Unlock { is_group: self.is_group }
            },
            CondPhase::Unlocking => {
                self.phase = CondPhase::Sleeping;
                CondOp::Wait { epoch: self.epoch }
            },
            CondPhase::Sleeping => {
                self.phase = CondPhase::Locking;
                CondOp::Lock { is_group: self.is_group }
            },
            CondPhase::Locking => {
                self.phase = CondPhase::Comparing;
                CondOp::LoadEpoch
            },
            _ => {
                if epoch != self.epoch {
                    self.phase = CondPhase::Done;
                    CondOp::Notified
                } else {
                    self.phase = CondPhase::EpochRead;
                    CondOp::LoadEpoch
                }
            },
        }
    }
}

/// No notification is lost: once a waiting thread has read the counter under its mutex, any
/// notification keeps it from sleeping, and ends its wait when it has locked the mutex again.
/// The counter may be counted on less often than a half word has values.
pub proof fn lemma_no_lost_notification(wait: CondWait, notifications: nat)
    requires
        !wait.holds_mutex(),
        0 < notifications < 0x1_0000_0000,
    ensures
        ({
            let epoch = bumped_times(wait.epoch, notifications);
            &&& epoch != wait.epoch
            &&& lower_half(epoch) != lower_half(wait.epoch)
        }),
{
    lemma_counted_on_is_no_sleep(wait.epoch, notifications);
}

/// A thread is without its mutex from when it starts to give it up until it has locked it again,
/// and at no other time: before it reads the counter, while it compares it and when its wait is
/// over, it has the mutex.
pub proof fn lemma_mutex_held(wait: CondWait)
    ensures
        wait.phase == CondPhase::Start ==> wait.holds_mutex(),
        wait.phase == CondPhase::EpochRead ==> wait.holds_mutex(),
        wait.phase == CondPhase::Unlocking ==> !wait.holds_mutex(),
        wait.phase == CondPhase::Sleeping ==> !wait.holds_mutex(),
        wait.phase == CondPhase::Locking ==> !wait.holds_mutex(),
        wait.phase == CondPhase::Comparing ==> wait.holds_mutex(),
        wait.phase == CondPhase::Done ==> wait.holds_mutex(),
{
}

} // verus!
