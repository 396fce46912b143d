//! A barrier at which threads wait for each other.
//!
//! [`Barrier`] is the record that the threads share: how many threads the barrier still waits
//! for, what to count down from when a group is through, the condition variable that the
//! waiting threads sleep on, and the number of handles.

use crate::base::futex::FutexCall;
use crate::base::scondvar::SCondVar;
use vstd::prelude::*;

verus! {

use crate::bits::{bumped, lemma_wrapping_count, lowered};

/// The count at which a group is through: a barrier for `n` threads counts down from `n`
/// above it.
pub const GROUP_DONE: usize = 2;

/// What a thread does that has reached the barrier.
#[derive(Clone, Copy, Debug, PartialEq, Eq, Structural)]
pub enum Arrival {
    /// Go on: the barrier is disabled or is a no-op, or no other handle exists.
    Pass,
    /// Sleep on the condition variable until a group is released.
    Block,
    /// Go on, and wake the group that sleeps.
    Release { call: FutexCall },
}

/// The shared record of a barrier.
#[derive(Debug)]
pub struct Barrier {
    ref_count: usize,
    waiters: usize,
    bucket: usize,
    no_op: bool,
    cond: SCondVar,
}

/// What a barrier says.
pub struct BarrierView {
    /// The count of threads that the barrier still waits for.
    pub waiters: usize,
    /// What the count starts over from.
    pub bucket: usize,
    /// The barrier was made for a single waiter, and blocks nobody.
    pub no_op: bool,
    /// The epoch of the condition variable.
    pub epoch: usize,
    /// How many handles share the barrier.
    pub ref_count: usize,
}

impl View for Barrier {
    type V = BarrierView;

    closed spec fn view(&self) -> BarrierView {
        BarrierView {
            waiters: self.waiters,
            bucket: self.bucket,
            no_op: self.no_op,
            epoch: self.cond@,
            ref_count: self.ref_count,
        }
    }
}

/// A thread that reaches the barrier goes on at once: the barrier is disabled or is a no-op, or
/// has a single handle.
pub open spec fn lets_pass(barrier: BarrierView) -> bool {
    barrier.waiters == 0 || barrier.no_op || barrier.ref_count == 1
}

/// What a thread does on reaching a barrier, and what the barrier says afterwards. A barrier
/// that is disabled or is a no-op, or has a single handle, lets everyone pass and stays as it
/// is. Otherwise a thread that finds a count of one blocks. Any other counts itself; the one
/// that completes the group starts the count over and wakes the others, who block.
pub open spec fn arrived(barrier: BarrierView) -> (Arrival, BarrierView) {
    if lets_pass(barrier) {
        (Arrival::Pass, barrier)
    } else if barrier.waiters == 1 {
        (Arrival::Block, barrier)
    } else if barrier.waiters == GROUP_DONE + 1 {
        (
            Arrival::Release { call: FutexCall::Wake { count: u32::MAX } },
            BarrierView {
                waiters: barrier.bucket,
                epoch: bumped(barrier.epoch),
                ..barrier
            },
        )
    } else {
        (Arrival::Block, BarrierView { waiters: (barrier.waiters - 1) as usize, ..barrier })
    }
}

/// What a barrier says after `k` threads have reached it.
pub open spec fn after_arrivals(barrier: BarrierView, k: nat) -> BarrierView
    decreases k,
{
    if k == 0 {
        barrier
    } else {
        arrived(after_arrivals(barrier, (k - 1) as nat)).1
    }
}

/// Of a group of `n` threads that reach a barrier for `n`, all but the last block, the last
/// releases the others, and the count starts over from the bucket.
pub proof fn lemma_group(barrier: BarrierView, n: nat, k: nat)
    requires
        barrier.ref_count != 1,
        !barrier.no_op,
        barrier.waiters == n + GROUP_DONE,
        1 <= n,
        k < n,
    ensures
        ({
            let before = after_arrivals(barrier, k);
            &&& before == (BarrierView { waiters: (barrier.waiters - k) as usize, ..barrier })
            &&& k + 1 < n ==> arrived(before).0 == Arrival::Block
            &&& k + 1 == n ==> {
                &&& arrived(before).0 is Release
                &&& arrived(before).1 == (BarrierView {
                    waiters: barrier.bucket,
                    epoch: bumped(barrier.epoch),
                    ..barrier
                })
            }
        }),
    decreases k,
{
    if k > 0 {
        lemma_group(barrier, n, (k - 1) as nat);
    }
}

/// A barrier that was made for a single waiter is a no-op: however many handles it has and
/// however many threads reach it, each passes and the barrier stays as it is.
pub proof fn lemma_single_waiter_is_no_op(barrier: BarrierView, k: nat)
    requires
        barrier.no_op,
    ensures
        after_arrivals(barrier, k) == barrier,
        arrived(after_arrivals(barrier, k)).0 == Arrival::Pass,
    decreases k,
{
    if k > 0 {
        lemma_single_waiter_is_no_op(barrier, (k - 1) as nat);
    }
}

/// A disabled barrier lets everyone pass, however many handles it has and however many threads
/// reach it, and stays disabled. So does a barrier with a single handle, whatever it counts.
pub proof fn lemma_open_barrier_passes(barrier: BarrierView, k: nat)
    requires
        barrier.waiters == 0 || barrier.ref_count == 1,
    ensures
        after_arrivals(barrier, k) == barrier,
        arrived(after_arrivals(barrier, k)).0 == Arrival::Pass,
        arrived(barrier).0 == Arrival::Pass,
        arrived(barrier).1 == barrier,
    decreases k,
{
    if k > 0 {
        lemma_open_barrier_passes(barrier, (k - 1) as nat);
    }
}

/// After a whole group of `n` went through, a barrier without a bucket lets every later thread
/// pass, and a barrier with one takes groups of the bucket's size from then on.
pub proof fn lemma_after_a_group(barrier: BarrierView, n: nat, k: nat)
    requires
        barrier.ref_count != 1,
        !barrier.no_op,
        barrier.waiters == n + GROUP_DONE,
        1 <= n,
    ensures
        ({
            let reset = after_arrivals(barrier, n);
            &&& reset.waiters == barrier.bucket
            &&& reset.bucket == barrier.bucket
            &&& reset.ref_count == barrier.ref_count
            &&& reset.no_op == barrier.no_op
            &&& barrier.bucket == 0 ==> {
                &&& after_arrivals(reset, k) == reset
                &&& arrived(after_arrivals(reset, k)).0 == Arrival::Pass
                &&& arrived(after_arrivals(barrier, n + k)).0 == Arrival::Pass
            }
            &&& barrier.bucket == k + 1 + GROUP_DONE ==> {
                &&& arrived(after_arrivals(reset, k)).0 is Release
                &&& after_arrivals(reset, k + 1).waiters == barrier.bucket
            }
        }),
{
    lemma_group(barrier, n, (n - 1) as nat);
    let reset = after_arrivals(barrier, n);
    assert(reset == arrived(after_arrivals(barrier, (n - 1) as nat)).1);
    if barrier.bucket == 0 {
        lemma_open_barrier_passes(reset, k);
        lemma_arrivals_add(barrier, n, k);
    }
    if barrier.bucket == k + 1 + GROUP_DONE {
        lemma_group(reset, k + 1, k);
    }
}

proof fn lemma_arrivals_add(barrier: BarrierView, n: nat, k: nat)
    ensures
        after_arrivals(barrier, n + k) == after_arrivals(after_arrivals(barrier, n), k),
    decreases k,
{
    if k > 0 {
        lemma_arrivals_add(barrier, n, (k - 1) as nat);
    }
}

/// A barrier that is not disabled, was not made for a single waiter and has further handles holds
/// every thread up but the one that completes a group.
pub proof fn lemma_closed_barrier_holds_up(barrier: BarrierView)
    requires
        barrier.waiters > 0,
        barrier.ref_count != 1,
        !barrier.no_op,
    ensures
        barrier.waiters == 3 <==> arrived(barrier).0 is Release,
        barrier.waiters != 3 <==> arrived(barrier).0 == Arrival::Block,
        arrived(barrier).0 is Release ==> arrived(barrier).1.epoch != barrier.epoch,
        arrived(barrier).0 == Arrival::Block ==> arrived(barrier).1.epoch == barrier.epoch,
        barrier.waiters == 1 ==> arrived(barrier).1.waiters == 1,
        barrier.waiters > 1 && barrier.waiters != 3 ==> arrived(barrier).1.waiters
            == barrier.waiters - 1,
{
}

/// Arrivals are counted one by one.
pub proof fn lemma_arrivals_one_by_one(barrier: BarrierView, k: nat)
    ensures
        after_arrivals(barrier, 0) == barrier,
        after_arrivals(barrier, k + 1) == arrived(after_arrivals(barrier, k)).1,
{
}

/// A thread goes on at once exactly where the barrier is disabled, was made for a single waiter
/// or has a single handle. Nobody changes for whom the barrier is, who shares it or what comes
/// after the group; the one that releases the group wakes all of it and counts the epoch on.
pub proof fn lemma_arrival_kinds(barrier: BarrierView)
    ensures
        lets_pass(barrier) <==> barrier.waiters == 0 || barrier.no_op || barrier.ref_count == 1,
        lets_pass(barrier) <==> arrived(barrier).0 == Arrival::Pass,
        lets_pass(barrier) ==> arrived(barrier).1 == barrier,
        arrived(barrier).1.bucket == barrier.bucket,
        arrived(barrier).1.no_op == barrier.no_op,
        arrived(barrier).1.ref_count == barrier.ref_count,
        arrived(barrier).0 is Release ==> {
            &&& arrived(barrier).0 == Arrival::Release {
                call: FutexCall::Wake { count: u32::MAX },
            }
            &&& arrived(barrier).1.waiters == barrier.bucket
            &&& arrived(barrier).1.epoch as int == (barrier.epoch + 1) % (usize::MAX + 1)
        },
{
    lemma_wrapping_count(barrier.epoch, 0, 0);
}

impl Barrier {
    /// A barrier that counts a single waiter, with one handle. Nobody blocks at it.
    pub fn new() -> (barrier: Barrier)
        ensures
            barrier@ == (BarrierView {
                waiters: 1,
                bucket: 0,
                no_op: true,
                epoch: 0,
                ref_count: 1,
            }),
    {
        Self::init(1, 0, true)
    }

    /// A barrier for a group of `n` threads, and for groups of `bucket` threads after it. With
    /// no bucket the barrier is disabled once a group is through.
    pub fn with_capacity(n: usize, bucket: usize) -> (barrier: Barrier)
        requires
            n <= usize::MAX - 2,
            bucket <= usize::MAX - 2,
        ensures
            barrier@ == (BarrierView {
                waiters: (n + 2) as usize,
                bucket: if bucket == 0 {
                    0
                } else {
                    (bucket + 2) as usize
                },
                no_op: false,
                epoch: 0,
                ref_count: 1,
            }),
    {
        Self::init(
            n + GROUP_DONE,
            if bucket == 0 {
                0
            } else {
                bucket + GROUP_DONE
            },
            false,
        )
    }

    fn init(n: usize, bucket: usize, no_op: bool) -> (barrier: Barrier)
        ensures
            barrier@ == (BarrierView { waiters: n, bucket, no_op, epoch: 0, ref_count: 1 }),
    {
        Barrier { ref_count: 1, waiters: n, bucket, no_op, cond: SCondVar::new() }
    }

    /// The count of threads that the barrier still waits for.
    pub fn count(&self) -> (waiters: usize)
        ensures
            waiters == self@.waiters,
    {
        self.waiters
    }

    /// The count that a thread sees on reaching the barrier; `None` where it goes on at once.
    /// Otherwise the thread takes the barrier's mutex next, and goes on with
    /// [`Barrier::arrive`].
    pub fn glance(&self) -> (seen: Option<usize>)
        ensures
            seen == if lets_pass(self@) {
                None
            } else {
                Some(self@.waiters)
            },
    {
        if self.waiters == 0 || self.no_op || self.ref_count == 1 {
            None
        } else {
            Some(self.waiters)
        }
    }

    /// What a thread does that saw the count `seen` and holds the barrier's mutex. Other
    /// threads may have moved the count since: where that disabled the barrier, the thread
    /// goes on.
    pub fn arrive(&mut self, seen: usize) -> (arrival: Arrival)
        ensures
            seen <= 1 ==> arrival == Arrival::Block && final(self)@ == old(self)@,
            seen > 1 ==> if old(self)@.waiters == 0 {
                &&& arrival == Arrival::Pass
                &&& final(self)@ == old(self)@
            } else if old(self)@.waiters == GROUP_DONE + 1 {
                &&& arrival == (Arrival::Release { call: FutexCall::Wake { count: u32::MAX } })
                &&& final(self)@ == (BarrierView {
                    waiters: old(self)@.bucket,
                    epoch: bumped(old(self)@.epoch),
                    ..old(self)@
                })
            } else {
                &&& arrival == Arrival::Block
                &&& final(self)@ == (BarrierView {
                    waiters: (old(self)@.waiters - 1) as usize,
                    ..old(self)@
                })
            },
    {
        if seen <= 1 {
            return Arrival::Block;
        }
        if self.waiters == 0 {
            return Arrival::Pass;
        }
        let new_val: usize = self.waiters - 1;
        self.waiters = new_val;
        if new_val == GROUP_DONE {
            self.waiters = self.bucket;
            Arrival::Release { call: self.release() }
        } else {
            Arrival::Block
        }
    }

    /// What a thread does on reaching the barrier, where no other thread comes in between.
    pub fn wait(&mut self) -> (arrival: Arrival)
        ensures
            arrival == arrived(old(self)@).0,
            final(self)@ == arrived(old(self)@).1,
    {
        match self.glance() {
            None => Arrival::Pass,
            Some(seen) => self.arrive(seen),
        }
    }

    /// Wakes every thread that sleeps at the barrier.
    pub fn release(&mut self) -> (call: FutexCall)
        ensures
            call == (FutexCall::Wake { count: u32::MAX }),
            final(self)@ == (BarrierView { epoch: bumped(old(self)@.epoch), ..old(self)@ }),
    {
        self.cond.notify_all()
    }

    /// Counts one handle more.
    pub fn clone_ref(&mut self)
        ensures
            final(self)@ == (BarrierView { ref_count: bumped(old(self)@.ref_count), ..old(self)@ }),
    {
        self.ref_count = self.ref_count.wrapping_add(1);
    }

    /// Counts one handle less, and says whether it was the last.
    pub fn drop_ref(&mut self) -> (last: bool)
        ensures
            last == (old(self)@.ref_count == 1),
            final(self)@ == (BarrierView {
                ref_count: lowered(old(self)@.ref_count),
                ..old(self)@
            }),
    {
        let previous: usize = self.ref_count;
        self.ref_count = previous.wrapping_sub(1);
        previous == 1
    }
}

impl Default for Barrier {
    fn default() -> (barrier: Self)
        ensures
            barrier@ == (BarrierView {
                waiters: 1,
                bucket: 0,
                no_op: true,
                epoch: 0,
                ref_count: 1,
            }),
    {
        Self::new()
    }
}

} // verus!
