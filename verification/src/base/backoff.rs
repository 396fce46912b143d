//! Exponential backoff for retry and wait loops.
//!
//! A [`Backoff`] counts the steps of one wait. Its early steps issue processor hints, each
//! step twice as many as the one before; later steps ask the caller to yield the processor,
//! and after enough of them the wait is complete and the caller should block instead.

use vstd::arithmetic::power2::pow2;
use vstd::prelude::*;

verus! {

/// [`std::hint::spin_loop`]: a hint to the processor, without a result and without an
/// effect on any value. Nothing is claimed of it.
pub assume_specification[ std::hint::spin_loop ]()
;

/// What one backoff step did, or leaves to the caller.
#[derive(Clone, Copy, Debug, PartialEq, Eq, Structural)]
pub enum Pause {
    /// Nothing was done.
    Idle,
    /// This many processor hints were issued.
    Spun(usize),
    /// The caller has to yield the processor to other threads.
    Yield,
}

/// The step counter of one wait loop and its two thresholds.
#[derive(Debug)]
pub struct Backoff {
    step: usize,
    spin_limit: usize,
    yield_limit: usize,
}

/// The last step that still spins, by the number of processors.
pub open spec fn spin_limit_for(parallelism: usize) -> usize {
    if 1 <= parallelism <= 2 {
        6
    } else if 3 <= parallelism <= 8 {
        8
    } else if 9 <= parallelism <= 32 {
        10
    } else {
        12
    }
}

/// How many yielding steps follow the spinning ones, by the number of processors.
pub open spec fn yield_steps_for(parallelism: usize) -> usize {
    if 1 <= parallelism <= 2 {
        2
    } else if 3 <= parallelism <= 8 {
        4
    } else if 9 <= parallelism <= 32 {
        6
    } else {
        10
    }
}

/// Issues `2^exponent` processor hints and returns how many there were.
fn issue_hints(exponent: usize) -> (hints: usize)
    requires
        exponent < 32,
    ensures
        hints == pow2(exponent as nat),
{
    proof {
        vstd::arithmetic::power2::lemma2_to64();
        vstd::bits::lemma_usize_pow2_no_overflow(exponent as nat);
        vstd::bits::lemma_usize_shl_is_mul(1, exponent);
    }
    let hints: usize = 1usize << exponent;
    let mut issued: usize = 0;
    while issued < hints
        decreases hints - issued,
    {
        std::hint::spin_loop();
        issued += 1;
    }
    hints
}

impl Backoff {
    /// The number of steps taken since the last reset.
    pub closed spec fn step(self) -> nat {
        self.step as nat
    }

    /// The last step that spins.
    pub closed spec fn spin_limit(self) -> nat {
        self.spin_limit as nat
    }

    /// The last step before the backoff counts as completed.
    pub closed spec fn yield_limit(self) -> nat {
        self.yield_limit as nat
    }

    /// The thresholds are in order and small, and the counter has not run past them.
    pub open spec fn wf(self) -> bool {
        &&& self.spin_limit() <= 12
        &&& self.spin_limit() < self.yield_limit() <= 22
        &&& self.step() <= self.yield_limit() + 1
    }

    /// `self` is `before` with its step counter set to `step`.
    pub open spec fn at_step(self, before: Self, step: nat) -> bool {
        &&& self.step() == step
        &&& self.spin_limit() == before.spin_limit()
        &&& self.yield_limit() == before.yield_limit()
    }

    /// `pause` is what a [`Backoff::snooze`] at this step does: `2^step` hints up to the
    /// spin limit, a yield after it.
    pub open spec fn snoozes(self, pause: Pause) -> bool {
        if self.step() <= self.spin_limit() {
            pause matches Pause::Spun(hints) && hints == pow2(self.step())
        } else {
            pause == Pause::Yield
        }
    }

    /// Starts a wait on a machine with `parallelism` processors, at step zero.
    pub fn new(parallelism: usize) -> (backoff: Self)
        ensures
            backoff.wf(),
            backoff.step() == 0,
            backoff.spin_limit() == spin_limit_for(parallelism),
            backoff.yield_limit() == spin_limit_for(parallelism) + yield_steps_for(parallelism),
    {
        let spin_limit: usize = match parallelism {
            1..=2 => 6,
            3..=8 => 8,
            9..=32 => 10,
            _ => 12,
        };
        let yield_steps: usize = match parallelism {
            1..=2 => 2,
            3..=8 => 4,
            9..=32 => 6,
            _ => 10,
        };
        Backoff { step: 0, spin_limit, yield_limit: spin_limit + yield_steps }
    }

    /// Returns to step zero, so that the next waits are short again.
    pub fn reset(&mut self)
        requires
            old(self).wf(),
        ensures
            final(self).wf(),
            final(self).at_step(*old(self), 0),
    {
        self.step = 0;
    }

    /// One step that only spins. Returns the number of hints issued: `2^step`, and no more
    /// than `2^spin_limit`. The counter advances while it is not past the spinning steps.
    pub fn spin(&mut self) -> (hints: usize)
        requires
            old(self).wf(),
        ensures
            final(self).wf(),
            hints == pow2(
                if old(self).step() <= old(self).spin_limit() {
                    old(self).step()
                } else {
                    old(self).spin_limit()
                },
            ),
            final(self).at_step(
                *old(self),
                if old(self).step() <= old(self).spin_limit() {
                    old(self).step() + 1
                } else {
                    old(self).step()
                },
            ),
    {
        let spins: usize = self.step;
        let exponent: usize = if spins <= self.spin_limit {
            spins
        } else {
            self.spin_limit
        };
        let hints: usize = issue_hints(exponent);
        if spins <= self.spin_limit {
            self.step = spins + 1;
        }
        hints
    }

    /// Skips the spinning steps: the next [`Backoff::snooze`] yields.
    pub fn yielder(&mut self)
        requires
            old(self).wf(),
        ensures
            final(self).wf(),
            final(self).at_step(*old(self), old(self).spin_limit() + 1),
    {
        self.step = self.spin_limit + 1;
    }

    /// One step that spins up to the spin limit and yields after it. The counter advances
    /// until the backoff is completed.
    pub fn snooze(&mut self) -> (pause: Pause)
        requires
            old(self).wf(),
        ensures
            final(self).wf(),
            old(self).snoozes(pause),
            final(self).at_step(
                *old(self),
                if old(self).step() <= old(self).yield_limit() {
                    old(self).step() + 1
                } else {
                    old(self).step()
                },
            ),
    {
        let spins: usize = self.step;
        let pause = if spins <= self.spin_limit {
            Pause::Spun(issue_hints(spins))
        } else {
            Pause::Yield
        };
        if spins <= self.yield_limit {
            self.step = spins + 1;
        }
        pause
    }

    /// Whether the wait has run past its last step, so that blocking is advised.
    pub fn is_completed(&self) -> (completed: bool)
        ensures
            completed == (self.step() > self.yield_limit()),
    {
        self.step > self.yield_limit
    }

    /// Whether the wait has reached the end of its spinning steps.
    pub fn is_yielding(&self) -> (yielding: bool)
        ensures
            yielding == (self.step() >= self.spin_limit()),
    {
        self.step >= self.spin_limit
    }

    /// One step of a counted wait that keeps no state: spins on the first three counts,
    /// yields up to the tenth, and does nothing after it.
    pub fn cpu_relax(counter: u32) -> (pause: Pause)
        ensures
            counter < 3 ==> (pause matches Pause::Spun(hints) && hints == pow2(
                (counter + 1) as nat,
            )),
            3 <= counter < 10 ==> pause == Pause::Yield,
            counter >= 10 ==> pause == Pause::Idle,
    {
        if counter >= 10 {
            return Pause::Idle;
        }
        let counter: u32 = counter + 1;
        if counter <= 3 {
            Pause::Spun(issue_hints(counter as usize))
        } else {
            Pause::Yield
        }
    }
}

/// A wait that only snoozes completes: after `yield_limit + 1` steps from zero the counter
/// is past the yield limit, and not before.
pub proof fn lemma_snoozing_completes(limit: nat, steps: nat)
    ensures
        snoozed(limit, steps) == if steps <= limit + 1 {
            steps
        } else {
            limit + 1
        },
        snoozed(limit, steps) > limit <==> steps > limit,
    decreases steps,
{
    if steps > 0 {
        lemma_snoozing_completes(limit, (steps - 1) as nat);
    }
}

/// The step counter after `steps` snoozes from zero with yield limit `limit`.
pub open spec fn snoozed(limit: nat, steps: nat) -> nat
    decreases steps,
{
    if steps == 0 {
        0
    } else {
        let before = snoozed(limit, (steps - 1) as nat);
        if before <= limit {
            before + 1
        } else {
            before
        }
    }
}

/// More processors never make a wait spin or yield for fewer steps: past two, past eight and
/// past thirty-two of them there are two spinning steps more, and two, two and four yielding
/// ones. An unknown number counts as many.
pub proof fn lemma_limits_grow(parallelism: usize)
    ensures
        parallelism > 0 ==> spin_limit_for(parallelism) == 6 + (if parallelism > 2 {
            2int
        } else {
            0
        }) + (if parallelism > 8 {
            2int
        } else {
            0
        }) + (if parallelism > 32 {
            2int
        } else {
            0
        }),
        parallelism > 0 ==> yield_steps_for(parallelism) == 2 + (if parallelism > 2 {
            2int
        } else {
            0
        }) + (if parallelism > 8 {
            2int
        } else {
            0
        }) + (if parallelism > 32 {
            4int
        } else {
            0
        }),
        forall|many: usize|
            0 < parallelism <= many ==> spin_limit_for(parallelism) <= #[trigger] spin_limit_for(
                many,
            ) <= spin_limit_for(0),
        forall|many: usize|
            0 < parallelism <= many ==> yield_steps_for(parallelism) <= #[trigger] yield_steps_for(
                many,
            ) <= yield_steps_for(0),
{
}

/// A snooze does one thing at a given step: it spins once at step zero and twice as often at
/// each step that follows, up to the spin limit, and yields after that.
pub proof fn lemma_snoozes_double(early: Backoff, late: Backoff, first: Pause, second: Pause)
    requires
        early.snoozes(first),
        late.at_step(early, early.step() + 1),
        late.snoozes(second),
    ensures
        late.step() == early.step() + 1,
        late.spin_limit() == early.spin_limit(),
        late.yield_limit() == early.yield_limit(),
        first is Yield <==> early.step() > early.spin_limit(),
        second is Yield <==> late.step() > late.spin_limit(),
        first !is Idle,
        second !is Idle,
        second matches Pause::Spun(more) ==> (first matches Pause::Spun(fewer) && more == 2
            * fewer),
        early.step() == 0 ==> first == Pause::Spun(1),
{
    vstd::arithmetic::power2::lemma_pow2_unfold(late.step());
    vstd::arithmetic::power2::lemma2_to64();
}

} // verus!
