//! A value behind a reader-writer spin lock.
//!
//! [`SpinCell`] is the record that the threads share: the lock word, the value, and the number
//! of handles. Where a thread may have to retry, its side of the conversation is a machine
//! ([`SpinExclusive`], [`SpinShared`]) that says which access to make next and is told what
//! the access found.

use crate::base::backoff::{Backoff, Pause};
use crate::sync::lock_word::{
    is_writer_locked, readers_count, ONE_READER, ONE_WRITER, READERS_PARKED, UNLOCKED,
    WRITERS_PARKED,
};
use crate::sync::mutex::{
    hands_over_to_writer, has_parked_readers, has_parked_writers, shared_claim, shared_claim_slow,
    without_readers, LockOp, Reply,
};
use vstd::prelude::*;

verus! {

use crate::sync::lock_word::{
    decode, lemma_add_reader_word, lemma_claim_word, lemma_constant_words, lemma_decode_injective,
    lemma_word_bits, LockView,
};
use vstd::arithmetic::power2::pow2;
use crate::sync::mutex::{
    hands_over, lemma_remove_one_wrapping, with_one_more_reader, without_reader,
};

/// What a spin lock says.
pub struct SpinView<T> {
    /// The lock word, decoded.
    pub lock: LockView,
    /// The value.
    pub val: T,
    /// How many handles share the lock.
    pub ref_count: usize,
}

/// A summary of a spin lock for people to read.
#[derive(Clone, Copy, Debug, PartialEq, Eq, Structural)]
pub struct SpinLockCellReport {
    /// The lock word.
    pub state: usize,
    /// A writer holds the lock.
    pub exclusive_locked: bool,
    /// The holder count of the word: all of its bits set for a writer.
    pub readers_count: usize,
    /// Readers wait.
    pub readers_parked: bool,
    /// Writers wait.
    pub writers_parked: bool,
}

/// The shared record of a value behind a spin lock.
#[derive(Debug)]
pub struct SpinCell<T> {
    state: usize,
    ref_count: usize,
    val: T,
}

/// The lock word after a writer left: parked readers come first, and leave parked writers
/// announced. A word that is neither a lone writer's nor announces anyone stays as it is.
pub open spec fn spin_released(lock: LockView) -> LockView {
    if lock.readers_parked && lock.writers_parked {
        LockView::unlocked().with_writers_parked()
    } else if lock.readers_parked || lock.writers_parked || lock.writer {
        LockView::unlocked()
    } else {
        lock
    }
}

/// The lock word after one reader left.
pub open spec fn spin_left(lock: LockView) -> LockView {
    if hands_over(lock) {
        LockView::unlocked()
    } else {
        without_reader(lock)
    }
}

/// Exclusive access to the value of a spin lock. The lock is held until
/// [`ExclusiveGuard::unlock`] gives it up.
#[must_use]
pub struct ExclusiveGuard<'a, T> {
    /// The lock.
    pub lock: &'a mut SpinCell<T>,
}

/// Shared access to the value of a spin lock. The lock is held until [`SharedGuard::unlock`]
/// gives it up.
#[must_use]
pub struct SharedGuard<'a, T> {
    /// The lock.
    pub lock: &'a mut SpinCell<T>,
}

impl<T> View for SpinCell<T> {
    type V = SpinView<T>;

    closed spec fn view(&self) -> SpinView<T> {
        SpinView { lock: decode(self.state), val: self.val, ref_count: self.ref_count }
    }
}

impl<T> SpinCell<T> {
    /// The lock word itself.
    pub closed spec fn word(self) -> usize {
        self.state
    }

    /// A free lock around `val`, with one handle.
    pub fn new(val: T) -> (cell: Self)
        ensures
            cell@ == (SpinView { lock: LockView::unlocked(), val, ref_count: 1 }),
            cell.word() == UNLOCKED,
    {
        proof {
            lemma_constant_words();
        }
        SpinCell { state: UNLOCKED, ref_count: 1, val }
    }

    /// How many handles share the lock.
    pub fn get_ref_count(&self) -> (count: usize)
        ensures
            count == self@.ref_count,
    {
        self.ref_count
    }

    /// How many readers hold the lock.
    pub fn get_shared_locked(&self) -> (count: usize)
        ensures
            count == self@.lock.readers,
    {
        readers_count(self.state)
    }

    /// Whether a writer holds the lock.
    pub fn is_locked_exclusive(&self) -> (locked: bool)
        ensures
            locked == self@.lock.writer,
    {
        is_writer_locked(self.state)
    }

    /// Whether readers hold the lock.
    pub fn is_locked_shared(&self) -> (locked: bool)
        ensures
            locked == (!self@.lock.writer && self@.lock.readers > 0),
    {
        !is_writer_locked(self.state) && readers_count(self.state) > 0
    }

    /// Whether anyone holds the lock, as a writer or as a reader.
    pub fn is_locked(&self) -> (locked: bool)
        ensures
            locked == !self@.lock.is_free(),
    {
        is_writer_locked(self.state) || readers_count(self.state) > 0
    }

    /// Makes an access of a lock attempt. A spin lock has no counters and nobody sleeps on
    /// it: only the word is read and replaced.
    pub fn perform(&mut self, op: LockOp) -> (reply: Reply)
        ensures
            match op {
                LockOp::Load => reply == (Reply::Word { value: old(self).word() }) && *final(self)
                    == *old(self),
                LockOp::Claim { current, new } | LockOp::Mark { current, new } => {
                    if old(self).word() == current {
                        &&& reply == Reply::Took
                        &&& final(self).word() == new
                        &&& final(self)@ == (SpinView { lock: decode(new), ..old(self)@ })
                    } else {
                        &&& reply == (Reply::Lost { value: old(self).word() })
                        &&& *final(self) == *old(self)
                    }
                },
                _ => reply == Reply::Nothing && *final(self) == *old(self),
            },
    {
        match op {
            LockOp::Load => Reply::Word { value: self.state },
            LockOp::Claim { current, new } | LockOp::Mark { current, new } => {
                if self.state == current {
                    self.state = new;
                    Reply::Took
                } else {
                    Reply::Lost { value: self.state }
                }
            },
            _ => Reply::Nothing,
        }
    }

    /// Takes the exclusive lock. The lock has to be free: a thread that finds a holder spins
    /// as [`SpinExclusive`] says.
    pub fn lock_exclusive(&mut self) -> (guard: ExclusiveGuard<'_, T>)
        requires
            old(self)@.lock.is_free(),
        ensures
            guard.lock@ == (SpinView { lock: old(self)@.lock.with_writer(), ..old(self)@ }),
            *final(self) == *final(guard.lock),
    {
        proof {
            lemma_constant_words();
        }
        if self.state == UNLOCKED {
            self.state = ONE_WRITER;
        } else {
            self.lock_exclusive_slow();
        }
        ExclusiveGuard { lock: self }
    }

    /// Gives up the exclusive lock.
    pub fn unlock_exclusive(&mut self)
        ensures
            final(self)@ == (SpinView { lock: spin_released(old(self)@.lock), ..old(self)@ }),
    {
        let state: usize = self.state;
        proof {
            lemma_constant_words();
            lemma_word_bits(state);
            if state != ONE_WRITER && decode(state) == decode(ONE_WRITER) {
                lemma_decode_injective(state, ONE_WRITER);
            }
        }
        if state == ONE_WRITER {
            self.state = UNLOCKED;
        } else if has_parked_readers(state) {
            if has_parked_writers(state) {
                self.state = WRITERS_PARKED;
            } else {
                self.state = UNLOCKED;
            }
        } else if has_parked_writers(state) {
            self.state = UNLOCKED;
        }
    }

    fn lock_exclusive_slow(&mut self)
        requires
            old(self)@.lock.is_free(),
        ensures
            final(self)@ == (SpinView { lock: old(self)@.lock.with_writer(), ..old(self)@ }),
    {
        let mut attempt = SpinExclusive::new(Backoff::new(1));
        let mut op = attempt.step(Reply::Nothing);
        proof {
            lemma_claim_word(old(self).state, UNLOCKED);
        }
        while op != LockOp::Acquired
            invariant
                attempt.wf(),
                old(self)@.lock.is_free(),
                self.val == old(self).val,
                self.ref_count == old(self).ref_count,
                decode(old(self).state | ONE_WRITER | UNLOCKED)
                    == old(self)@.lock.with_writer(),
                match attempt.phase {
                    SpinPhase::Loading => {
                        &&& op == LockOp::Load
                        &&& self.state == old(self).state
                        &&& attempt.acquire_with == UNLOCKED
                    },
                    SpinPhase::Claiming => {
                        &&& op == (LockOp::Claim {
                            current: old(self).state,
                            new: old(self).state | ONE_WRITER | UNLOCKED,
                        })
                        &&& self.state == old(self).state
                    },
                    SpinPhase::Held => {
                        &&& op == LockOp::Acquired
                        &&& self.state == old(self).state | ONE_WRITER | UNLOCKED
                    },
                    _ => false,
                },
            decreases
                match attempt.phase {
                    SpinPhase::Loading => 2int,
                    SpinPhase::Claiming => 1int,
                    _ => 0int,
                },
        {
            let reply = self.perform(op);
            op = attempt.step(reply);
        }
    }

    /// Takes a shared lock. No writer may hold the lock: a thread that finds one spins as
    /// [`SpinShared`] says.
    pub fn lock_shared(&mut self) -> (guard: SharedGuard<'_, T>)
        requires
            !old(self)@.lock.writer,
        ensures
            guard.lock@ == (SpinView { lock: with_one_more_reader(old(self)@.lock), ..old(self)@ }),
            *final(self) == *final(guard.lock),
    {
        match shared_claim(self.state) {
            Some(new) => {
                self.state = new;
            },
            None => {
                self.lock_shared_slow();
            },
        }
        SharedGuard { lock: self }
    }

    fn lock_shared_slow(&mut self)
        requires
            !old(self)@.lock.writer,
        ensures
            final(self)@ == (SpinView {
                lock: with_one_more_reader(old(self)@.lock),
                ..old(self)@
            }),
    {
        let mut attempt = SpinShared::new(Backoff::new(1));
        let mut op = attempt.step(Reply::Nothing);
        while op != LockOp::Acquired
            invariant
                attempt.wf(),
                !old(self)@.lock.writer,
                self.val == old(self).val,
                self.ref_count == old(self).ref_count,
                match attempt.phase {
                    SpinPhase::Loading => {
                        &&& op == LockOp::Load
                        &&& self.state == old(self).state
                    },
                    SpinPhase::Claiming => {
                        &&& op matches LockOp::Claim { current, new } && current == old(self).state
                            && decode(new) == with_one_more_reader(old(self)@.lock)
                        &&& self.state == old(self).state
                    },
                    SpinPhase::Held => {
                        &&& op == LockOp::Acquired
                        &&& decode(self.state) == with_one_more_reader(old(self)@.lock)
                    },
                    _ => false,
                },
            decreases
                match attempt.phase {
                    SpinPhase::Loading => 2int,
                    SpinPhase::Claiming => 1int,
                    _ => 0int,
                },
        {
            let reply = self.perform(op);
            op = attempt.step(reply);
        }
    }

    /// Gives up a shared lock. The last reader clears the word if only writers are parked.
    pub fn unlock_shared(&mut self)
        ensures
            final(self)@ == (SpinView { lock: spin_left(old(self)@.lock), ..old(self)@ }),
    {
        let previous: usize = self.state;
        self.state = previous.wrapping_sub(ONE_READER);
        proof {
            lemma_remove_one_wrapping(previous);
            lemma_constant_words();
            if hands_over(decode(previous)) {
                lemma_decode_injective(self.state, WRITERS_PARKED);
            }
        }
        if hands_over_to_writer(previous) && self.state == WRITERS_PARKED {
            self.state = UNLOCKED;
        }
    }

    /// Gives up every shared lock at once.
    pub fn unlock_all_shared(&mut self)
        ensures
            final(self)@ == (SpinView {
                lock: if old(self)@.lock.readers > 0 {
                    old(self)@.lock.with_readers(0)
                } else {
                    old(self)@.lock
                },
                ..old(self)@
            }),
    {
        match without_readers(self.state) {
            None => {},
            Some(new) => {
                self.state = new;
            },
        }
    }

    /// A summary for people to read.
    pub fn report(&self) -> (report: SpinLockCellReport)
        ensures
            report.state == self.word(),
            report.exclusive_locked == self@.lock.writer,
            report.readers_count == self.word() / 4,
            report.readers_parked == self@.lock.readers_parked,
            report.writers_parked == self@.lock.writers_parked,
    {
        SpinLockCellReport {
            state: self.state,
            exclusive_locked: is_writer_locked(self.state),
            readers_count: self.state / ONE_READER,
            readers_parked: has_parked_readers(self.state),
            writers_parked: has_parked_writers(self.state),
        }
    }
}

impl<'a, T> ExclusiveGuard<'a, T> {
    /// The value.
    pub fn deref(&self) -> (value: &T)
        ensures
            *value == old(self.lock)@.val,
    {
        &self.lock.val
    }

    /// The value, to be changed in place.
    pub fn deref_mut(&mut self) -> (value: &mut T)
        ensures
            *value == old(self).lock@.val,
            final(self).lock@ == (SpinView { val: *final(value), ..old(self).lock@ }),
            *final(final(self).lock) == *final(old(self).lock),
    {
        &mut self.lock.val
    }

    /// Ends the access.
    pub fn unlock(self)
        ensures
            final(self.lock)@ == (SpinView {
                lock: spin_released(old(self.lock)@.lock),
                ..old(self.lock)@
            }),
    {
        self.lock.unlock_exclusive();
    }
}

impl<'a, T> SharedGuard<'a, T> {
    /// The value.
    pub fn deref(&self) -> (value: &T)
        ensures
            *value == old(self.lock)@.val,
    {
        &self.lock.val
    }

    /// Ends the access.
    pub fn unlock(self)
        ensures
            final(self.lock)@ == (SpinView {
                lock: spin_left(old(self.lock)@.lock),
                ..old(self.lock)@
            }),
    {
        self.lock.unlock_shared();
    }
}

/// Where an attempt at a spin lock stands.
#[derive(Clone, Copy, Debug, PartialEq, Eq, Structural)]
pub enum SpinPhase {
    /// Nothing was done yet.
    Start,
    /// The lock word is being read.
    Loading,
    /// The lock is being taken.
    Claiming,
    /// A backoff step is being taken.
    Resting,
    /// The parked bit is being set.
    Marking,
    /// A processor hint is being issued until the holder leaves.
    Spinning,
    /// The lock word is being read to see whether the holder left.
    Watching,
    /// The lock is held.
    Held,
}

/// The kind of reply that an access made in a phase gives.
pub open spec fn spin_expects(phase: SpinPhase, reply: Reply) -> bool {
    match phase {
        SpinPhase::Start | SpinPhase::Resting | SpinPhase::Spinning => reply == Reply::Nothing,
        SpinPhase::Loading | SpinPhase::Watching => reply is Word,
        SpinPhase::Claiming | SpinPhase::Marking => reply is Took || reply is Lost,
        SpinPhase::Held => false,
    }
}

/// A spin: as many hints as the backoff's step asks for, and one step on while the steps are
/// spinning ones.
pub open spec fn spins(before: Backoff, after: Backoff, op: LockOp) -> bool {
    let spinning = before.step() <= before.spin_limit();
    &&& op matches LockOp::Rest { pause: Pause::Spun(hints) } && hints == pow2(
        if spinning {
            before.step()
        } else {
            before.spin_limit()
        },
    )
    &&& after.at_step(
        before,
        if spinning {
            before.step() + 1
        } else {
            before.step()
        },
    )
}

/// One thread's attempt at the exclusive lock.
#[derive(Debug)]
pub struct SpinExclusive {
    /// Where the attempt stands.
    pub phase: SpinPhase,
    /// The lock word as last seen.
    pub state: usize,
    /// The bits to set when the lock is taken: the writers-parked bit after a spin.
    pub acquire_with: usize,
    /// How long the attempt has backed off.
    pub backoff: Backoff,
}

impl SpinExclusive {
    /// The bits to set are none or the writers-parked bit.
    pub open spec fn wf(self) -> bool {
        &&& self.backoff.wf()
        &&& self.acquire_with == UNLOCKED || self.acquire_with == WRITERS_PARKED
    }

    /// What an attempt does that has just seen the lock word `word`: it takes a free lock; it
    /// backs off from a held one and, when it has backed off long enough, sets the
    /// writers-parked bit; and where that bit is set it spins, from the first step on.
    pub open spec fn decides(self, before: Self, word: usize, op: LockOp) -> bool {
        &&& self.state == word
        &&& self.acquire_with == before.acquire_with
        &&& if decode(word).is_free() {
            &&& op == LockOp::Claim {
                current: word,
                new: word | ONE_WRITER | before.acquire_with,
            }
            &&& self.phase == SpinPhase::Claiming
            &&& self.backoff == before.backoff
        } else if !decode(word).writers_parked {
            if before.backoff.step() <= before.backoff.yield_limit() {
                &&& op matches LockOp::Rest { pause } && before.backoff.snoozes(pause)
                &&& self.phase == SpinPhase::Resting
                &&& self.backoff.at_step(before.backoff, before.backoff.step() + 1)
            } else {
                &&& op == LockOp::Mark { current: word, new: word | WRITERS_PARKED }
                &&& self.phase == SpinPhase::Marking
                &&& self.backoff == before.backoff
            }
        } else {
            self.starts_to_spin(before, op)
        }
    }

    /// The attempt starts to spin.
    pub open spec fn starts_to_spin(self, before: Self, op: LockOp) -> bool {
        &&& op == LockOp::Rest { pause: Pause::Spun(1) }
        &&& self.phase == SpinPhase::Spinning
        &&& self.backoff.at_step(before.backoff, 1)
        &&& self.acquire_with == before.acquire_with
    }

    /// A new attempt.
    pub fn new(backoff: Backoff) -> (attempt: Self)
        requires
            backoff.wf(),
        ensures
            attempt.wf(),
            attempt.phase == SpinPhase::Start,
            attempt.acquire_with == UNLOCKED,
            attempt.backoff == backoff,
    {
        SpinExclusive { phase: SpinPhase::Start, state: UNLOCKED, acquire_with: UNLOCKED, backoff }
    }

    fn start_to_spin(&mut self) -> (op: LockOp)
        requires
            old(self).wf(),
        ensures
            final(self).wf(),
            final(self).state == old(self).state,
            final(self).starts_to_spin(*old(self), op),
    {
        proof {
            vstd::arithmetic::power2::lemma2_to64();
        }
        self.backoff.reset();
        self.phase = SpinPhase::Spinning;
        LockOp::Rest { pause: Pause::Spun(self.backoff.spin()) }
    }

    fn decide(&mut self, word: usize) -> (op: LockOp)
        requires
            old(self).wf(),
        ensures
            final(self).wf(),
            final(self).decides(*old(self), word, op),
    {
        proof {
            lemma_word_bits(word);
        }
        self.state = word;
        if word & ONE_WRITER == 0 {
            self.phase = SpinPhase::Claiming;
            return LockOp::Claim { current: word, new: word | ONE_WRITER | self.acquire_with };
        }
        if word & WRITERS_PARKED == 0 {
            if !self.backoff.is_completed() {
                self.phase = SpinPhase::Resting;
                let pause = self.backoff.snooze();
                return LockOp::Rest { pause };
            }
            self.phase = SpinPhase::Marking;
            return LockOp::Mark { current: word, new: word | WRITERS_PARKED };
        }
        self.start_to_spin()
    }

    /// Takes what the last access found and says which access comes next. After a backoff
    /// step the attempt goes by the word it saw before it. A spin that sees the holder gone
    /// takes the lock with the writers-parked bit from then on.
    pub fn step(&mut self, reply: Reply) -> (op: LockOp)
        requires
            old(self).wf(),
            spin_expects(old(self).phase, reply),
        ensures
            final(self).wf(),
            match (old(self).phase, reply) {
                (SpinPhase::Start, _) => {
                    &&& op == LockOp::Load
                    &&& final(self).phase == SpinPhase::Loading
                    &&& final(self).acquire_with == old(self).acquire_with
                    &&& final(self).backoff == old(self).backoff
                },
                (SpinPhase::Loading, Reply::Word { value }) => final(self).decides(
                    *old(self),
                    value,
                    op,
                ),
                (SpinPhase::Resting, _) => final(self).decides(*old(self), old(self).state, op),
                (SpinPhase::Claiming, Reply::Took) => {
                    &&& op == LockOp::Acquired
                    &&& final(self).phase == SpinPhase::Held
                },
                (SpinPhase::Marking, Reply::Took) => final(self).starts_to_spin(*old(self), op),
                (_, Reply::Lost { value }) => final(self).decides(*old(self), value, op),
                (SpinPhase::Spinning, _) => {
                    &&& op == LockOp::Load
                    &&& final(self).phase == SpinPhase::Watching
                    &&& final(self).acquire_with == old(self).acquire_with
                    &&& final(self).backoff == old(self).backoff
                },
                (SpinPhase::Watching, Reply::Word { value }) => {
                    &&& final(self).state == value
                    &&& if decode(value).is_free() {
                        &&& op == (LockOp::Claim {
                            current: value,
                            new: value | ONE_WRITER | WRITERS_PARKED,
                        })
                        &&& final(self).phase == SpinPhase::Claiming
                        &&& final(self).acquire_with == WRITERS_PARKED
                        &&& final(self).backoff.at_step(old(self).backoff, 0)
                    } else {
                        &&& spins(old(self).backoff, final(self).backoff, op)
                        &&& final(self).phase == SpinPhase::Spinning
                        &&& final(self).acquire_with == old(self).acquire_with
                    }
                },
                _ => false,
            },
    {
        match (self.phase, reply) {
            (SpinPhase::Start, _) => {
                self.phase = SpinPhase::Loading;
                LockOp::Load
            },
            (SpinPhase::Loading, Reply::Word { value }) => self.decide(value),
            (SpinPhase::Resting, _) => {
                let word: usize = self.state;
                self.decide(word)
            },
            (SpinPhase::Claiming, Reply::Took) => {
                self.phase = SpinPhase::Held;
                LockOp::Acquired
            },
            (SpinPhase::Marking, Reply::Took) => self.start_to_spin(),
            (_, Reply::Lost { value }) => self.decide(value),
            (SpinPhase::Watching, Reply::Word { value }) => {
                proof {
                    lemma_word_bits(value);
                }
                self.state = value;
                if value & ONE_WRITER != 0 {
                    self.phase = SpinPhase::Spinning;
                    LockOp::Rest { pause: Pause::Spun(self.backoff.spin()) }
                } else {
                    self.backoff.reset();
                    self.acquire_with = WRITERS_PARKED;
                    self.decide(value)
                }
            },
            _ => {
                self.phase = SpinPhase::Watching;
                LockOp::Load
            },
        }
    }
}

/// One thread's attempt at a shared lock.
#[derive(Debug)]
pub struct SpinShared {
    /// Where the attempt stands.
    pub phase: SpinPhase,
    /// How long the attempt has backed off.
    pub backoff: Backoff,
}

impl SpinShared {
    /// The backoff is in order.
    pub open spec fn wf(self) -> bool {
        self.backoff.wf()
    }

    /// What an attempt does that has just seen the lock word `word`: it joins the readers
    /// unless a writer holds the lock; it backs off from a writer and, when it has backed off
    /// long enough, sets the readers-parked bit; and where that bit is set it spins, from the
    /// first step on.
    pub open spec fn decides(self, before: Self, word: usize, op: LockOp) -> bool {
        if !decode(word).writer {
            &&& op matches LockOp::Claim { current, new } && current == word && decode(new)
                == with_one_more_reader(decode(word))
            &&& self.phase == SpinPhase::Claiming
            &&& self.backoff == before.backoff
        } else if !decode(word).readers_parked {
            if before.backoff.step() <= before.backoff.yield_limit() {
                &&& op matches LockOp::Rest { pause } && before.backoff.snoozes(pause)
                &&& self.phase == SpinPhase::Resting
                &&& self.backoff.at_step(before.backoff, before.backoff.step() + 1)
            } else {
                &&& op == LockOp::Mark { current: word, new: word | READERS_PARKED }
                &&& self.phase == SpinPhase::Marking
                &&& self.backoff == before.backoff
            }
        } else {
            self.starts_to_spin(before, op)
        }
    }

    /// The attempt starts to spin.
    pub open spec fn starts_to_spin(self, before: Self, op: LockOp) -> bool {
        &&& op == LockOp::Rest { pause: Pause::Spun(1) }
        &&& self.phase == SpinPhase::Spinning
        &&& self.backoff.at_step(before.backoff, 1)
    }

    /// A new attempt.
    pub fn new(backoff: Backoff) -> (attempt: Self)
        requires
            backoff.wf(),
        ensures
            attempt.wf(),
            attempt.phase == SpinPhase::Start,
            attempt.backoff == backoff,
    {
        SpinShared { phase: SpinPhase::Start, backoff }
    }

    fn start_to_spin(&mut self) -> (op: LockOp)
        requires
            old(self).wf(),
        ensures
            final(self).wf(),
            final(self).starts_to_spin(*old(self), op),
    {
        proof {
            vstd::arithmetic::power2::lemma2_to64();
        }
        self.backoff.reset();
        self.phase = SpinPhase::Spinning;
        LockOp::Rest { pause: Pause::Spun(self.backoff.spin()) }
    }

    fn decide(&mut self, word: usize) -> (op: LockOp)
        requires
            old(self).wf(),
        ensures
            final(self).wf(),
            final(self).decides(*old(self), word, op),
    {
        match shared_claim_slow(word) {
            Some(new) => {
                self.phase = SpinPhase::Claiming;
                return LockOp::Claim { current: word, new };
            },
            None => {},
        }
        if !has_parked_readers(word) {
            if !self.backoff.is_completed() {
                self.phase = SpinPhase::Resting;
                let pause = self.backoff.snooze();
                return LockOp::Rest { pause };
            }
            self.phase = SpinPhase::Marking;
            return LockOp::Mark { current: word, new: word | READERS_PARKED };
        }
        self.start_to_spin()
    }

    /// Takes what the last access found and says which access comes next. After a backoff
    /// step, a lost replacement or a writer that left, the word is read anew.
    pub fn step(&mut self, reply: Reply) -> (op: LockOp)
        requires
            old(self).wf(),
            spin_expects(old(self).phase, reply),
        ensures
            final(self).wf(),
            match (old(self).phase, reply) {
                (SpinPhase::Loading, Reply::Word { value }) => final(self).decides(
                    *old(self),
                    value,
                    op,
                ),
                (SpinPhase::Claiming, Reply::Took) => {
                    &&& op == LockOp::Acquired
                    &&& final(self).phase == SpinPhase::Held
                },
                (SpinPhase::Marking, Reply::Took) => final(self).starts_to_spin(*old(self), op),
                (SpinPhase::Spinning, _) => {
                    &&& op == LockOp::Load
                    &&& final(self).phase == SpinPhase::Watching
                    &&& final(self).backoff == old(self).backoff
                },
                (SpinPhase::Watching, Reply::Word { value }) => {
                    if decode(value).writer {
                        &&& spins(old(self).backoff, final(self).backoff, op)
                        &&& final(self).phase == SpinPhase::Spinning
                    } else {
                        &&& op == LockOp::Load
                        &&& final(self).phase == SpinPhase::Loading
                        &&& final(self).backoff.at_step(old(self).backoff, 0)
                    }
                },
                _ => {
                    &&& op == LockOp::Load
                    &&& final(self).phase == SpinPhase::Loading
                    &&& final(self).backoff == old(self).backoff
                },
            },
    {
        match (self.phase, reply) {
            (SpinPhase::Loading, Reply::Word { value }) => self.decide(value),
            (SpinPhase::Claiming, Reply::Took) => {
                self.phase = SpinPhase::Held;
                LockOp::Acquired
            },
            (SpinPhase::Marking, Reply::Took) => self.start_to_spin(),
            (SpinPhase::Spinning, _) => {
                self.phase = SpinPhase::Watching;
                LockOp::Load
            },
            (SpinPhase::Watching, Reply::Word { value }) => {
                if is_writer_locked(value) {
                    self.phase = SpinPhase::Spinning;
                    LockOp::Rest { pause: Pause::Spun(self.backoff.spin()) }
                } else {
                    self.backoff.reset();
                    self.phase = SpinPhase::Loading;
                    LockOp::Load
                }
            },
            _ => {
                self.phase = SpinPhase::Loading;
                LockOp::Load
            },
        }
    }
}

/// A writer that leaves leaves no holder. Parked readers are let in first, so that writers stay
/// announced exactly where readers were parked as well.
pub proof fn lemma_spin_release(lock: LockView)
    requires
        lock.writer ==> lock.readers == 0,
    ensures
        lock.writer ==> {
            &&& !spin_released(lock).writer
            &&& spin_released(lock).readers == 0
            &&& !spin_released(lock).readers_parked
            &&& spin_released(lock).writers_parked <==> lock.writers_parked
                && lock.readers_parked
        },
        !lock.writer && !lock.readers_parked && !lock.writers_parked ==> spin_released(lock)
            == lock,
        lock.readers_parked || lock.writers_parked ==> spin_released(lock).is_free(),
{
}

/// A reader that leaves is one reader less, and the parked bits stay; the last one clears the
/// word where writers, and no readers, are parked.
pub proof fn lemma_spin_leave(lock: LockView)
    requires
        !lock.writer,
        lock.readers > 0,
    ensures
        !spin_left(lock).writer,
        spin_left(lock).readers == lock.readers - 1,
        spin_left(lock).readers_parked == lock.readers_parked,
        spin_left(lock).writers_parked <==> {
            &&& lock.writers_parked
            &&& lock.readers > 1 || lock.readers_parked
        },
{
}

/// Spins grow: one hint at step zero, twice as many at each step that follows, up to the spin
/// limit, and no more after that. The step counter stops one past the limit.
pub proof fn lemma_spins_double(
    before: Backoff,
    middle: Backoff,
    after: Backoff,
    first: LockOp,
    second: LockOp,
)
    requires
        spins(before, middle, first),
        spins(middle, after, second),
    ensures
        first matches LockOp::Rest { pause: Pause::Spun(fewer) } && (second matches LockOp::Rest {
            pause: Pause::Spun(more),
        } && {
            &&& before.step() == 0 ==> fewer == 1
            &&& before.step() < before.spin_limit() ==> more == 2 * fewer
            &&& before.step() >= before.spin_limit() ==> more == fewer
        }),
        before.step() <= before.spin_limit() ==> middle.step() == before.step() + 1,
        before.step() > before.spin_limit() ==> middle.step() == before.step(),
        middle.spin_limit() == before.spin_limit(),
        middle.yield_limit() == before.yield_limit(),
        after.spin_limit() == before.spin_limit(),
{
    vstd::arithmetic::power2::lemma2_to64();
    vstd::arithmetic::power2::lemma_pow2_unfold(before.step() + 1);
}

impl SpinExclusive {
    /// What an attempt does on seeing a word. It goes for the lock exactly where the word counts
    /// no holder, and what it would install counts the writer and keeps the parked bits. From a
    /// held lock it backs off until it has backed off long enough, and announces that it waits
    /// where nobody is announced. Where somebody is, it spins, from the first step on. Whatever
    /// it does, it waits for the reply that this access gives.
    pub proof fn lemma_decisions(self, before: Self, word: usize, op: LockOp)
        requires
            before.wf(),
            self.decides(before, word, op),
        ensures
            self.state == word,
            self.acquire_with == before.acquire_with,
            op is Claim <==> word < 4,
            op matches LockOp::Claim { current, new } ==> {
                &&& current == word
                &&& new as int / 4 == usize::MAX as int / 4
                &&& new as int % 2 == word as int % 2
                &&& (new as int / 2) % 2 == if before.acquire_with == 2 {
                    1
                } else {
                    (word as int / 2) % 2
                }
            },
            op is Mark <==> {
                &&& word >= 4
                &&& (word as int / 2) % 2 == 0
                &&& before.backoff.step() > before.backoff.yield_limit()
            },
            op matches LockOp::Mark { current, new } ==> current == word && new == word + 2,
            op is Rest <==> {
                &&& word >= 4
                &&& (word as int / 2) % 2 == 1 || before.backoff.step() <= before.backoff.yield_limit()
            },
            self.phase == SpinPhase::Resting ==> {
                &&& (word as int / 2) % 2 == 0
                &&& op matches LockOp::Rest { pause } && before.backoff.snoozes(pause)
                &&& self.backoff.step() == before.backoff.step() + 1
            },
            self.phase == SpinPhase::Spinning ==> {
                &&& (word as int / 2) % 2 == 1
                &&& op == LockOp::Rest { pause: Pause::Spun(1) }
                &&& self.backoff.step() == 1
            },
            op !is Rest ==> self.backoff == before.backoff,
            self.backoff.spin_limit() == before.backoff.spin_limit(),
            self.backoff.yield_limit() == before.backoff.yield_limit(),
            op is Claim <==> self.phase == SpinPhase::Claiming,
            op is Mark <==> self.phase == SpinPhase::Marking,
            op is Rest <==> self.phase == SpinPhase::Resting || self.phase == SpinPhase::Spinning,
            op is Claim || op is Mark || op is Rest,
            forall|reply: Reply|
                #[trigger] spin_expects(self.phase, reply) <==> {
                    ||| (op is Claim || op is Mark) && (reply is Took || reply is Lost)
                    ||| op is Rest && reply is Nothing
                },
    {
        lemma_word_bits(word);
        if decode(word).is_free() {
            lemma_claim_word(word, before.acquire_with);
        }
        assert((word / 2) % 2 == 0 ==> word | 2 == word + 2) by (bit_vector);
    }
}

impl SpinShared {
    /// What an attempt does on seeing a word. It joins exactly where no writer holds the lock,
    /// and what it would install counts one holder more and keeps the parked bits. From a writer
    /// it backs off until it has backed off long enough, and announces that it waits where
    /// nobody is announced. Where somebody is, it spins, from the first step on. Whatever it
    /// does, it waits for the reply that this access gives.
    pub proof fn lemma_decisions(self, before: Self, word: usize, op: LockOp)
        requires
            before.wf(),
            self.decides(before, word, op),
        ensures
            op is Claim <==> word as int / 4 < usize::MAX as int / 4,
            op matches LockOp::Claim { current, new } ==> {
                &&& current == word
                &&& new == word + 4
            },
            op is Mark <==> {
                &&& word as int / 4 == usize::MAX as int / 4
                &&& word as int % 2 == 0
                &&& before.backoff.step() > before.backoff.yield_limit()
            },
            op matches LockOp::Mark { current, new } ==> current == word && new == word + 1,
            op is Rest <==> {
                &&& word as int / 4 == usize::MAX as int / 4
                &&& word as int % 2 == 1 || before.backoff.step() <= before.backoff.yield_limit()
            },
            self.phase == SpinPhase::Resting ==> {
                &&& word as int % 2 == 0
                &&& op matches LockOp::Rest { pause } && before.backoff.snoozes(pause)
                &&& self.backoff.step() == before.backoff.step() + 1
            },
            self.phase == SpinPhase::Spinning ==> {
                &&& word as int % 2 == 1
                &&& op == LockOp::Rest { pause: Pause::Spun(1) }
                &&& self.backoff.step() == 1
            },
            op !is Rest ==> self.backoff == before.backoff,
            self.backoff.spin_limit() == before.backoff.spin_limit(),
            self.backoff.yield_limit() == before.backoff.yield_limit(),
            op is Claim <==> self.phase == SpinPhase::Claiming,
            op is Mark <==> self.phase == SpinPhase::Marking,
            op is Rest <==> self.phase == SpinPhase::Resting || self.phase == SpinPhase::Spinning,
            op is Claim || op is Mark || op is Rest,
            forall|reply: Reply|
                #[trigger] spin_expects(self.phase, reply) <==> {
                    ||| (op is Claim || op is Mark) && (reply is Took || reply is Lost)
                    ||| op is Rest && reply is Nothing
                },
    {
        lemma_word_bits(word);
        lemma_add_reader_word(word);
        assert(word / 4 <= usize::MAX / 4);
        if op is Claim {
            lemma_decode_injective(op->Claim_new, (word + 4) as usize);
        }
        assert(word % 2 == 0 ==> word | 1 == word + 1) by (bit_vector);
    }
}

/// A word that is read gives a word, a replacement takes place or does not, and nothing else has a
/// reply; an attempt that holds the lock waits for none.
pub proof fn lemma_spin_replies(phase: SpinPhase, reply: Reply)
    ensures
        reply is Word ==> (spin_expects(phase, reply) <==> phase == SpinPhase::Loading || phase
            == SpinPhase::Watching),
        reply is Took || reply is Lost ==> (spin_expects(phase, reply) <==> phase
            == SpinPhase::Claiming || phase == SpinPhase::Marking),
        reply is Nothing ==> (spin_expects(phase, reply) <==> phase == SpinPhase::Start || phase
            == SpinPhase::Resting || phase == SpinPhase::Spinning),
        spin_expects(phase, reply) ==> phase != SpinPhase::Held,
{
}

} // verus!
