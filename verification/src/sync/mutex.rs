//! A reader-writer mutex without a payload.
//!
//! [`Mutex`] is the record that the threads share: the lock word, the two counters that
//! parked threads watch, and the number of handles. Each method is one atomic transition of
//! that record. Where a thread may have to retry or to sleep, its side of the conversation
//! is a machine ([`LockExclusive`], [`LockShared`]) that says which access to make next and
//! is told what the access found.

use crate::base::backoff::{Backoff, Pause};
use crate::sync::lock_word::{
    is_writer_locked, readers_count, ONE_READER, ONE_WRITER, READERS_PARKED, UNLOCKED,
    WRITERS_PARKED,
};
use vstd::prelude::*;

verus! {

use crate::base::futex::{lemma_counted_on_is_no_sleep, lower_half};
use crate::bits::{bumped, bumped_times, lemma_wrapping_count, lowered};
use crate::sync::lock_word::{
    decode, lemma_add_reader_word, lemma_claim_word, lemma_constant_words, lemma_decode_injective,
    lemma_remove_readers_word, lemma_word_bits, max_readers, LockView,
};

/// The two groups of threads that sleep on a mutex.
#[derive(Clone, Copy, Debug, PartialEq, Eq, Structural)]
pub enum Queue {
    /// Threads that wait for a shared lock.
    Readers,
    /// Threads that wait for the exclusive lock.
    Writers,
}

/// Whom a release has to wake.
#[derive(Clone, Copy, Debug, PartialEq, Eq, Structural)]
pub struct Wake {
    /// Wake one parked writer.
    pub writer: bool,
    /// Wake all parked readers.
    pub readers: bool,
}

/// The next access that a lock attempt makes to the shared record.
#[derive(Clone, Copy, Debug, PartialEq, Eq, Structural)]
pub enum LockOp {
    /// Read the lock word.
    Load,
    /// Take the lock: replace the word `current` by `new`, if it still is `current`.
    Claim { current: usize, new: usize },
    /// Announce a sleeper: replace the word `current` by `new`, if it still is `current`.
    Mark { current: usize, new: usize },
    /// Read the counter that the queue's sleepers watch.
    LoadKey { queue: Queue },
    /// Sleep on the queue while its counter is `key`.
    Wait { queue: Queue, key: usize },
    /// Back off for a moment.
    Rest { pause: Pause },
    /// The lock is held; there is nothing left to do.
    Acquired,
}

/// What an access found.
#[derive(Clone, Copy, Debug, PartialEq, Eq, Structural)]
pub enum Reply {
    /// The access has no result.
    Nothing,
    /// The word that was read.
    Word { value: usize },
    /// The replacement took place.
    Took,
    /// The replacement did not take place; this word was there.
    Lost { value: usize },
}

/// What a mutex says.
pub struct MutexView {
    /// The lock word, decoded.
    pub lock: LockView,
    /// The counter that parked readers watch.
    pub readers_futex: usize,
    /// The counter that parked writers watch.
    pub writers_futex: usize,
    /// How many handles share the mutex.
    pub ref_count: usize,
}

impl MutexView {
    /// A mutex that nobody holds, with one handle.
    pub open spec fn fresh() -> Self {
        MutexView {
            lock: LockView::unlocked(),
            readers_futex: 0,
            writers_futex: 0,
            ref_count: 1,
        }
    }

    /// The mutex after a writer took it.
    pub open spec fn claimed(self) -> Self {
        MutexView { lock: self.lock.with_writer(), ..self }
    }

    /// The mutex after one more reader came in.
    pub open spec fn entered(self) -> Self {
        MutexView { lock: with_one_more_reader(self.lock), ..self }
    }

    /// The mutex after a writer gave it up: the word is cleared, and the counter of a queue
    /// that is woken moves on.
    pub open spec fn released(self) -> Self {
        MutexView {
            lock: LockView::unlocked(),
            readers_futex: if self.lock.readers_parked {
                bumped(self.readers_futex)
            } else {
                self.readers_futex
            },
            writers_futex: if self.lock.writers_parked {
                bumped(self.writers_futex)
            } else {
                self.writers_futex
            },
            ref_count: self.ref_count,
        }
    }

    /// The mutex after one reader left. The last one hands over to a parked writer.
    pub open spec fn left(self) -> Self {
        if hands_over(self.lock) {
            MutexView {
                lock: LockView::unlocked(),
                writers_futex: bumped(self.writers_futex),
                ..self
            }
        } else {
            MutexView { lock: without_reader(self.lock), ..self }
        }
    }

    /// The mutex with one handle more.
    pub open spec fn with_handle(self) -> Self {
        MutexView { ref_count: bumped(self.ref_count), ..self }
    }

    /// The mutex with one handle less.
    pub open spec fn without_handle(self) -> Self {
        MutexView { ref_count: lowered(self.ref_count), ..self }
    }
}

/// Taking and giving up the exclusive lock leaves a mutex that nobody waits for as it was.
pub proof fn lemma_exclusive_round_trip(mutex: MutexView)
    requires
        mutex.lock == LockView::unlocked(),
    ensures
        mutex.claimed().released() == mutex,
        mutex.claimed().lock.writer,
{
}

/// Taking and giving up a shared lock leaves the mutex as it was, if no writer holds it and
/// the reader that leaves does not hand over to a parked writer.
pub proof fn lemma_shared_round_trip(mutex: MutexView)
    requires
        !mutex.lock.writer,
        mutex.lock.readers <= max_readers(),
        !hands_over(mutex.entered().lock),
    ensures
        mutex.entered().left() == mutex,
{
}

/// A handle that is taken over and given up leaves the count as it was.
pub proof fn lemma_handle_round_trip(mutex: MutexView)
    ensures
        mutex.with_handle().without_handle() == mutex,
{
}

/// A release does not leave those asleep that it has to wake: the counter that they watch
/// moves on, so that a thread that read it before the release and was about to sleep does not.
pub proof fn lemma_release_keeps_from_sleep(mutex: MutexView)
    ensures
        mutex.lock.writers_parked ==> lower_half(mutex.released().writers_futex) != lower_half(
            mutex.writers_futex,
        ),
        mutex.lock.readers_parked ==> lower_half(mutex.released().readers_futex) != lower_half(
            mutex.readers_futex,
        ),
        hands_over(mutex.lock) ==> lower_half(mutex.left().writers_futex) != lower_half(
            mutex.writers_futex,
        ),
{
    reveal_with_fuel(bumped_times, 2);
    lemma_counted_on_is_no_sleep(mutex.writers_futex, 1);
    lemma_counted_on_is_no_sleep(mutex.readers_futex, 1);
}

/// A summary of a mutex for people to read.
#[derive(Clone, Copy, Debug, PartialEq, Eq, Structural)]
pub struct MutexReport {
    /// The lock word.
    pub state: usize,
    /// A writer holds the lock.
    pub exclusive_locked: bool,
    /// How many readers hold the lock.
    pub readers_count: usize,
    /// Readers wait.
    pub readers_parked: bool,
    /// Writers wait.
    pub writers_parked: bool,
    /// How many handles share the mutex.
    pub ref_count: usize,
}

/// The shared record of a reader-writer mutex.
#[derive(Debug)]
pub struct Mutex {
    state: usize,
    readers_futex: usize,
    writers_futex: usize,
    ref_count: usize,
}

/// The lock word after one reader left. A word without readers wraps around: it counts as
/// held by a writer, and a writer's word as held by the largest number of readers.
pub open spec fn without_reader(lock: LockView) -> LockView {
    if lock.writer {
        lock.with_readers(max_readers())
    } else if lock.readers == 0 {
        lock.with_writer()
    } else {
        lock.with_readers((lock.readers - 1) as nat)
    }
}

/// The lock word after one more reader came in. One reader too many reads as a writer.
pub open spec fn with_one_more_reader(lock: LockView) -> LockView {
    if lock.readers < max_readers() {
        lock.with_readers(lock.readers + 1)
    } else {
        lock.with_writer()
    }
}

/// The last reader left while writers were parked: the word is cleared and one writer woken.
pub open spec fn hands_over(lock: LockView) -> bool {
    lock == LockView::unlocked().with_readers(1).with_writers_parked()
}

pub proof fn lemma_remove_one_wrapping(word: usize)
    ensures
        decode(word.wrapping_sub(ONE_READER)) == without_reader(decode(word)),
{
    lemma_constant_words();
    lemma_word_bits(word);
    if word >= 4 {
        if !decode(word).writer {
            lemma_remove_readers_word(word, 1);
        } else {
            let n = (word - 4) as usize;
            lemma_add_reader_word(n);
            assert(n / 4 == usize::MAX / 4 - 1);
            assert(n % 2 == word % 2);
            assert((n / 2) % 2 == (word / 2) % 2);
        }
    } else {
        let n = word.wrapping_sub(4);
        assert(n == word + ONE_WRITER);
        assert(n / 4 == usize::MAX / 4);
        assert(n % 2 == word % 2);
        assert((n / 2) % 2 == (word / 2) % 2);
    }
}

/// The word that a reader installs on top of `state`: `None` when a writer holds the lock or
/// the word can count no more readers.
pub fn shared_claim(state: usize) -> (new: Option<usize>)
    ensures
        new is Some <==> !decode(state).writer && decode(state).readers < max_readers(),
        new matches Some(word) ==> decode(word) == decode(state).with_readers(
            decode(state).readers + 1,
        ),
{
    proof {
        lemma_add_reader_word(state);
    }
    match state.checked_add(ONE_READER) {
        Some(new) => {
            if is_writer_locked(new) {
                None
            } else {
                Some(new)
            }
        },
        None => None,
    }
}

/// The word that a parked reader's retry installs on top of `state`: `None` when a writer
/// holds the lock. It does not look for the largest count.
pub fn shared_claim_slow(state: usize) -> (new: Option<usize>)
    ensures
        new is Some <==> !decode(state).writer,
        new matches Some(word) ==> decode(word) == with_one_more_reader(decode(state)),
{
    proof {
        lemma_add_reader_word(state);
    }
    state.checked_add(ONE_READER)
}

/// The word without any of the readers of `state`; `None` when there are none.
pub fn without_readers(state: usize) -> (new: Option<usize>)
    ensures
        new is Some <==> decode(state).readers > 0,
        new matches Some(word) ==> decode(word) == decode(state).with_readers(0),
{
    let count: usize = readers_count(state);
    if count == 0 {
        return None;
    }
    proof {
        lemma_remove_readers_word(state, count);
        vstd::arithmetic::div_mod::lemma_small_mod(
            (ONE_READER * count) as nat,
            (usize::MAX + 1) as nat,
        );
        assert(ONE_READER.wrapping_mul(count) == ONE_READER * count);
    }
    let readers_to_remove: usize = ONE_READER.wrapping_mul(count);
    Some(state.wrapping_sub(readers_to_remove))
}

/// The word of a writer that goes on as one reader.
pub fn downgraded(state: usize) -> (new: usize)
    ensures
        decode(new) == decode(state).with_readers(1),
{
    proof {
        lemma_word_bits(state);
        lemma_constant_words();
        lemma_downgraded(state);
    }
    (state & !ONE_WRITER) + ONE_READER
}

proof fn lemma_downgraded(state: usize)
    ensures
        (state & !ONE_WRITER) <= 3,
        decode(((state & !ONE_WRITER) + ONE_READER) as usize) == decode(state).with_readers(1),
{
    assert(state & !!3usize == state % 4) by (bit_vector);
    let n = (state % 4 + 4) as usize;
    assert(n % 2 == state % 2);
    assert((n / 2) % 2 == (state / 2) % 2);
    assert(n / 4 == 1);
}

/// Whether the word says that readers are parked.
pub fn has_parked_readers(state: usize) -> (parked: bool)
    ensures
        parked == decode(state).readers_parked,
{
    proof {
        lemma_word_bits(state);
    }
    state & READERS_PARKED != 0
}

/// Whether the word says that writers are parked.
pub fn has_parked_writers(state: usize) -> (parked: bool)
    ensures
        parked == decode(state).writers_parked,
{
    proof {
        lemma_word_bits(state);
    }
    state & WRITERS_PARKED != 0
}

/// Whether the word that the last reader found asks it to hand the lock to a parked writer.
pub fn hands_over_to_writer(previous: usize) -> (hand_over: bool)
    ensures
        hand_over == hands_over(decode(previous)),
{
    proof {
        lemma_constant_words();
        if hands_over(decode(previous)) {
            lemma_decode_injective(previous, ONE_READER | WRITERS_PARKED);
        }
    }
    previous == (ONE_READER | WRITERS_PARKED)
}

impl View for Mutex {
    type V = MutexView;

    closed spec fn view(&self) -> MutexView {
        MutexView {
            lock: decode(self.state),
            readers_futex: self.readers_futex,
            writers_futex: self.writers_futex,
            ref_count: self.ref_count,
        }
    }
}

impl Mutex {
    /// The lock word itself.
    pub closed spec fn word(self) -> usize {
        self.state
    }

    /// A mutex that nobody holds, with one handle.
    pub fn new() -> (mutex: Self)
        ensures
            mutex@ == MutexView::fresh(),
            mutex.word() == UNLOCKED,
    {
        proof {
            lemma_constant_words();
        }
        Mutex { state: UNLOCKED, readers_futex: 0, writers_futex: 0, ref_count: 1 }
    }

    /// How many handles share the mutex.
    pub fn get_ref_count(&self) -> (count: usize)
        ensures
            count == self@.ref_count,
    {
        self.ref_count
    }

    /// How many readers hold the lock.
    pub fn get_shared_locked(&self) -> (count: usize)
        ensures
            count == self@.lock.readers,
    {
        readers_count(self.state)
    }

    /// Whether a writer holds the lock.
    pub fn is_locked_exclusive(&self) -> (locked: bool)
        ensures
            locked == self@.lock.writer,
    {
        is_writer_locked(self.state)
    }

    /// Whether readers hold the lock.
    pub fn is_locked_shared(&self) -> (locked: bool)
        ensures
            locked == (!self@.lock.writer && self@.lock.readers > 0),
    {
        !is_writer_locked(self.state) && readers_count(self.state) > 0
    }

    /// Whether anyone holds the lock, as a writer or as a reader.
    pub fn is_locked(&self) -> (locked: bool)
        ensures
            locked == !self@.lock.is_free(),
    {
        is_writer_locked(self.state) || readers_count(self.state) > 0
    }

    /// Takes the exclusive lock if the word says unlocked, parked bits included.
    pub fn try_lock_exclusive(&mut self) -> (taken: bool)
        ensures
            taken == (old(self)@.lock == LockView::unlocked()),
            !taken ==> *final(self) == *old(self),
            final(self)@ == (MutexView {
                lock: if taken {
                    LockView::unlocked().with_writer()
                } else {
                    old(self)@.lock
                },
                ..old(self)@
            }),
    {
        proof {
            lemma_constant_words();
            if old(self)@.lock == LockView::unlocked() {
                lemma_decode_injective(old(self).state, UNLOCKED);
            }
        }
        if self.state == UNLOCKED {
            self.state = ONE_WRITER;
            true
        } else {
            false
        }
    }

    /// Takes the exclusive lock. The lock has to be free: a thread that finds a holder waits
    /// as [`LockExclusive`] says.
    pub fn lock_exclusive(&mut self)
        requires
            old(self)@.lock.is_free(),
        ensures
            final(self)@ == old(self)@.claimed(),
    {
        if !self.try_lock_exclusive() {
            self.lock_exclusive_slow();
        }
    }

    /// Makes the accesses of a [`LockExclusive`] until it holds the lock.
    fn lock_exclusive_slow(&mut self)
        requires
            old(self)@.lock.is_free(),
        ensures
            final(self)@ == old(self)@.claimed(),
    {
        let mut attempt = LockExclusive::new(Backoff::new(1));
        let mut op = attempt.step(Reply::Nothing);
        proof {
            lemma_claim_word(old(self).state, UNLOCKED);
        }
        while op != LockOp::Acquired
            invariant
                attempt.wf(),
                old(self)@.lock.is_free(),
                self.readers_futex == old(self).readers_futex,
                self.writers_futex == old(self).writers_futex,
                self.ref_count == old(self).ref_count,
                decode(old(self).state | ONE_WRITER | UNLOCKED)
                    == old(self)@.lock.with_writer(),
                match attempt.phase {
                    ExclusivePhase::Loading => {
                        &&& op == LockOp::Load
                        &&& self.state == old(self).state
                        &&& attempt.acquire_with == UNLOCKED
                    },
                    ExclusivePhase::Claiming => {
                        &&& op == (LockOp::Claim {
                            current: old(self).state,
                            new: old(self).state | ONE_WRITER | UNLOCKED,
                        })
                        &&& self.state == old(self).state
                    },
                    ExclusivePhase::Held => {
                        &&& op == LockOp::Acquired
                        &&& self.state == old(self).state | ONE_WRITER | UNLOCKED
                    },
                    _ => false,
                },
            decreases
                match attempt.phase {
                    ExclusivePhase::Loading => 2int,
                    ExclusivePhase::Claiming => 1int,
                    _ => 0int,
                },
        {
            let reply = self.perform(op);
            op = attempt.step(reply);
        }
    }

    /// Carries out one access of a lock attempt on the record.
    pub fn perform(&mut self, op: LockOp) -> (reply: Reply)
        ensures
            match op {
                LockOp::Load => reply == (Reply::Word { value: old(self).word() }) && *final(self)
                    == *old(self),
                LockOp::LoadKey { queue } => {
                    &&& reply == (Reply::Word {
                        value: match queue {
                            Queue::Readers => old(self)@.readers_futex,
                            Queue::Writers => old(self)@.writers_futex,
                        },
                    })
                    &&& *final(self) == *old(self)
                },
                LockOp::Claim { current, new } | LockOp::Mark { current, new } => {
                    if old(self).word() == current {
                        &&& reply == Reply::Took
                        &&& final(self).word() == new
                        &&& final(self)@ == (MutexView { lock: decode(new), ..old(self)@ })
                    } else {
                        &&& reply == (Reply::Lost { value: old(self).word() })
                        &&& *final(self) == *old(self)
                    }
                },
                _ => reply == Reply::Nothing && *final(self) == *old(self),
            },
    {
        match op {
            LockOp::Load => Reply::Word { value: self.state },
            LockOp::LoadKey { queue } => match queue {
                Queue::Readers => Reply::Word { value: self.readers_futex },
                Queue::Writers => Reply::Word { value: self.writers_futex },
            },
            LockOp::Claim { current, new } | LockOp::Mark { current, new } => {
                if self.state == current {
                    self.state = new;
                    Reply::Took
                } else {
                    Reply::Lost { value: self.state }
                }
            },
            _ => Reply::Nothing,
        }
    }

    /// Gives up the exclusive lock: clears the word and says whom to wake. The counter of a
    /// queue that is woken moves on.
    pub fn unlock_exclusive(&mut self) -> (wake: Wake)
        ensures
            wake.writer == old(self)@.lock.writers_parked,
            wake.readers == old(self)@.lock.readers_parked,
            final(self)@ == old(self)@.released(),
    {
        proof {
            lemma_constant_words();
        }
        if self.state == ONE_WRITER {
            self.state = UNLOCKED;
            Wake { writer: false, readers: false }
        } else {
            self.unlock_exclusive_slow()
        }
    }

    fn unlock_exclusive_slow(&mut self) -> (wake: Wake)
        ensures
            wake.writer == old(self)@.lock.writers_parked,
            wake.readers == old(self)@.lock.readers_parked,
            final(self)@ == old(self)@.released(),
    {
        proof {
            lemma_constant_words();
        }
        let parked: usize = self.state;
        self.state = UNLOCKED;
        let wake = Wake { writer: has_parked_writers(parked), readers: has_parked_readers(parked) };
        if wake.writer {
            self.writers_futex = self.writers_futex.wrapping_add(1);
        }
        if wake.readers {
            self.readers_futex = self.readers_futex.wrapping_add(1);
        }
        wake
    }

    /// Takes a shared lock if no writer holds the lock and one more reader can be counted.
    pub fn try_lock_shared(&mut self) -> (taken: bool)
        ensures
            taken == (!old(self)@.lock.writer && old(self)@.lock.readers < max_readers()),
            !taken ==> *final(self) == *old(self),
            final(self)@ == (MutexView {
                lock: if taken {
                    old(self)@.lock.with_readers(old(self)@.lock.readers + 1)
                } else {
                    old(self)@.lock
                },
                ..old(self)@
            }),
    {
        match shared_claim(self.state) {
            Some(new) => {
                self.state = new;
                true
            },
            None => false,
        }
    }

    /// Takes a shared lock. No writer may hold the lock: a thread that finds one waits as
    /// [`LockShared`] says.
    pub fn lock_shared(&mut self)
        requires
            !old(self)@.lock.writer,
        ensures
            final(self)@ == old(self)@.entered(),
    {
        if !self.try_lock_shared() {
            self.lock_shared_slow();
        }
    }

    /// Makes the accesses of a [`LockShared`] until it holds the lock.
    fn lock_shared_slow(&mut self)
        requires
            !old(self)@.lock.writer,
        ensures
            final(self)@ == old(self)@.entered(),
    {
        let mut attempt = LockShared::new(Backoff::new(1));
        let mut op = attempt.step(Reply::Nothing);
        while op != LockOp::Acquired
            invariant
                attempt.wf(),
                !old(self)@.lock.writer,
                self.readers_futex == old(self).readers_futex,
                self.writers_futex == old(self).writers_futex,
                self.ref_count == old(self).ref_count,
                match attempt.phase {
                    SharedPhase::Loading => {
                        &&& op == LockOp::Load
                        &&& self.state == old(self).state
                    },
                    SharedPhase::Claiming => {
                        &&& op matches LockOp::Claim { current, new } && current == old(self).state
                            && decode(new) == with_one_more_reader(old(self)@.lock)
                        &&& self.state == old(self).state
                    },
                    SharedPhase::Held => {
                        &&& op == LockOp::Acquired
                        &&& decode(self.state) == with_one_more_reader(old(self)@.lock)
                    },
                    _ => false,
                },
            decreases
                match attempt.phase {
                    SharedPhase::Loading => 2int,
                    SharedPhase::Claiming => 1int,
                    _ => 0int,
                },
        {
            let reply = self.perform(op);
            op = attempt.step(reply);
        }
    }

    /// Gives up a shared lock. The last reader hands the lock to a parked writer, if only
    /// writers are parked.
    pub fn unlock_shared(&mut self) -> (wake: Wake)
        ensures
            wake.writer == hands_over(old(self)@.lock),
            !wake.readers,
            final(self)@ == old(self)@.left(),
    {
        let previous: usize = self.state;
        self.state = previous.wrapping_sub(ONE_READER);
        proof {
            lemma_remove_one_wrapping(previous);
            lemma_constant_words();
            if hands_over(decode(previous)) {
                lemma_decode_injective(self.state, WRITERS_PARKED);
            }
        }
        let mut wake = Wake { writer: false, readers: false };
        if hands_over_to_writer(previous) && self.state == WRITERS_PARKED {
            self.state = UNLOCKED;
            self.writers_futex = self.writers_futex.wrapping_add(1);
            wake.writer = true;
        }
        wake
    }

    /// Gives up the hold that there is: that of the writer, or that of one reader. A lock that
    /// nobody holds stays as it is.
    pub fn unlock_hold(&mut self) -> (wake: Wake)
        ensures
            final(self)@ == if old(self)@.lock.writer {
                old(self)@.released()
            } else if old(self)@.lock.readers > 0 {
                old(self)@.left()
            } else {
                old(self)@
            },
            wake.writer == if old(self)@.lock.writer {
                old(self)@.lock.writers_parked
            } else {
                old(self)@.lock.readers > 0 && hands_over(old(self)@.lock)
            },
            wake.readers == (old(self)@.lock.writer && old(self)@.lock.readers_parked),
    {
        if self.is_locked_exclusive() {
            self.unlock_exclusive()
        } else if self.is_locked_shared() {
            self.unlock_shared()
        } else {
            Wake { writer: false, readers: false }
        }
    }

    /// Gives up every shared lock at once; parked writers are woken and stay announced.
    pub fn unlock_all_shared(&mut self) -> (wake: Wake)
        ensures
            wake.writer == (old(self)@.lock.readers > 0 && old(self)@.lock.writers_parked),
            !wake.readers,
            final(self)@ == (MutexView {
                lock: if old(self)@.lock.readers > 0 {
                    old(self)@.lock.with_readers(0)
                } else {
                    old(self)@.lock
                },
                writers_futex: if wake.writer {
                    bumped(old(self)@.writers_futex)
                } else {
                    old(self)@.writers_futex
                },
                ..old(self)@
            }),
    {
        let state: usize = self.state;
        let mut wake = Wake { writer: false, readers: false };
        match without_readers(state) {
            None => {},
            Some(new) => {
                self.state = new;
                if has_parked_writers(state) {
                    self.writers_futex = self.writers_futex.wrapping_add(1);
                    wake.writer = true;
                }
            },
        }
        wake
    }

    /// Turns the holder of the lock into one reader; parked readers are woken.
    pub fn downgrade(&mut self) -> (wake: Wake)
        ensures
            wake.readers == old(self)@.lock.readers_parked,
            !wake.writer,
            final(self)@ == (MutexView { lock: old(self)@.lock.with_readers(1), ..old(self)@ }),
    {
        let state: usize = self.state;
        self.state = downgraded(state);
        Wake { writer: false, readers: has_parked_readers(state) }
    }

    /// Counts one more handle.
    pub fn clone_ref(&mut self)
        ensures
            final(self)@ == old(self)@.with_handle(),
            final(self).word() == old(self).word(),
    {
        self.ref_count = self.ref_count.wrapping_add(1);
    }

    /// Counts one handle less, and says whether it was the last.
    pub fn drop_ref(&mut self) -> (last: bool)
        ensures
            last == (old(self)@.ref_count == 1),
            final(self)@ == old(self)@.without_handle(),
            final(self).word() == old(self).word(),
    {
        let previous: usize = self.ref_count;
        self.ref_count = previous.wrapping_sub(1);
        previous == 1
    }

    /// A summary for people to read.
    pub fn report(&self) -> (report: MutexReport)
        ensures
            report.state == self.word(),
            report.exclusive_locked == self@.lock.writer,
            report.readers_count == self@.lock.readers,
            report.readers_parked == self@.lock.readers_parked,
            report.writers_parked == self@.lock.writers_parked,
            report.ref_count == self@.ref_count,
    {
        MutexReport {
            state: self.state,
            exclusive_locked: self.is_locked_exclusive(),
            readers_count: readers_count(self.state),
            readers_parked: has_parked_readers(self.state),
            writers_parked: has_parked_writers(self.state),
            ref_count: self.ref_count,
        }
    }
}

impl Default for Mutex {
    fn default() -> (mutex: Self)
        ensures
            mutex@ == MutexView::fresh(),
    {
        Mutex::new()
    }
}

/// Where an attempt at the exclusive lock stands.
#[derive(Clone, Copy, Debug, PartialEq, Eq, Structural)]
pub enum ExclusivePhase {
    /// Nothing was done yet.
    Start,
    /// The lock word is being read.
    Loading,
    /// The lock is being taken.
    Claiming,
    /// A backoff step is being taken.
    Resting,
    /// The writers-parked bit is being set.
    Marking,
    /// The writers' counter is being read.
    KeyRead,
    /// The lock word is being read again before sleep.
    Rechecking,
    /// The thread sleeps.
    Waiting,
    /// The lock is held.
    Held,
}

/// One thread's attempt at the exclusive lock.
#[derive(Debug)]
pub struct LockExclusive {
    /// Where the attempt stands.
    pub phase: ExclusivePhase,
    /// The lock word as last seen.
    pub state: usize,
    /// The bits to set when the lock is taken: the writers-parked bit after a sleep.
    pub acquire_with: usize,
    /// The writers' counter as last seen.
    pub key: usize,
    /// How long the attempt has backed off.
    pub backoff: Backoff,
}

impl LockExclusive {
    /// The bits to set are none or the writers-parked bit.
    pub open spec fn wf(self) -> bool {
        &&& self.backoff.wf()
        &&& self.acquire_with == UNLOCKED || self.acquire_with == WRITERS_PARKED
    }

    /// The kind of reply that the access just made gives.
    pub open spec fn expects(self, reply: Reply) -> bool {
        match self.phase {
            ExclusivePhase::Start | ExclusivePhase::Resting | ExclusivePhase::Waiting => reply
                == Reply::Nothing,
            ExclusivePhase::Loading | ExclusivePhase::KeyRead | ExclusivePhase::Rechecking => reply
                is Word,
            ExclusivePhase::Claiming | ExclusivePhase::Marking => reply is Took || reply is Lost,
            ExclusivePhase::Held => false,
        }
    }

    /// Only the phase and the noted words changed.
    pub open spec fn keeps_mode(self, before: Self) -> bool {
        &&& self.acquire_with == before.acquire_with
        &&& self.backoff == before.backoff
    }

    /// What an attempt does that has just seen the lock word `word`: it takes a free lock;
    /// it backs off from a held one and, when it has backed off long enough, sets the
    /// writers-parked bit; and where that bit is set it prepares to sleep.
    pub open spec fn decides(self, before: Self, word: usize, op: LockOp) -> bool {
        &&& self.state == word
        &&& self.acquire_with == before.acquire_with
        &&& self.key == before.key
        &&& if decode(word).is_free() {
            &&& op == LockOp::Claim {
                current: word,
                new: word | ONE_WRITER | before.acquire_with,
            }
            &&& self.phase == ExclusivePhase::Claiming
            &&& self.backoff == before.backoff
        } else if !decode(word).writers_parked {
            if before.backoff.step() <= before.backoff.yield_limit() {
                &&& op matches LockOp::Rest { pause } && before.backoff.snoozes(pause)
                &&& self.phase == ExclusivePhase::Resting
                &&& self.backoff.at_step(before.backoff, before.backoff.step() + 1)
            } else {
                &&& op == LockOp::Mark { current: word, new: word | WRITERS_PARKED }
                &&& self.phase == ExclusivePhase::Marking
                &&& self.backoff == before.backoff
            }
        } else {
            &&& op == LockOp::LoadKey { queue: Queue::Writers }
            &&& self.phase == ExclusivePhase::KeyRead
            &&& self.backoff == before.backoff
        }
    }

    /// A new attempt.
    pub fn new(backoff: Backoff) -> (attempt: Self)
        requires
            backoff.wf(),
        ensures
            attempt.wf(),
            attempt.phase == ExclusivePhase::Start,
            attempt.acquire_with == UNLOCKED,
            attempt.backoff == backoff,
    {
        LockExclusive {
            phase: ExclusivePhase::Start,
            state: UNLOCKED,
            acquire_with: UNLOCKED,
            key: 0,
            backoff,
        }
    }

    fn decide(&mut self, word: usize) -> (op: LockOp)
        requires
            old(self).wf(),
        ensures
            final(self).wf(),
            final(self).decides(*old(self), word, op),
    {
        proof {
            lemma_word_bits(word);
        }
        self.state = word;
        if word & ONE_WRITER == 0 {
            self.phase = ExclusivePhase::Claiming;
            return LockOp::Claim { current: word, new: word | ONE_WRITER | self.acquire_with };
        }
        if word & WRITERS_PARKED == 0 {
            if !self.backoff.is_completed() {
                self.phase = ExclusivePhase::Resting;
                let pause = self.backoff.snooze();
                return LockOp::Rest { pause };
            }
            self.phase = ExclusivePhase::Marking;
            return LockOp::Mark { current: word, new: word | WRITERS_PARKED };
        }
        self.phase = ExclusivePhase::KeyRead;
        LockOp::LoadKey { queue: Queue::Writers }
    }

    /// Takes what the last access found and says which access comes next.
    pub fn step(&mut self, reply: Reply) -> (op: LockOp)
        requires
            old(self).wf(),
            old(self).expects(reply),
        ensures
            final(self).wf(),
            match (old(self).phase, reply) {
                (ExclusivePhase::Start, _) => {
                    &&& op == LockOp::Load
                    &&& final(self).phase == ExclusivePhase::Loading
                    &&& final(self).keeps_mode(*old(self))
                },
                (ExclusivePhase::Loading, Reply::Word { value }) => final(self).decides(
                    *old(self),
                    value,
                    op,
                ),
                (ExclusivePhase::Resting, _) => final(self).decides(
                    *old(self),
                    old(self).state,
                    op,
                ),
                (ExclusivePhase::Claiming, Reply::Took) => {
                    &&& op == LockOp::Acquired
                    &&& final(self).phase == ExclusivePhase::Held
                },
                (ExclusivePhase::Marking, Reply::Took) => {
                    &&& op == (LockOp::LoadKey { queue: Queue::Writers })
                    &&& final(self).phase == ExclusivePhase::KeyRead
                    &&& final(self).keeps_mode(*old(self))
                },
                (_, Reply::Lost { value }) => final(self).decides(*old(self), value, op),
                (ExclusivePhase::KeyRead, Reply::Word { value }) => {
                    &&& op == LockOp::Load
                    &&& final(self).phase == ExclusivePhase::Rechecking
                    &&& final(self).key == value
                    &&& final(self).keeps_mode(*old(self))
                },
                (ExclusivePhase::Rechecking, Reply::Word { value }) => {
                    if decode(value).is_free() || !decode(value).writers_parked {
                        &&& op == LockOp::Load
                        &&& final(self).phase == ExclusivePhase::Loading
                        &&& final(self).acquire_with == WRITERS_PARKED
                        &&& final(self).backoff.at_step(old(self).backoff, 0)
                    } else {
                        &&& op == (LockOp::Wait { queue: Queue::Writers, key: old(self).key })
                        &&& final(self).phase == ExclusivePhase::Waiting
                        &&& final(self).keeps_mode(*old(self))
                    }
                },
                (ExclusivePhase::Waiting, _) => {
                    &&& op == (LockOp::LoadKey { queue: Queue::Writers })
                    &&& final(self).phase == ExclusivePhase::KeyRead
                    &&& final(self).keeps_mode(*old(self))
                },
                _ => false,
            },
    {
        match (self.phase, reply) {
            (ExclusivePhase::Start, _) => {
                self.phase = ExclusivePhase::Loading;
                LockOp::Load
            },
            (ExclusivePhase::Loading, Reply::Word { value }) => self.decide(value),
            (ExclusivePhase::Resting, _) => {
                let word: usize = self.state;
                self.decide(word)
            },
            (ExclusivePhase::Claiming, Reply::Took) => {
                self.phase = ExclusivePhase::Held;
                LockOp::Acquired
            },
            (ExclusivePhase::Marking, Reply::Took) => {
                self.phase = ExclusivePhase::KeyRead;
                LockOp::LoadKey { queue: Queue::Writers }
            },
            (_, Reply::Lost { value }) => self.decide(value),
            (ExclusivePhase::KeyRead, Reply::Word { value }) => {
                self.key = value;
                self.phase = ExclusivePhase::Rechecking;
                LockOp::Load
            },
            (ExclusivePhase::Rechecking, Reply::Word { value }) => {
                proof {
                    lemma_word_bits(value);
                }
                if value & ONE_WRITER == 0 || value & WRITERS_PARKED == 0 {
                    self.backoff.reset();
                    self.acquire_with = WRITERS_PARKED;
                    self.phase = ExclusivePhase::Loading;
                    LockOp::Load
                } else {
                    self.phase = ExclusivePhase::Waiting;
                    LockOp::Wait { queue: Queue::Writers, key: self.key }
                }
            },
            _ => {
                self.phase = ExclusivePhase::KeyRead;
                LockOp::LoadKey { queue: Queue::Writers }
            },
        }
    }
}

/// Where an attempt at a shared lock stands.
#[derive(Clone, Copy, Debug, PartialEq, Eq, Structural)]
pub enum SharedPhase {
    /// Nothing was done yet.
    Start,
    /// The lock word is being read.
    Loading,
    /// The lock is being taken.
    Claiming,
    /// A backoff step is being taken.
    Resting,
    /// The readers-parked bit is being set.
    Marking,
    /// The readers' counter is being read.
    KeyRead,
    /// The lock word is being read again before sleep.
    Rechecking,
    /// The thread sleeps.
    Waiting,
    /// The lock is held.
    Held,
}

/// One thread's attempt at a shared lock.
#[derive(Debug)]
pub struct LockShared {
    /// Where the attempt stands.
    pub phase: SharedPhase,
    /// The readers' counter as last seen.
    pub key: usize,
    /// How long the attempt has backed off.
    pub backoff: Backoff,
}

impl LockShared {
    /// The backoff is in order.
    pub open spec fn wf(self) -> bool {
        self.backoff.wf()
    }

    /// The kind of reply that the access just made gives.
    pub open spec fn expects(self, reply: Reply) -> bool {
        match self.phase {
            SharedPhase::Start | SharedPhase::Resting | SharedPhase::Waiting => reply
                == Reply::Nothing,
            SharedPhase::Loading | SharedPhase::KeyRead | SharedPhase::Rechecking => reply is Word,
            SharedPhase::Claiming | SharedPhase::Marking => reply is Took || reply is Lost,
            SharedPhase::Held => false,
        }
    }

    /// What an attempt does that has just seen the lock word `word`: it joins the readers
    /// unless a writer holds the lock; it backs off from a writer and, when it has backed
    /// off long enough, sets the readers-parked bit; and where that bit is set it prepares
    /// to sleep.
    pub open spec fn decides(self, before: Self, word: usize, op: LockOp) -> bool {
        &&& self.key == before.key
        &&& if !decode(word).writer {
            &&& op matches LockOp::Claim { current, new } && current == word && decode(new)
                == with_one_more_reader(decode(word))
            &&& self.phase == SharedPhase::Claiming
            &&& self.backoff == before.backoff
        } else if !decode(word).readers_parked {
            if before.backoff.step() <= before.backoff.yield_limit() {
                &&& op matches LockOp::Rest { pause } && before.backoff.snoozes(pause)
                &&& self.phase == SharedPhase::Resting
                &&& self.backoff.at_step(before.backoff, before.backoff.step() + 1)
            } else {
                &&& op == LockOp::Mark { current: word, new: word | READERS_PARKED }
                &&& self.phase == SharedPhase::Marking
                &&& self.backoff == before.backoff
            }
        } else {
            &&& op == LockOp::LoadKey { queue: Queue::Readers }
            &&& self.phase == SharedPhase::KeyRead
            &&& self.backoff == before.backoff
        }
    }

    /// A new attempt.
    pub fn new(backoff: Backoff) -> (attempt: Self)
        requires
            backoff.wf(),
        ensures
            attempt.wf(),
            attempt.phase == SharedPhase::Start,
            attempt.backoff == backoff,
    {
        LockShared { phase: SharedPhase::Start, key: 0, backoff }
    }

    fn decide(&mut self, word: usize) -> (op: LockOp)
        requires
            old(self).wf(),
        ensures
            final(self).wf(),
            final(self).decides(*old(self), word, op),
    {
        match shared_claim_slow(word) {
            Some(new) => {
                self.phase = SharedPhase::Claiming;
                return LockOp::Claim { current: word, new };
            },
            None => {},
        }
        if !has_parked_readers(word) {
            if !self.backoff.is_completed() {
                self.phase = SharedPhase::Resting;
                let pause = self.backoff.snooze();
                return LockOp::Rest { pause };
            }
            self.phase = SharedPhase::Marking;
            return LockOp::Mark { current: word, new: word | READERS_PARKED };
        }
        self.phase = SharedPhase::KeyRead;
        LockOp::LoadKey { queue: Queue::Readers }
    }

    /// Takes what the last access found and says which access comes next. After a backoff
    /// step, a lost replacement, a wake-up or a writer that left, the word is read anew.
    pub fn step(&mut self, reply: Reply) -> (op: LockOp)
        requires
            old(self).wf(),
            old(self).expects(reply),
        ensures
            final(self).wf(),
            match (old(self).phase, reply) {
                (SharedPhase::Loading, Reply::Word { value }) => final(self).decides(
                    *old(self),
                    value,
                    op,
                ),
                (SharedPhase::Claiming, Reply::Took) => {
                    &&& op == LockOp::Acquired
                    &&& final(self).phase == SharedPhase::Held
                },
                (SharedPhase::Marking, Reply::Took) => {
                    &&& op == (LockOp::LoadKey { queue: Queue::Readers })
                    &&& final(self).phase == SharedPhase::KeyRead
                    &&& final(self).backoff == old(self).backoff
                },
                (SharedPhase::KeyRead, Reply::Word { value }) => {
                    &&& op == LockOp::Load
                    &&& final(self).phase == SharedPhase::Rechecking
                    &&& final(self).key == value
                    &&& final(self).backoff == old(self).backoff
                },
                (SharedPhase::Rechecking, Reply::Word { value }) => {
                    if decode(value).writer {
                        &&& op == (LockOp::Wait { queue: Queue::Readers, key: old(self).key })
                        &&& final(self).phase == SharedPhase::Waiting
                        &&& final(self).backoff == old(self).backoff
                    } else {
                        &&& op == LockOp::Load
                        &&& final(self).phase == SharedPhase::Loading
                        &&& final(self).backoff.at_step(old(self).backoff, 0)
                    }
                },
                (SharedPhase::Waiting, _) => {
                    &&& op == LockOp::Load
                    &&& final(self).phase == SharedPhase::Loading
                    &&& final(self).backoff.at_step(old(self).backoff, 0)
                },
                _ => {
                    &&& op == LockOp::Load
                    &&& final(self).phase == SharedPhase::Loading
                    &&& final(self).backoff == old(self).backoff
                },
            },
    {
        match (self.phase, reply) {
            (SharedPhase::Loading, Reply::Word { value }) => self.decide(value),
            (SharedPhase::Claiming, Reply::Took) => {
                self.phase = SharedPhase::Held;
                LockOp::Acquired
            },
            (SharedPhase::Marking, Reply::Took) => {
                self.phase = SharedPhase::KeyRead;
                LockOp::LoadKey { queue: Queue::Readers }
            },
            (SharedPhase::KeyRead, Reply::Word { value }) => {
                self.key = value;
                self.phase = SharedPhase::Rechecking;
                LockOp::Load
            },
            (SharedPhase::Rechecking, Reply::Word { value }) => {
                if is_writer_locked(value) {
                    self.phase = SharedPhase::Waiting;
                    LockOp::Wait { queue: Queue::Readers, key: self.key }
                } else {
                    self.backoff.reset();
                    self.phase = SharedPhase::Loading;
                    LockOp::Load
                }
            },
            (SharedPhase::Waiting, _) => {
                self.backoff.reset();
                self.phase = SharedPhase::Loading;
                LockOp::Load
            },
            _ => {
                self.phase = SharedPhase::Loading;
                LockOp::Load
            },
        }
    }
}

/// One reader more is counted as long as the word can count it, and one less as long as there
/// is one; the parked bits stay. The last reader hands over exactly where writers, and no
/// readers, are parked.
pub proof fn lemma_reader_steps(lock: LockView)
    ensures
        !lock.writer && lock.readers + 1 < usize::MAX as int / 4 ==> {
            &&& !with_one_more_reader(lock).writer
            &&& with_one_more_reader(lock).readers == lock.readers + 1
        },
        lock.readers + 1 >= usize::MAX as int / 4 ==> {
            &&& with_one_more_reader(lock).writer
            &&& with_one_more_reader(lock).readers == 0
        },
        with_one_more_reader(lock).readers_parked == lock.readers_parked,
        with_one_more_reader(lock).writers_parked == lock.writers_parked,
        !lock.writer && lock.readers > 0 ==> {
            &&& !without_reader(lock).writer
            &&& without_reader(lock).readers == lock.readers - 1
        },
        without_reader(lock).readers_parked == lock.readers_parked,
        without_reader(lock).writers_parked == lock.writers_parked,
        hands_over(lock) <==> {
            &&& !lock.writer
            &&& lock.readers == 1
            &&& lock.writers_parked
            &&& !lock.readers_parked
        },
        forall|word: usize|
            #![trigger decode(word)]
            lock == decode(word) ==> decode(word.wrapping_sub(4)) == without_reader(lock),
{
    assert forall|word: usize|
        #![trigger decode(word)]
        lock == decode(word) implies decode(word.wrapping_sub(4)) == without_reader(lock) by {
        lemma_remove_one_wrapping(word);
    }
}

/// What each transition does to a mutex. A writer that takes it is its only holder and finds the
/// parked bits as they were; a release leaves no holder and no parked bit and counts on for the
/// queues that are woken; a reader comes and goes alone, unless it hands over to a writer; and
/// none of them touches the handles.
pub proof fn lemma_mutex_steps(mutex: MutexView)
    ensures
        MutexView::fresh().lock.is_free(),
        !MutexView::fresh().lock.readers_parked,
        !MutexView::fresh().lock.writers_parked,
        MutexView::fresh().readers_futex == 0,
        MutexView::fresh().writers_futex == 0,
        MutexView::fresh().ref_count == 1,
        mutex.claimed().lock.writer,
        mutex.claimed().lock.readers == 0,
        mutex.claimed().lock.readers_parked == mutex.lock.readers_parked,
        mutex.claimed().lock.writers_parked == mutex.lock.writers_parked,
        mutex.claimed().readers_futex == mutex.readers_futex,
        mutex.claimed().writers_futex == mutex.writers_futex,
        mutex.claimed().ref_count == mutex.ref_count,
        mutex.entered().lock == with_one_more_reader(mutex.lock),
        mutex.entered().readers_futex == mutex.readers_futex,
        mutex.entered().writers_futex == mutex.writers_futex,
        mutex.entered().ref_count == mutex.ref_count,
        mutex.released().lock.is_free(),
        !mutex.released().lock.readers_parked,
        !mutex.released().lock.writers_parked,
        mutex.released().readers_futex as int == (mutex.readers_futex
            + if mutex.lock.readers_parked {
            1int
        } else {
            0
        }) % (usize::MAX + 1),
        mutex.released().writers_futex as int == (mutex.writers_futex
            + if mutex.lock.writers_parked {
            1int
        } else {
            0
        }) % (usize::MAX + 1),
        mutex.released().ref_count == mutex.ref_count,
        hands_over(mutex.lock) ==> {
            &&& mutex.left().lock.is_free()
            &&& !mutex.left().lock.readers_parked
            &&& !mutex.left().lock.writers_parked
            &&& mutex.left().writers_futex as int == (mutex.writers_futex + 1) % (usize::MAX + 1)
        },
        !hands_over(mutex.lock) ==> {
            &&& mutex.left().lock == without_reader(mutex.lock)
            &&& mutex.left().writers_futex == mutex.writers_futex
        },
        mutex.left().readers_futex == mutex.readers_futex,
        mutex.left().ref_count == mutex.ref_count,
        mutex.with_handle().ref_count as int == (mutex.ref_count + 1) % (usize::MAX + 1),
        mutex.with_handle().lock == mutex.lock,
        mutex.with_handle().readers_futex == mutex.readers_futex,
        mutex.with_handle().writers_futex == mutex.writers_futex,
        mutex.without_handle().ref_count as int == (mutex.ref_count - 1) % (usize::MAX + 1),
        mutex.without_handle().lock == mutex.lock,
        mutex.without_handle().readers_futex == mutex.readers_futex,
        mutex.without_handle().writers_futex == mutex.writers_futex,
{
    lemma_wrapping_count(mutex.readers_futex, 0, 0);
    lemma_wrapping_count(mutex.writers_futex, 0, 0);
    lemma_wrapping_count(mutex.ref_count, 0, 0);
    vstd::arithmetic::div_mod::lemma_small_mod(
        mutex.readers_futex as nat,
        (usize::MAX + 1) as nat,
    );
    vstd::arithmetic::div_mod::lemma_small_mod(
        mutex.writers_futex as nat,
        (usize::MAX + 1) as nat,
    );
}

impl LockExclusive {
    /// What an attempt does on seeing a word. It goes for the lock exactly where the word counts
    /// no holder, and what it would install counts the writer and keeps the parked bits. From a
    /// held lock it backs off until it has backed off long enough, and announces a sleeper
    /// where none is announced. It prepares to sleep only where the lock is held and a sleeper
    /// announced. Whatever it does, it waits for the reply that this access gives.
    pub proof fn lemma_decisions(self, before: Self, word: usize, op: LockOp)
        requires
            before.wf(),
            self.decides(before, word, op),
        ensures
            self.state == word,
            self.acquire_with == before.acquire_with,
            self.key == before.key,
            op is Claim <==> word < 4,
            op matches LockOp::Claim { current, new } ==> {
                &&& current == word
                &&& new as int / 4 == usize::MAX as int / 4
                &&& new as int % 2 == word as int % 2
                &&& (new as int / 2) % 2 == if before.acquire_with == 2 {
                    1
                } else {
                    (word as int / 2) % 2
                }
            },
            op is Rest <==> {
                &&& word >= 4
                &&& (word as int / 2) % 2 == 0
                &&& before.backoff.step() <= before.backoff.yield_limit()
            },
            op matches LockOp::Rest { pause } ==> {
                &&& before.backoff.snoozes(pause)
                &&& self.backoff.step() == before.backoff.step() + 1
                &&& self.backoff.spin_limit() == before.backoff.spin_limit()
                &&& self.backoff.yield_limit() == before.backoff.yield_limit()
            },
            op !is Rest ==> self.backoff == before.backoff,
            op is Mark <==> {
                &&& word >= 4
                &&& (word as int / 2) % 2 == 0
                &&& before.backoff.step() > before.backoff.yield_limit()
            },
            op matches LockOp::Mark { current, new } ==> current == word && new == word + 2,
            op is LoadKey <==> word >= 4 && (word as int / 2) % 2 == 1,
            op matches LockOp::LoadKey { queue } ==> queue == Queue::Writers,
            op is Claim <==> self.phase == ExclusivePhase::Claiming,
            op is Rest <==> self.phase == ExclusivePhase::Resting,
            op is Mark <==> self.phase == ExclusivePhase::Marking,
            op is LoadKey <==> self.phase == ExclusivePhase::KeyRead,
            forall|reply: Reply|
                #[trigger] self.expects(reply) <==> {
                    ||| (op is Claim || op is Mark) && (reply is Took || reply is Lost)
                    ||| op is LoadKey && reply is Word
                    ||| op is Rest && reply is Nothing
                },
    {
        lemma_word_bits(word);
        if decode(word).is_free() {
            lemma_claim_word(word, before.acquire_with);
        }
        assert((word / 2) % 2 == 0 ==> word | 2 == word + 2) by (bit_vector);
    }

    /// An attempt that only notes words goes on with the bits that it would set and the backoff
    /// that it had.
    pub proof fn lemma_mode_kept(self, before: Self)
        ensures
            self.keeps_mode(before) <==> self.acquire_with == before.acquire_with && self.backoff
                == before.backoff,
    {
    }

    /// An attempt that starts, reads a word, rests or takes the lock expects just the reply that
    /// goes with it, and one that holds the lock expects none.
    pub proof fn lemma_expected_replies(self, reply: Reply)
        ensures
            self.expects(reply) ==> self.phase != ExclusivePhase::Held,
            reply is Word ==> (self.expects(reply) <==> {
                ||| self.phase == ExclusivePhase::Loading
                ||| self.phase == ExclusivePhase::KeyRead
                ||| self.phase == ExclusivePhase::Rechecking
            }),
            reply is Took || reply is Lost ==> (self.expects(reply) <==> {
                ||| self.phase == ExclusivePhase::Claiming
                ||| self.phase == ExclusivePhase::Marking
            }),
            reply is Nothing ==> (self.expects(reply) <==> {
                ||| self.phase == ExclusivePhase::Start
                ||| self.phase == ExclusivePhase::Resting
                ||| self.phase == ExclusivePhase::Waiting
            }),
    {
    }
}

impl LockShared {
    /// What an attempt does on seeing a word. It joins exactly where no writer holds the lock,
    /// and what it would install counts one holder more and keeps the parked bits. From a writer
    /// it backs off until it has backed off long enough, and announces a sleeper where none is
    /// announced. It prepares to sleep only where a writer holds the lock and a sleeper is
    /// announced. Whatever it does, it waits for the reply that this access gives.
    pub proof fn lemma_decisions(self, before: Self, word: usize, op: LockOp)
        requires
            self.decides(before, word, op),
        ensures
            self.key == before.key,
            op is Claim <==> word as int / 4 < usize::MAX as int / 4,
            op matches LockOp::Claim { current, new } ==> current == word && new == word + 4,
            op is Rest <==> {
                &&& word as int / 4 == usize::MAX as int / 4
                &&& word as int % 2 == 0
                &&& before.backoff.step() <= before.backoff.yield_limit()
            },
            op matches LockOp::Rest { pause } ==> {
                &&& before.backoff.snoozes(pause)
                &&& self.backoff.step() == before.backoff.step() + 1
                &&& self.backoff.spin_limit() == before.backoff.spin_limit()
                &&& self.backoff.yield_limit() == before.backoff.yield_limit()
            },
            op !is Rest ==> self.backoff == before.backoff,
            op is Mark <==> {
                &&& word as int / 4 == usize::MAX as int / 4
                &&& word as int % 2 == 0
                &&& before.backoff.step() > before.backoff.yield_limit()
            },
            op matches LockOp::Mark { current, new } ==> current == word && new == word + 1,
            op is LoadKey <==> {
                &&& word as int / 4 == usize::MAX as int / 4
                &&& word as int % 2 == 1
            },
            op matches LockOp::LoadKey { queue } ==> queue == Queue::Readers,
            op is Claim <==> self.phase == SharedPhase::Claiming,
            op is Rest <==> self.phase == SharedPhase::Resting,
            op is Mark <==> self.phase == SharedPhase::Marking,
            op is LoadKey <==> self.phase == SharedPhase::KeyRead,
            forall|reply: Reply|
                #[trigger] self.expects(reply) <==> {
                    ||| (op is Claim || op is Mark) && (reply is Took || reply is Lost)
                    ||| op is LoadKey && reply is Word
                    ||| op is Rest && reply is Nothing
                },
    {
        lemma_word_bits(word);
        lemma_add_reader_word(word);
        assert(word / 4 <= usize::MAX / 4);
        if op is Claim {
            lemma_decode_injective(op->Claim_new, (word + 4) as usize);
        }
        assert(word % 2 == 0 ==> word | 1 == word + 1) by (bit_vector);
    }

    /// An attempt that starts, reads a word, rests or takes the lock expects just the reply that
    /// goes with it, and one that holds the lock expects none.
    pub proof fn lemma_expected_replies(self, reply: Reply)
        ensures
            self.expects(reply) ==> self.phase != SharedPhase::Held,
            reply is Word ==> (self.expects(reply) <==> {
                ||| self.phase == SharedPhase::Loading
                ||| self.phase == SharedPhase::KeyRead
                ||| self.phase == SharedPhase::Rechecking
            }),
            reply is Took || reply is Lost ==> (self.expects(reply) <==> {
                ||| self.phase == SharedPhase::Claiming
                ||| self.phase == SharedPhase::Marking
            }),
            reply is Nothing ==> (self.expects(reply) <==> {
                ||| self.phase == SharedPhase::Start
                ||| self.phase == SharedPhase::Resting
                ||| self.phase == SharedPhase::Waiting
            }),
    {
    }
}

} // verus!
