//! Why the lock word keeps writers and readers apart.
//!
//! Threads make atomic accesses to one lock word in any order. [`Threads`] counts, beside what
//! the word says, the threads that took the lock and have not given it up. However the
//! accesses follow on each other, the word and the counts agree, so there is never a second
//! writer and never a reader beside a writer.

use vstd::prelude::*;

verus! {

use crate::lock_free::splcell::{spin_left, spin_released, SpinExclusive, SpinShared};
use crate::sync::lock_word::{
    decode, lemma_claim_word, lemma_park_words, max_readers, LockView, WRITERS_PARKED,
};
use crate::sync::mutex::{
    hands_over, without_reader, LockExclusive, LockOp, LockShared, MutexView,
};

/// A lock word, and who holds the lock.
pub struct Threads {
    /// What the word says.
    pub lock: LockView,
    /// How many threads hold the lock as writers.
    pub writers: nat,
    /// How many threads hold the lock as readers.
    pub readers: nat,
}

/// One atomic access to the word.
pub enum Access {
    /// A writer takes a free lock; it may announce parked writers with it.
    Claim { announce: bool },
    /// A reader joins where no writer holds the lock and one more reader can be counted.
    Enter,
    /// A writer gives the lock up; parked writers may stay announced.
    Release { announce: bool },
    /// A reader leaves.
    Leave,
    /// All readers leave at once.
    LeaveAll,
    /// A writer becomes a reader.
    Downgrade,
    /// The bit of parked writers is set.
    ParkWriters,
    /// The bit of parked readers is set.
    ParkReaders,
    /// The bits of parked threads are cleared from a word without holders.
    HandOver,
}

/// The access can be made, and leads from one state to the next.
pub open spec fn follows(before: Threads, access: Access, after: Threads) -> bool {
    match access {
        Access::Claim { announce } => {
            &&& before.lock.is_free()
            &&& after == Threads {
                lock: if announce {
                    before.lock.with_writer().with_writers_parked()
                } else {
                    before.lock.with_writer()
                },
                writers: before.writers + 1,
                ..before
            }
        },
        Access::Enter => {
            &&& !before.lock.writer
            &&& before.lock.readers < max_readers()
            &&& after == Threads {
                lock: before.lock.with_readers(before.lock.readers + 1),
                readers: before.readers + 1,
                ..before
            }
        },
        Access::Release { announce } => {
            &&& before.writers > 0
            &&& after == Threads {
                lock: if announce {
                    LockView::unlocked().with_writers_parked()
                } else {
                    LockView::unlocked()
                },
                writers: (before.writers - 1) as nat,
                ..before
            }
        },
        Access::Leave => {
            &&& before.readers > 0
            &&& after == Threads {
                lock: without_reader(before.lock),
                readers: (before.readers - 1) as nat,
                ..before
            }
        },
        Access::LeaveAll => {
            &&& before.readers > 0
            &&& after == Threads { lock: before.lock.with_readers(0), readers: 0, ..before }
        },
        Access::Downgrade => {
            &&& before.writers > 0
            &&& after == Threads {
                lock: before.lock.with_readers(1),
                writers: (before.writers - 1) as nat,
                readers: before.readers + 1,
            }
        },
        Access::ParkWriters => after == Threads {
            lock: before.lock.with_writers_parked(),
            ..before
        },
        Access::ParkReaders => after == Threads {
            lock: before.lock.with_readers_parked(),
            ..before
        },
        Access::HandOver => {
            &&& before.lock.is_free()
            &&& after == Threads { lock: LockView::unlocked(), ..before }
        },
    }
}

/// The states are those of a lock word to which the accesses are made one after the other,
/// starting from a word that nobody holds.
pub open spec fn is_run(states: Seq<Threads>, accesses: Seq<Access>) -> bool {
    &&& states.len() == accesses.len() + 1
    &&& states[0].lock.is_free()
    &&& states[0].writers == 0
    &&& states[0].readers == 0
    &&& forall|i: int|
        0 <= i < accesses.len() ==> #[trigger] follows(states[i], accesses[i], states[i + 1])
}

/// The word says who holds the lock: one writer and no reader, or as many readers as it
/// counts and no writer.
pub open spec fn agrees(state: Threads) -> bool {
    if state.lock.writer {
        state.writers == 1 && state.readers == 0
    } else {
        state.writers == 0 && state.readers == state.lock.readers
    }
}

/// An access keeps the word and the counts in agreement.
pub proof fn lemma_access_agrees(before: Threads, access: Access, after: Threads)
    requires
        agrees(before),
        before.lock.writer ==> before.lock.readers == 0,
        follows(before, access, after),
    ensures
        agrees(after),
        after.lock.writer ==> after.lock.readers == 0,
{
}

/// Mutual exclusion: in every state that threads can reach there is at most one writer, and
/// there is no reader beside it. A word that counts its largest number of readers admits no
/// other.
pub proof fn lemma_mutual_exclusion(states: Seq<Threads>, accesses: Seq<Access>, n: int)
    requires
        is_run(states, accesses),
        0 <= n < states.len(),
    ensures
        agrees(states[n]),
        states[n].writers <= 1,
        states[n].writers == 0 || states[n].readers == 0,
        states[n].lock.writer ==> states[n].lock.readers == 0,
    decreases n,
{
    if n > 0 {
        lemma_mutual_exclusion(states, accesses, n - 1);
        assert(follows(states[n - 1], accesses[n - 1], states[n - 1 + 1]));
        lemma_access_agrees(states[n - 1], accesses[n - 1], states[n]);
    }
}

/// A replacement that an attempt at the exclusive lock makes is a claim of a free lock, or
/// sets the bit of parked writers.
pub proof fn lemma_exclusive_accesses(
    before: LockExclusive,
    after: LockExclusive,
    word: usize,
    op: LockOp,
    holders: Threads,
)
    requires
        before.wf(),
        after.decides(before, word, op),
        holders.lock == decode(word),
    ensures
        op matches LockOp::Claim { current, new } ==> current == word && follows(
            holders,
            Access::Claim { announce: before.acquire_with == WRITERS_PARKED },
            Threads { lock: decode(new), writers: holders.writers + 1, ..holders },
        ),
        op matches LockOp::Mark { current, new } ==> current == word && follows(
            holders,
            Access::ParkWriters,
            Threads { lock: decode(new), ..holders },
        ),
{
    if decode(word).is_free() {
        lemma_claim_word(word, before.acquire_with);
    }
    lemma_park_words(word);
}

/// A replacement that an attempt at a shared lock makes lets a reader join, or sets the bit of
/// parked readers, while the readers can be counted.
pub proof fn lemma_shared_accesses(
    before: LockShared,
    after: LockShared,
    word: usize,
    op: LockOp,
    holders: Threads,
)
    requires
        after.decides(before, word, op),
        holders.lock == decode(word),
        holders.lock.readers < max_readers(),
    ensures
        op matches LockOp::Claim { current, new } ==> current == word && follows(
            holders,
            Access::Enter,
            Threads { lock: decode(new), readers: holders.readers + 1, ..holders },
        ),
        op matches LockOp::Mark { current, new } ==> current == word && follows(
            holders,
            Access::ParkReaders,
            Threads { lock: decode(new), ..holders },
        ),
{
    lemma_park_words(word);
}

/// The same of an attempt that spins for the exclusive lock.
pub proof fn lemma_spin_exclusive_accesses(
    before: SpinExclusive,
    after: SpinExclusive,
    word: usize,
    op: LockOp,
    holders: Threads,
)
    requires
        before.wf(),
        after.decides(before, word, op),
        holders.lock == decode(word),
    ensures
        op matches LockOp::Claim { current, new } ==> current == word && follows(
            holders,
            Access::Claim { announce: before.acquire_with == WRITERS_PARKED },
            Threads { lock: decode(new), writers: holders.writers + 1, ..holders },
        ),
        op matches LockOp::Mark { current, new } ==> current == word && follows(
            holders,
            Access::ParkWriters,
            Threads { lock: decode(new), ..holders },
        ),
{
    if decode(word).is_free() {
        lemma_claim_word(word, before.acquire_with);
    }
    lemma_park_words(word);
}

/// The same of an attempt that spins for a shared lock.
pub proof fn lemma_spin_shared_accesses(
    before: SpinShared,
    after: SpinShared,
    word: usize,
    op: LockOp,
    holders: Threads,
)
    requires
        after.decides(before, word, op),
        holders.lock == decode(word),
        holders.lock.readers < max_readers(),
    ensures
        op matches LockOp::Claim { current, new } ==> current == word && follows(
            holders,
            Access::Enter,
            Threads { lock: decode(new), readers: holders.readers + 1, ..holders },
        ),
        op matches LockOp::Mark { current, new } ==> current == word && follows(
            holders,
            Access::ParkReaders,
            Threads { lock: decode(new), ..holders },
        ),
{
    lemma_park_words(word);
}

/// What a mutex does when its holders give it up are accesses of the kinds above.
pub proof fn lemma_mutex_releases(mutex: MutexView, holders: Threads)
    requires
        holders.lock == mutex.lock,
    ensures
        holders.writers > 0 ==> follows(
            holders,
            Access::Release { announce: false },
            Threads {
                lock: mutex.released().lock,
                writers: (holders.writers - 1) as nat,
                ..holders
            },
        ),
        holders.readers > 0 && !hands_over(mutex.lock) ==> follows(
            holders,
            Access::Leave,
            Threads { lock: mutex.left().lock, readers: (holders.readers - 1) as nat, ..holders },
        ),
        holders.readers > 0 && hands_over(mutex.lock) ==> {
            let between = Threads {
                lock: without_reader(mutex.lock),
                readers: (holders.readers - 1) as nat,
                ..holders
            };
            &&& follows(holders, Access::Leave, between)
            &&& follows(
                between,
                Access::HandOver,
                Threads { lock: mutex.left().lock, ..between },
            )
        },
{
}

/// What a spin lock does when its holders give it up are accesses of the kinds above.
pub proof fn lemma_spin_releases(holders: Threads)
    requires
        agrees(holders),
    ensures
        holders.writers > 0 ==> follows(
            holders,
            Access::Release {
                announce: holders.lock.readers_parked && holders.lock.writers_parked,
            },
            Threads {
                lock: spin_released(holders.lock),
                writers: (holders.writers - 1) as nat,
                ..holders
            },
        ),
        holders.readers > 0 && !hands_over(holders.lock) ==> follows(
            holders,
            Access::Leave,
            Threads {
                lock: spin_left(holders.lock),
                readers: (holders.readers - 1) as nat,
                ..holders
            },
        ),
{
}

} // verus!
