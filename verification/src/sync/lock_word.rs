//! The word that a reader-writer lock keeps its state in.
//!
//! The two lowest bits say that readers or writers are parked. The bits above them count
//! the readers that hold the lock; all of them set stands for the one writer.

use vstd::prelude::*;

verus! {

/// No holder and nobody parked.
pub const UNLOCKED: usize = 0;

/// Readers wait for the lock.
pub const READERS_PARKED: usize = 1;

/// Writers wait for the lock.
pub const WRITERS_PARKED: usize = 2;

/// What one reader adds to the word.
pub const ONE_READER: usize = 4;

/// The bits of the holder count; all of them set mean that a writer holds the lock.
pub const ONE_WRITER: usize = !3usize;

/// What a lock word says.
pub struct LockView {
    /// A writer holds the lock.
    pub writer: bool,
    /// How many readers hold the lock.
    pub readers: nat,
    /// The readers-parked bit.
    pub readers_parked: bool,
    /// The writers-parked bit.
    pub writers_parked: bool,
}

/// The holder count that stands for a writer.
pub open spec fn writer_field() -> nat {
    (usize::MAX / 4) as nat
}

/// The most readers that the word can count.
pub open spec fn max_readers() -> nat {
    (usize::MAX / 4 - 1) as nat
}

/// The holder count of a word.
pub open spec fn holder_field(word: usize) -> nat {
    (word / 4) as nat
}

/// Reads a lock word.
pub open spec fn decode(word: usize) -> LockView {
    LockView {
        writer: holder_field(word) == writer_field(),
        readers: if holder_field(word) == writer_field() {
            0
        } else {
            holder_field(word)
        },
        readers_parked: word % 2 == 1,
        writers_parked: (word / 2) % 2 == 1,
    }
}

impl LockView {
    /// The view of a lock that nobody holds and nobody waits for.
    pub open spec fn unlocked() -> Self {
        LockView { writer: false, readers: 0, readers_parked: false, writers_parked: false }
    }

    /// Nobody holds the lock.
    pub open spec fn is_free(self) -> bool {
        !self.writer && self.readers == 0
    }

    /// The same parked bits with a writer holding the lock.
    pub open spec fn with_writer(self) -> Self {
        LockView { writer: true, readers: 0, ..self }
    }

    /// The same parked bits with `readers` readers holding the lock.
    pub open spec fn with_readers(self, readers: nat) -> Self {
        LockView { writer: false, readers, ..self }
    }

    /// The same holders with the writers-parked bit set.
    pub open spec fn with_writers_parked(self) -> Self {
        LockView { writers_parked: true, ..self }
    }

    /// The same holders with the readers-parked bit set.
    pub open spec fn with_readers_parked(self) -> Self {
        LockView { readers_parked: true, ..self }
    }
}

/// The arithmetic reading of the bit operations on a lock word.
pub proof fn lemma_word_bits(word: usize)
    ensures
        word & ONE_WRITER == 4 * (word / 4),
        (word & ONE_WRITER) >> 2 == word / 4,
        ONE_WRITER == 4 * (usize::MAX / 4),
        (word & ONE_WRITER == ONE_WRITER) == decode(word).writer,
        (word & ONE_WRITER == 0) == decode(word).is_free(),
        (word & READERS_PARKED != 0) == decode(word).readers_parked,
        (word & WRITERS_PARKED != 0) == decode(word).writers_parked,
        (word & READERS_PARKED == 0) == !decode(word).readers_parked,
        (word & WRITERS_PARKED == 0) == !decode(word).writers_parked,
{
    let top = usize::MAX;
    assert(word & !3usize == 4 * (word / 4)) by (bit_vector);
    assert((word & !3usize) >> 2 == word / 4) by (bit_vector);
    assert(word & 1usize == word % 2) by (bit_vector);
    assert(word & 2usize == 2 * ((word / 2) % 2)) by (bit_vector);
    assert(top <= !0usize) by (bit_vector);
    assert(!3usize == 4 * (!0usize / 4)) by (bit_vector);
}

proof fn lemma_low_bits(x: int)
    requires
        0 <= x,
    ensures
        x == 4 * (x / 4) + 2 * ((x / 2) % 2) + x % 2,
{
}

/// Two lock words that say the same are the same.
pub proof fn lemma_decode_injective(a: usize, b: usize)
    requires
        decode(a) == decode(b),
    ensures
        a == b,
{
    assert(holder_field(a) == holder_field(b));
    lemma_low_bits(a as int);
    lemma_low_bits(b as int);
    assert(a % 2 == b % 2);
    assert((a / 2) % 2 == (b / 2) % 2);
}

/// The word after a writer took a free lock, with the bits `extra` set as well.
pub proof fn lemma_claim_word(word: usize, extra: usize)
    requires
        decode(word).is_free(),
        extra == UNLOCKED || extra == WRITERS_PARKED,
    ensures
        decode(word | ONE_WRITER | extra) == (if extra == WRITERS_PARKED {
            decode(word).with_writer().with_writers_parked()
        } else {
            decode(word).with_writer()
        }),
{
    lemma_word_bits(word);
    let n: usize = word | ONE_WRITER | extra;
    lemma_word_bits(n);
    assert((word | !3usize | extra) & !3usize == !3usize) by (bit_vector);
    assert(extra == 0 || extra == 2 ==> (word | !3usize | extra) & 1 == word & 1) by (bit_vector);
    assert((word | !3usize | 0) & 2 == word & 2) by (bit_vector);
    assert((word | !3usize | 2) & 2 == 2) by (bit_vector);
}

/// The words after a parked bit was set.
pub proof fn lemma_park_words(word: usize)
    ensures
        decode(word | WRITERS_PARKED) == decode(word).with_writers_parked(),
        decode(word | READERS_PARKED) == decode(word).with_readers_parked(),
{
    let w: usize = word | WRITERS_PARKED;
    let r: usize = word | READERS_PARKED;
    assert((word | 2) / 4 == word / 4) by (bit_vector);
    assert((word | 1) / 4 == word / 4) by (bit_vector);
    assert((word | 2) % 2 == word % 2) by (bit_vector);
    assert(((word | 2) / 2) % 2 == 1) by (bit_vector);
    assert((word | 1) % 2 == 1) by (bit_vector);
    assert(((word | 1) / 2) % 2 == (word / 2) % 2) by (bit_vector);
}

/// The constants as lock words.
pub proof fn lemma_constant_words()
    ensures
        decode(UNLOCKED) == LockView::unlocked(),
        decode(ONE_WRITER) == LockView::unlocked().with_writer(),
        decode(WRITERS_PARKED) == LockView::unlocked().with_writers_parked(),
        decode(READERS_PARKED) == LockView::unlocked().with_readers_parked(),
        decode((ONE_READER | WRITERS_PARKED) as usize)
            == LockView::unlocked().with_readers(1).with_writers_parked(),
        ONE_WRITER as int + 3 == usize::MAX,
{
    lemma_word_bits(UNLOCKED);
    lemma_claim_word(UNLOCKED, UNLOCKED);
    assert(0usize | !3usize | 0usize == !3usize) by (bit_vector);
    assert(4usize | 2usize == 6) by (bit_vector);
    let top = usize::MAX;
    assert(top <= !0usize) by (bit_vector);
    assert(!3usize + 3 == !0usize) by (bit_vector);
}

/// Moving the holder count leaves the parked bits alone.
proof fn lemma_field_shift(word: int, count: int)
    ensures
        (word + 4 * count) / 4 == word / 4 + count,
        (word + 4 * count) % 2 == word % 2,
        ((word + 4 * count) / 2) % 2 == (word / 2) % 2,
{
    assert((word + 4 * count) / 2 == word / 2 + 2 * count);
}

/// The word after one more reader was counted.
pub proof fn lemma_add_reader_word(word: usize)
    ensures
        word + ONE_READER > usize::MAX <==> decode(word).writer,
        !decode(word).writer && decode(word).readers < max_readers() ==> decode(
            (word + ONE_READER) as usize,
        ) == decode(word).with_readers(decode(word).readers + 1),
        !decode(word).writer && decode(word).readers == max_readers() ==> decode(
            (word + ONE_READER) as usize,
        ) == decode(word).with_writer(),
{
    lemma_constant_words();
    lemma_word_bits(word);
    lemma_field_shift(word as int, 1);
    assert(word + ONE_READER > usize::MAX <==> decode(word).writer) by {
        assert(word / 4 <= usize::MAX / 4);
    }
    if !decode(word).writer {
        let n = (word + 4) as usize;
        assert(n == word + 4);
        assert(n as int / 4 == word as int / 4 + 1);
    }
}

/// The word after `count` readers were taken off.
pub proof fn lemma_remove_readers_word(word: usize, count: usize)
    requires
        !decode(word).writer,
        count <= decode(word).readers,
    ensures
        ONE_READER * count <= word,
        decode((word - ONE_READER * count) as usize) == decode(word).with_readers(
            (decode(word).readers - count) as nat,
        ),
{
    lemma_field_shift(word as int, -(count as int));
    let n = (word - 4 * count) as usize;
    assert(4 * count <= word);
    assert(n == word - 4 * count);
    assert(n as int / 4 == word as int / 4 - count);
}

/// Whether a writer holds the lock.
pub fn is_writer_locked(state: usize) -> (locked: bool)
    ensures
        locked == decode(state).writer,
{
    proof {
        lemma_word_bits(state);
    }
    (state & ONE_WRITER) == ONE_WRITER
}

/// How many readers hold the lock.
pub fn readers_count(state: usize) -> (count: usize)
    ensures
        count == decode(state).readers,
{
    proof {
        lemma_word_bits(state);
    }
    if is_writer_locked(state) {
        0
    } else {
        (state & ONE_WRITER) >> 2
    }
}

/// A lock word is its holder count four times over, and its two parked bits. All bits of the
/// holder count set are one writer; every smaller count is that many readers.
pub proof fn lemma_word_parts(word: usize)
    ensures
        word == 4 * (if decode(word).writer {
            usize::MAX as int / 4
        } else {
            decode(word).readers as int
        }) + (if decode(word).writers_parked {
            2int
        } else {
            0
        }) + (if decode(word).readers_parked {
            1int
        } else {
            0
        }),
        decode(word).writer ==> decode(word).readers == 0,
        decode(word).readers <= max_readers(),
        max_readers() + 1 == usize::MAX as int / 4,
        decode(word).is_free() <==> word < 4,
        !decode(word).writer <==> word as int / 4 <= max_readers(),
{
    lemma_low_bits(word as int);
}

/// Each step changes what it says and nothing else.
pub proof fn lemma_lock_steps(lock: LockView, readers: nat)
    ensures
        LockView::unlocked().is_free(),
        !LockView::unlocked().readers_parked,
        !LockView::unlocked().writers_parked,
        lock.is_free() <==> !lock.writer && lock.readers == 0,
        lock.with_writer().writer,
        lock.with_writer().readers == 0,
        lock.with_writer().readers_parked == lock.readers_parked,
        lock.with_writer().writers_parked == lock.writers_parked,
        !lock.with_readers(readers).writer,
        lock.with_readers(readers).readers == readers,
        lock.with_readers(readers).readers_parked == lock.readers_parked,
        lock.with_readers(readers).writers_parked == lock.writers_parked,
        lock.with_writers_parked().writer == lock.writer,
        lock.with_writers_parked().readers == lock.readers,
        lock.with_writers_parked().readers_parked == lock.readers_parked,
        lock.with_writers_parked().writers_parked,
        lock.with_readers_parked().writer == lock.writer,
        lock.with_readers_parked().readers == lock.readers,
        lock.with_readers_parked().readers_parked,
        lock.with_readers_parked().writers_parked == lock.writers_parked,
{
}

} // verus!
