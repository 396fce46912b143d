//! What to ask of the operating system when a thread sleeps on a word or wakes its sleepers.
//!
//! The system compares and wakes on the lower half of the word. A sleep whose word has
//! already moved on is no sleep, and a wake on no word wakes nobody: neither needs a call.

use vstd::prelude::*;

verus! {

use crate::bits::{bumped_times, lemma_bumped_times, word_values};

/// The call that a wait or a wake comes down to.
#[derive(Clone, Copy, Debug, PartialEq, Eq, Structural)]
pub enum FutexCall {
    /// No call: the wait is over before it began, or there is no word.
    Nothing,
    /// Sleep while the lower half of the word is `expected`.
    Wait { expected: u32 },
    /// Wake up to `count` threads that sleep on the word.
    Wake { count: u32 },
}

/// The half of a word that the system compares.
pub open spec fn lower_half(word: usize) -> u32 {
    (word as int % 0x1_0000_0000) as u32
}

/// The lower half of a word.
fn compared(word: usize) -> (half: u32)
    ensures
        half == lower_half(word),
{
    let wide: u64 = word as u64;
    proof {
        assert(wide & 0xffff_ffffu64 == wide % 0x1_0000_0000u64) by (bit_vector);
    }
    (wide & 0xffff_ffffu64) as u32
}

/// If the word `current` matches `value`, wait until woken up. The wait may end spuriously:
/// the caller looks again.
pub fn futex_wait(current: usize, value: usize) -> (call: FutexCall)
    ensures
        call == if lower_half(current) == lower_half(value) {
            FutexCall::Wait { expected: lower_half(value) }
        } else {
            FutexCall::Nothing
        },
{
    let expected: u32 = compared(value);
    if compared(current) == expected {
        FutexCall::Wait { expected }
    } else {
        FutexCall::Nothing
    }
}

/// Wake one thread that waits on the word. It is fine if there is no word.
pub fn futex_wake(word: Option<usize>) -> (call: FutexCall)
    ensures
        call == if word is Some {
            FutexCall::Wake { count: 1 }
        } else {
            FutexCall::Nothing
        },
{
    if word.is_some() {
        FutexCall::Wake { count: 1 }
    } else {
        FutexCall::Nothing
    }
}

/// Wake all threads that wait on the word. It is fine if there is no word.
pub fn futex_wake_all(word: Option<usize>) -> (call: FutexCall)
    ensures
        call == if word is Some {
            FutexCall::Wake { count: u32::MAX }
        } else {
            FutexCall::Nothing
        },
{
    if word.is_some() {
        FutexCall::Wake { count: u32::MAX }
    } else {
        FutexCall::Nothing
    }
}

/// A thread that has read a counter does not sleep on it once the counter was counted on, as
/// long as it was not counted on so far that its lower half came round: between the read and
/// the sleep no wake is lost.
pub proof fn lemma_counted_on_is_no_sleep(seen: usize, times: nat)
    requires
        0 < times < 0x1_0000_0000,
    ensures
        lower_half(bumped_times(seen, times)) != lower_half(seen),
        bumped_times(seen, times) != seen,
{
    let half = 0x1_0000_0000int;
    let now = bumped_times(seen, times);
    lemma_bumped_times(seen, times);
    assert(word_values() % half == 0 && word_values() >= half) by {
        vstd::layout::unsigned_int_max_values();
        vstd::arithmetic::power2::lemma2_to64();
    }
    if seen + times >= word_values() {
        vstd::arithmetic::div_mod::lemma_fundamental_div_mod_converse(
            seen + times,
            word_values(),
            1,
            seen + times - word_values(),
        );
        assert(now == seen + times - word_values());
    } else {
        vstd::arithmetic::div_mod::lemma_small_mod((seen + times) as nat, word_values() as nat);
        assert(now == seen + times);
    }
    if now as int % half == seen as int % half {
        vstd::arithmetic::div_mod::lemma_mod_equivalence(now as int, seen as int, half);
        if seen + times >= word_values() {
            vstd::arithmetic::div_mod::lemma_sub_mod_noop(times as int, word_values(), half);
            assert((times - word_values()) % half == 0);
        }
        vstd::arithmetic::div_mod::lemma_small_mod(times, half as nat);
        assert(false);
    }
}

/// The half that the system compares is what is left of a word beyond whole multiples of its
/// own range: two words are told apart unless they are such a multiple apart.
pub proof fn lemma_halves(word: usize, other: usize)
    ensures
        word == 0x1_0000_0000 * (word as int / 0x1_0000_0000) + lower_half(word),
        word < 0x1_0000_0000 ==> lower_half(word) == word,
        lower_half(word) == lower_half(other) <==> (word - other) % 0x1_0000_0000 == 0,
{
}

} // verus!
