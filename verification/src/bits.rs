//! Facts about masks, shifts and wrap-around that the index arithmetic rests on.

use vstd::arithmetic::div_mod::lemma_mod_multiples_basic;
use vstd::arithmetic::power::pow;
use vstd::arithmetic::power2::{
    is_pow2, is_pow2_equiv, lemma_pow2_adds, lemma_pow2_pos, lemma_pow2_strictly_increases, pow2,
};
use vstd::bits::{lemma_usize_low_bits_mask_is_mod, low_bits_mask};
use vstd::prelude::*;

verus! {

/// The number of values of `usize`, the modulus of every wrapping counter.
pub open spec fn word_values() -> int {
    usize::MAX as int + 1
}

/// The successor of a wrapping counter.
pub open spec fn bumped(counter: usize) -> usize {
    if counter == usize::MAX {
        0
    } else {
        (counter + 1) as usize
    }
}

/// The predecessor of a wrapping counter.
pub open spec fn lowered(counter: usize) -> usize {
    if counter == 0 {
        usize::MAX
    } else {
        (counter - 1) as usize
    }
}

/// A wrapping counter after `times` successors.
pub open spec fn bumped_times(counter: usize, times: nat) -> usize
    decreases times,
{
    if times == 0 {
        counter
    } else {
        bumped(bumped_times(counter, (times - 1) as nat))
    }
}

/// Successors add up, modulo the word size.
pub proof fn lemma_bumped_times(counter: usize, times: nat)
    ensures
        bumped_times(counter, times) as int == (counter + times) % word_values(),
    decreases times,
{
    if times > 0 {
        lemma_bumped_times(counter, (times - 1) as nat);
        let before = counter + times - 1;
        vstd::arithmetic::div_mod::lemma_add_mod_noop(before, 1, word_values());
        if before % word_values() == usize::MAX {
            vstd::arithmetic::div_mod::lemma_mod_self_0(word_values());
        } else {
            vstd::arithmetic::div_mod::lemma_small_mod(
                (before % word_values() + 1) as nat,
                word_values() as nat,
            );
        }
        vstd::arithmetic::div_mod::lemma_small_mod(1, word_values() as nat);
    } else {
        vstd::arithmetic::div_mod::lemma_small_mod(counter as nat, word_values() as nat);
    }
}

/// A power of two that fits in `usize` is `2^n` for an `n` below the word size.
pub proof fn lemma_pow2_exponent(cap: usize) -> (n: nat)
    requires
        is_pow2(cap as int),
    ensures
        pow2(n) == cap,
        n < usize::BITS,
{
    is_pow2_equiv(cap as int);
    let n = choose|i: nat| pow(2, i) == cap;
    vstd::layout::unsigned_int_max_values();
    if n >= usize::BITS {
        if n > usize::BITS {
            lemma_pow2_strictly_increases(usize::BITS as nat, n);
        }
        assert(pow2(n) >= pow2(usize::BITS as nat));
    }
    n
}

/// Masking with `cap - 1` reduces modulo `cap` when `cap` is a power of two.
pub proof fn lemma_mask_is_mod(x: usize, cap: usize)
    requires
        is_pow2(cap as int),
    ensures
        cap > 0,
        x & ((cap - 1) as usize) == x % cap,
{
    let n = lemma_pow2_exponent(cap);
    lemma_pow2_pos(n);
    lemma_usize_low_bits_mask_is_mod(x, n);
    assert(low_bits_mask(n) == cap - 1);
}

/// A power of two divides the number of values of `usize`.
pub proof fn lemma_pow2_divides_word(cap: usize)
    requires
        is_pow2(cap as int),
    ensures
        cap > 0,
        word_values() % (cap as int) == 0,
{
    let n = lemma_pow2_exponent(cap);
    lemma_pow2_pos(n);
    vstd::layout::unsigned_int_max_values();
    let rest = (usize::BITS - n) as nat;
    lemma_pow2_adds(rest, n);
    assert(pow2(usize::BITS as nat) == pow2(rest) * pow2(n));
    lemma_mod_multiples_basic(pow2(rest) as int, cap as int);
}

/// A wrapping counter counts modulo the number of values of a word, its predecessor undoes its
/// successor, and counting on in two stages is counting on by their sum.
pub proof fn lemma_wrapping_count(counter: usize, first: nat, second: nat)
    ensures
        word_values() == usize::MAX + 1,
        bumped(counter) as int == (counter + 1) % (usize::MAX + 1),
        lowered(counter) as int == (counter - 1) % (usize::MAX + 1),
        lowered(bumped(counter)) == counter,
        bumped(lowered(counter)) == counter,
        bumped_times(counter, 0) == counter,
        bumped_times(counter, 1) == bumped(counter),
        bumped_times(bumped_times(counter, first), second) == bumped_times(
            counter,
            first + second,
        ),
    decreases second,
{
    assert(word_values() == usize::MAX + 1);
    if counter == usize::MAX {
        vstd::arithmetic::div_mod::lemma_mod_self_0(usize::MAX + 1);
    } else {
        vstd::arithmetic::div_mod::lemma_small_mod((counter + 1) as nat, (usize::MAX + 1) as nat);
    }
    if counter == 0 {
        vstd::arithmetic::div_mod::lemma_mod_add_multiples_vanish(-1, usize::MAX + 1);
        vstd::arithmetic::div_mod::lemma_small_mod(usize::MAX as nat, (usize::MAX + 1) as nat);
    } else {
        vstd::arithmetic::div_mod::lemma_small_mod((counter - 1) as nat, (usize::MAX + 1) as nat);
    }
    assert(bumped_times(counter, 0) == counter);
    if second > 0 {
        lemma_wrapping_count(counter, first, (second - 1) as nat);
        assert((first + second - 1) as nat == first + (second - 1) as nat);
    }
}

} // verus!
