//! A value of any type that is read and changed as a whole.
//!
//! [`Atomic`] is the value that the threads share. A thread makes each call while it holds the
//! mutex around the value: in group mode where it only reads, exclusively where it writes.

use std::ops::{Add, BitAnd, BitOr, BitXor, Sub};
use vstd::prelude::*;
use vstd::std_specs::cmp::{PartialEqSpec, PartialOrdSpec};
use vstd::std_specs::ops::{AddSpec, BitAndSpec, BitOrSpec, BitXorSpec, SubSpec};
use vstd::string::StringExecFns;

verus! {

/// A value of any type.
#[derive(Debug)]
pub struct Atomic<T> {
    value: T,
}

impl<T> Atomic<T> {
    /// The value.
    pub closed spec fn view(&self) -> T {
        self.value
    }

    /// Holds `value`.
    pub fn new(value: T) -> (atomic: Self)
        ensures
            atomic@ == value,
    {
        Atomic { value }
    }

    /// Takes the value out.
    pub fn into_inner(self) -> (value: T)
        ensures
            value == self@,
    {
        self.value
    }

    /// The value, to be changed in place.
    pub fn get_mut(&mut self) -> (value: &mut T)
        ensures
            *value == old(self)@,
            final(self)@ == *final(value),
    {
        &mut self.value
    }

    /// What `f` gives for the value.
    pub fn with<F, R>(&self, f: F) -> (result: R) where F: FnOnce(&T) -> R
        requires
            f.requires((&self@,)),
        ensures
            f.ensures((&self@,), result),
    {
        f(&self.value)
    }

    /// What `f` gives for the value, which it may change in place.
    pub fn with_mut<F, R>(&mut self, f: F) -> (result: R) where F: FnOnce(&mut T) -> R
        requires
            forall|value: &mut T| *value == old(self)@ ==> #[trigger] f.requires((value,)),
        ensures
            exists|value: &mut T|
                {
                    &&& *value == old(self)@
                    &&& *final(value) == final(self)@
                    &&& #[trigger] f.ensures((value,), result)
                },
    {
        f(&mut self.value)
    }

    /// Puts what `f` gives for the value in its place. Returns the value before.
    pub fn replace_with<F>(&mut self, f: F) -> (previous: T) where F: FnOnce(&T) -> T
        requires
            f.requires((&old(self)@,)),
        ensures
            previous == old(self)@,
            f.ensures((&old(self)@,), final(self)@),
    {
        let mut new = f(&self.value);
        std::mem::swap(&mut self.value, &mut new);
        new
    }

    /// Lets `f` change the value in place.
    pub fn update<F>(&mut self, f: F) where F: FnOnce(&mut T)
        requires
            forall|value: &mut T| *value == old(self)@ ==> #[trigger] f.requires((value,)),
        ensures
            exists|value: &mut T|
                {
                    &&& *value == old(self)@
                    &&& *final(value) == final(self)@
                    &&& #[trigger] f.ensures((value,), ())
                },
    {
        f(&mut self.value)
    }

    /// Lets `f` change the value in place, and passes on whether it succeeded. What `f` changed
    /// stays changed in either case.
    pub fn try_update<F>(&mut self, f: F) -> (result: Result<(), ()>) where
        F: FnOnce(&mut T) -> bool,

        requires
            forall|value: &mut T| *value == old(self)@ ==> #[trigger] f.requires((value,)),
        ensures
            exists|value: &mut T, done: bool|
                {
                    &&& *value == old(self)@
                    &&& *final(value) == final(self)@
                    &&& #[trigger] f.ensures((value,), done)
                    &&& result is Ok <==> done
                },
    {
        if f(&mut self.value) {
            Ok(())
        } else {
            Err(())
        }
    }
}

impl<T: Clone> Atomic<T> {
    /// A clone of the value.
    pub fn load(&self) -> (value: T)
        ensures
            cloned(self@, value),
    {
        self.value.clone()
    }

    /// Puts `val` in place of the value.
    pub fn store(&mut self, val: T)
        ensures
            final(self)@ == val,
    {
        self.value = val;
    }

    /// Puts `val` in place of the value. Returns a clone of the value before.
    pub fn swap(&mut self, val: T) -> (previous: T)
        ensures
            cloned(old(self)@, previous),
            final(self)@ == val,
    {
        let previous = self.value.clone();
        self.value = val;
        previous
    }

    /// Puts the type's default in place of the value. Returns a clone of the value before.
    pub fn take_default(&mut self) -> (previous: T) where T: Default
        ensures
            cloned(old(self)@, previous),
            T::default.ensures((), final(self)@),
    {
        self.swap(T::default())
    }
}

impl<T: Copy> Atomic<T> {
    /// A copy of the value.
    pub fn load_copy(&self) -> (value: T)
        ensures
            value == self@,
    {
        self.value
    }

    /// Puts `val` in place of the value. Returns the value before.
    pub fn swap_copy(&mut self, val: T) -> (previous: T)
        ensures
            previous == old(self)@,
            final(self)@ == val,
    {
        let previous: T = self.value;
        self.value = val;
        previous
    }
}

impl<T: Clone + PartialEq> Atomic<T> {
    /// Puts `new` in place of the value if a clone of the value equals `current`. Returns the
    /// clone, as an error where it differs.
    pub fn compare_exchange(&mut self, current: T, new: T) -> (result: Result<T, T>)
        ensures
            ({
                let seen = match result {
                    Ok(seen) => seen,
                    Err(seen) => seen,
                };
                &&& cloned(old(self)@, seen)
                &&& T::obeys_eq_spec() ==> (result is Ok <==> seen.eq_spec(&current))
            }),
            final(self)@ == if result is Ok {
                new
            } else {
                old(self)@
            },
    {
        let seen = self.value.clone();
        if seen == current {
            self.value = new;
            Ok(seen)
        } else {
            Err(seen)
        }
    }

    /// The same as [`Atomic::compare_exchange`].
    pub fn compare_exchange_weak(&mut self, current: T, new: T) -> (result: Result<T, T>)
        ensures
            ({
                let seen = match result {
                    Ok(seen) => seen,
                    Err(seen) => seen,
                };
                &&& cloned(old(self)@, seen)
                &&& T::obeys_eq_spec() ==> (result is Ok <==> seen.eq_spec(&current))
            }),
            final(self)@ == if result is Ok {
                new
            } else {
                old(self)@
            },
    {
        self.compare_exchange(current, new)
    }

    /// Puts `new` in place of the value if a clone of the value equals `current`. Returns the
    /// clone either way.
    pub fn compare_and_swap(&mut self, current: T, new: T) -> (seen: T)
        ensures
            cloned(old(self)@, seen),
            final(self)@ == new || final(self)@ == old(self)@,
            T::obeys_eq_spec() ==> final(self)@ == if seen.eq_spec(&current) {
                new
            } else {
                old(self)@
            },
    {
        match self.compare_exchange(current, new) {
            Ok(seen) => seen,
            Err(seen) => seen,
        }
    }

    /// Puts what `f` gives for a clone of the value in its place. Returns the clone, as an
    /// error where `f` gives nothing.
    pub fn fetch_update<F>(&mut self, f: F) -> (result: Result<T, T>) where
        F: FnMut(&T) -> Option<T>,

        requires
            forall|seen: T| cloned(old(self)@, seen) ==> #[trigger] f.requires((&seen,)),
        ensures
            match result {
                Ok(seen) => {
                    &&& cloned(old(self)@, seen)
                    &&& f.ensures((&seen,), Some(final(self)@))
                },
                Err(seen) => {
                    &&& cloned(old(self)@, seen)
                    &&& f.ensures((&seen,), None)
                    &&& final(self)@ == old(self)@
                },
            },
    {
        let mut f = f;
        let seen = self.value.clone();
        match f(&seen) {
            Some(new) => {
                self.value = new;
                Ok(seen)
            },
            None => Err(seen),
        }
    }
}

impl<T: Copy + Add<Output = T>> Atomic<T> {
    /// Adds `val` to the value. Returns the value before.
    pub fn fetch_add(&mut self, val: T) -> (previous: T)
        requires
            old(self)@.add_req(val),
        ensures
            previous == old(self)@,
            T::obeys_add_spec() ==> final(self)@ == old(self)@.add_spec(val),
    {
        let previous: T = self.value;
        self.value = previous + val;
        previous
    }
}

impl<T: Copy + Sub<Output = T>> Atomic<T> {
    /// Subtracts `val` from the value. Returns the value before.
    pub fn fetch_sub(&mut self, val: T) -> (previous: T)
        requires
            old(self)@.sub_req(val),
        ensures
            previous == old(self)@,
            T::obeys_sub_spec() ==> final(self)@ == old(self)@.sub_spec(val),
    {
        let previous: T = self.value;
        self.value = previous - val;
        previous
    }
}

impl<T: Copy + BitAnd<Output = T>> Atomic<T> {
    /// Keeps the bits that `val` has too. Returns the value before.
    pub fn fetch_and_bits(&mut self, val: T) -> (previous: T)
        requires
            old(self)@.bitand_req(val),
        ensures
            previous == old(self)@,
            T::obeys_bitand_spec() ==> final(self)@ == old(self)@.bitand_spec(val),
    {
        let previous: T = self.value;
        self.value = previous & val;
        previous
    }
}

impl<T: Copy + BitOr<Output = T>> Atomic<T> {
    /// Sets the bits that `val` has. Returns the value before.
    pub fn fetch_or_bits(&mut self, val: T) -> (previous: T)
        requires
            old(self)@.bitor_req(val),
        ensures
            previous == old(self)@,
            T::obeys_bitor_spec() ==> final(self)@ == old(self)@.bitor_spec(val),
    {
        let previous: T = self.value;
        self.value = previous | val;
        previous
    }
}

impl<T: Copy + BitXor<Output = T>> Atomic<T> {
    /// Flips the bits that `val` has. Returns the value before.
    pub fn fetch_xor_bits(&mut self, val: T) -> (previous: T)
        requires
            old(self)@.bitxor_req(val),
        ensures
            previous == old(self)@,
            T::obeys_bitxor_spec() ==> final(self)@ == old(self)@.bitxor_spec(val),
    {
        let previous: T = self.value;
        self.value = previous ^ val;
        previous
    }
}

impl<T: Copy + PartialOrd> Atomic<T> {
    /// Puts `val` in place of the value if it is greater. Returns the value before.
    pub fn fetch_max(&mut self, val: T) -> (previous: T)
        ensures
            previous == old(self)@,
            final(self)@ == val || final(self)@ == old(self)@,
            T::obeys_partial_cmp_spec() ==> final(self)@ == if val.partial_cmp_spec(&old(self)@)
                == Some(std::cmp::Ordering::Greater) {
                val
            } else {
                old(self)@
            },
    {
        let previous: T = self.value;
        if val > previous {
            self.value = val;
        }
        previous
    }

    /// Puts `val` in place of the value if it is less. Returns the value before.
    pub fn fetch_min(&mut self, val: T) -> (previous: T)
        ensures
            previous == old(self)@,
            final(self)@ == val || final(self)@ == old(self)@,
            T::obeys_partial_cmp_spec() ==> final(self)@ == if val.partial_cmp_spec(&old(self)@)
                == Some(std::cmp::Ordering::Less) {
                val
            } else {
                old(self)@
            },
    {
        let previous: T = self.value;
        if val < previous {
            self.value = val;
        }
        previous
    }
}

impl Atomic<bool> {
    /// Puts the conjunction with `val` in place of the value. Returns the value before.
    pub fn fetch_and(&mut self, val: bool) -> (previous: bool)
        ensures
            previous == old(self)@,
            final(self)@ == (old(self)@ && val),
    {
        let previous: bool = self.value;
        self.value = previous && val;
        previous
    }

    /// Puts the disjunction with `val` in place of the value. Returns the value before.
    pub fn fetch_or(&mut self, val: bool) -> (previous: bool)
        ensures
            previous == old(self)@,
            final(self)@ == (old(self)@ || val),
    {
        let previous: bool = self.value;
        self.value = previous || val;
        previous
    }

    /// Puts whether the value differs from `val` in its place. Returns the value before.
    pub fn fetch_xor(&mut self, val: bool) -> (previous: bool)
        ensures
            previous == old(self)@,
            final(self)@ == (old(self)@ != val),
    {
        let previous: bool = self.value;
        self.value = previous != val;
        previous
    }

    /// Puts the negated conjunction with `val` in place of the value. Returns the value before.
    pub fn fetch_nand(&mut self, val: bool) -> (previous: bool)
        ensures
            previous == old(self)@,
            final(self)@ == !(old(self)@ && val),
    {
        let previous: bool = self.value;
        self.value = !(previous && val);
        previous
    }
}

impl Atomic<i8> {
    /// Puts the bitwise NAND of the value and `val` in place of the value. Returns the value
    /// before.
    pub fn fetch_nand(&mut self, val: i8) -> (previous: i8)
        ensures
            previous == old(self)@,
            final(self)@ == !(old(self)@ & val),
    {
        let previous: i8 = self.value;
        self.value = !(previous & val);
        previous
    }
}

impl Atomic<i16> {
    /// Puts the bitwise NAND of the value and `val` in place of the value. Returns the value
    /// before.
    pub fn fetch_nand(&mut self, val: i16) -> (previous: i16)
        ensures
            previous == old(self)@,
            final(self)@ == !(old(self)@ & val),
    {
        let previous: i16 = self.value;
        self.value = !(previous & val);
        previous
    }
}

impl Atomic<i32> {
    /// Puts the bitwise NAND of the value and `val` in place of the value. Returns the value
    /// before.
    pub fn fetch_nand(&mut self, val: i32) -> (previous: i32)
        ensures
            previous == old(self)@,
            final(self)@ == !(old(self)@ & val),
    {
        let previous: i32 = self.value;
        self.value = !(previous & val);
        previous
    }
}

impl Atomic<i64> {
    /// Puts the bitwise NAND of the value and `val` in place of the value. Returns the value
    /// before.
    pub fn fetch_nand(&mut self, val: i64) -> (previous: i64)
        ensures
            previous == old(self)@,
            final(self)@ == !(old(self)@ & val),
    {
        let previous: i64 = self.value;
        self.value = !(previous & val);
        previous
    }
}

impl Atomic<i128> {
    /// Puts the bitwise NAND of the value and `val` in place of the value. Returns the value
    /// before.
    pub fn fetch_nand(&mut self, val: i128) -> (previous: i128)
        ensures
            previous == old(self)@,
            final(self)@ == !(old(self)@ & val),
    {
        let previous: i128 = self.value;
        self.value = !(previous & val);
        previous
    }
}

impl Atomic<isize> {
    /// Puts the bitwise NAND of the value and `val` in place of the value. Returns the value
    /// before.
    pub fn fetch_nand(&mut self, val: isize) -> (previous: isize)
        ensures
            previous == old(self)@,
            final(self)@ == !(old(self)@ & val),
    {
        let previous: isize = self.value;
        self.value = !(previous & val);
        previous
    }
}

impl Atomic<u8> {
    /// Puts the bitwise NAND of the value and `val` in place of the value. Returns the value
    /// before.
    pub fn fetch_nand(&mut self, val: u8) -> (previous: u8)
        ensures
            previous == old(self)@,
            final(self)@ == !(old(self)@ & val),
    {
        let previous: u8 = self.value;
        self.value = !(previous & val);
        previous
    }
}

impl Atomic<u16> {
    /// Puts the bitwise NAND of the value and `val` in place of the value. Returns the value
    /// before.
    pub fn fetch_nand(&mut self, val: u16) -> (previous: u16)
        ensures
            previous == old(self)@,
            final(self)@ == !(old(self)@ & val),
    {
        let previous: u16 = self.value;
        self.value = !(previous & val);
        previous
    }
}

impl Atomic<u32> {
    /// Puts the bitwise NAND of the value and `val` in place of the value. Returns the value
    /// before.
    pub fn fetch_nand(&mut self, val: u32) -> (previous: u32)
        ensures
            previous == old(self)@,
            final(self)@ == !(old(self)@ & val),
    {
        let previous: u32 = self.value;
        self.value = !(previous & val);
        previous
    }
}

impl Atomic<u64> {
    /// Puts the bitwise NAND of the value and `val` in place of the value. Returns the value
    /// before.
    pub fn fetch_nand(&mut self, val: u64) -> (previous: u64)
        ensures
            previous == old(self)@,
            final(self)@ == !(old(self)@ & val),
    {
        let previous: u64 = self.value;
        self.value = !(previous & val);
        previous
    }
}

impl Atomic<u128> {
    /// Puts the bitwise NAND of the value and `val` in place of the value. Returns the value
    /// before.
    pub fn fetch_nand(&mut self, val: u128) -> (previous: u128)
        ensures
            previous == old(self)@,
            final(self)@ == !(old(self)@ & val),
    {
        let previous: u128 = self.value;
        self.value = !(previous & val);
        previous
    }
}

impl Atomic<usize> {
    /// Puts the bitwise NAND of the value and `val` in place of the value. Returns the value
    /// before.
    pub fn fetch_nand(&mut self, val: usize) -> (previous: usize)
        ensures
            previous == old(self)@,
            final(self)@ == !(old(self)@ & val),
    {
        let previous: usize = self.value;
        self.value = !(previous & val);
        previous
    }
}

impl Atomic<String> {
    /// Appends `s`.
    pub fn push_str(&mut self, s: &str)
        ensures
            final(self)@@ == old(self)@@ + s@,
    {
        self.value.append(s);
    }

    /// Makes the string empty.
    pub fn clear(&mut self)
        ensures
            final(self)@@ == Seq::<char>::empty(),
    {
        self.value = String::new();
    }

    /// How many bytes the string has.
    pub fn len(&self) -> (len: usize)
        ensures
            len == vstd::utf8::encode_utf8(self@@).len() as usize,
    {
        self.value.as_str().len()
    }

    /// Whether the string is empty.
    pub fn is_empty(&self) -> (empty: bool)
        ensures
            empty == (self@@.len() == 0),
    {
        self.value.as_str().is_empty()
    }
}

impl<T: Clone> Atomic<Vec<T>> {
    /// Appends an element.
    pub fn push(&mut self, value: T)
        ensures
            final(self)@@ == old(self)@@.push(value),
    {
        self.value.push(value);
    }

    /// Takes the last element; `None` when there is none.
    pub fn pop(&mut self) -> (result: Option<T>)
        ensures
            result is None <==> old(self)@@.len() == 0,
            result is None ==> final(self)@@ == old(self)@@,
            result matches Some(value) ==> {
                &&& value == old(self)@@.last()
                &&& final(self)@@ == old(self)@@.drop_last()
            },
    {
        self.value.pop()
    }

    /// How many elements there are.
    pub fn len(&self) -> (len: usize)
        ensures
            len == self@@.len(),
    {
        self.value.len()
    }

    /// Whether there is no element.
    pub fn is_empty(&self) -> (empty: bool)
        ensures
            empty == (self@@.len() == 0),
    {
        self.value.len() == 0
    }

    /// Drops every element.
    pub fn clear(&mut self)
        ensures
            final(self)@@ == Seq::<T>::empty(),
    {
        self.value.clear();
    }

    /// Appends the items, the first one first.
    pub fn extend(&mut self, items: Vec<T>)
        ensures
            final(self)@@ == old(self)@@ + items@,
    {
        let mut items = items;
        self.value.append(&mut items);
    }
}

impl<T: Clone> Atomic<Option<T>> {
    /// Whether there is a value.
    pub fn is_some(&self) -> (some: bool)
        ensures
            some == (self@ is Some),
    {
        self.value.is_some()
    }

    /// Whether there is no value.
    pub fn is_none(&self) -> (none: bool)
        ensures
            none == (self@ is None),
    {
        self.value.is_none()
    }

    /// Takes the value out and leaves none.
    pub fn take(&mut self) -> (previous: Option<T>)
        ensures
            previous == old(self)@,
            final(self)@ is None,
    {
        self.value.take()
    }

    /// Puts `value` in place. Returns what was there.
    pub fn replace(&mut self, value: T) -> (previous: Option<T>)
        ensures
            previous == old(self)@,
            final(self)@ == Some(value),
    {
        let mut new = Some(value);
        std::mem::swap(&mut self.value, &mut new);
        new
    }
}

impl<T: Default> Default for Atomic<T> {
    /// Holds the type's default.
    fn default() -> (atomic: Self)
        ensures
            T::default.ensures((), atomic@),
    {
        Self::new(T::default())
    }
}

impl<T> From<T> for Atomic<T> {
    /// Holds `value`.
    fn from(value: T) -> (atomic: Self)
        ensures
            atomic@ == value,
    {
        Self::new(value)
    }
}

impl<T> vstd::std_specs::convert::FromSpecImpl<T> for Atomic<T> {
    open spec fn obeys_from_spec() -> bool {
        true
    }

    closed spec fn from_spec(value: T) -> Self {
        Atomic { value }
    }
}

} // verus!
