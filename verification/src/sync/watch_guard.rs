//! A guard that owns its value and its mutex.

use crate::sync::mutex::{Mutex, Wake};
use vstd::prelude::*;
use vstd::std_specs::cmp::PartialEqSpec;

verus! {

use crate::sync::mutex::{hands_over, MutexView};

/// A value together with a mutex of its own.
#[must_use]
#[derive(Debug)]
pub struct WatchGuard<T> {
    data: T,
    lock: Mutex,
}

impl<T> WatchGuard<T> {
    /// The value.
    pub closed spec fn view(&self) -> T {
        self.data
    }

    /// The mutex.
    pub closed spec fn raw(self) -> MutexView {
        self.lock@
    }

    /// A guard over `data` with a free mutex.
    pub fn new(data: T) -> (guard: WatchGuard<T>)
        ensures
            guard@ == data,
            guard.raw() == MutexView::fresh(),
    {
        WatchGuard { data, lock: Mutex::new() }
    }

    /// A guard over `data` that takes `lock` over as it is.
    pub fn new_locked(data: T, lock: Mutex) -> (guard: WatchGuard<T>)
        ensures
            guard@ == data,
            guard.raw() == lock@,
    {
        WatchGuard { data, lock }
    }

    /// Whether a writer holds the mutex.
    pub fn is_locked(&self) -> (locked: bool)
        ensures
            locked == self.raw().lock.writer,
    {
        self.lock.is_locked_exclusive()
    }

    /// Takes the mutex for writing. Nobody may hold it: a thread that finds a holder waits.
    pub fn lock(&mut self)
        requires
            old(self).raw().lock.is_free(),
        ensures
            final(self)@ == old(self)@,
            final(self).raw() == old(self).raw().claimed(),
    {
        self.lock.lock_exclusive();
    }

    /// Gives up the mutex that was taken for writing.
    pub fn unlock(&mut self) -> (wake: Wake)
        ensures
            wake.writer == old(self).raw().lock.writers_parked,
            wake.readers == old(self).raw().lock.readers_parked,
            final(self)@ == old(self)@,
            final(self).raw() == old(self).raw().released(),
    {
        self.lock.unlock_exclusive()
    }

    /// The value.
    pub fn deref(&self) -> (value: &T)
        ensures
            *value == self@,
    {
        &self.data
    }

    /// The value, to be changed in place.
    pub fn deref_mut(&mut self) -> (value: &mut T)
        ensures
            *value == old(self)@,
            final(self)@ == *final(value),
            final(self).raw() == old(self).raw(),
    {
        &mut self.data
    }

    /// What happens when the guard goes: the hold that there is on its mutex goes too, that of
    /// the writer or that of one reader. A mutex that nobody holds stays as it is. Gives the
    /// value and the mutex back.
    pub fn release(self) -> (parts: (T, Mutex, Wake))
        ensures
            parts.0 == self@,
            parts.1@ == if self.raw().lock.writer {
                self.raw().released()
            } else if self.raw().lock.readers > 0 {
                self.raw().left()
            } else {
                self.raw()
            },
            parts.2.writer == if self.raw().lock.writer {
                self.raw().lock.writers_parked
            } else {
                self.raw().lock.readers > 0 && hands_over(self.raw().lock)
            },
            parts.2.readers == (self.raw().lock.writer && self.raw().lock.readers_parked),
    {
        let mut lock = self.lock;
        let wake = lock.unlock_hold();
        (self.data, lock, wake)
    }

    /// Compares the value with `other`.
    pub fn eq<U>(&self, other: &U) -> (equal: bool) where T: PartialEq<U>
        ensures
            <T as PartialEqSpec<U>>::obeys_eq_spec() ==> equal == self@.eq_spec(other),
    {
        self.data == *other
    }
}

} // verus!
