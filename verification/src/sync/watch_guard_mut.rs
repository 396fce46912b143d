//! A guard over a value that is locked exclusively.

use crate::sync::mutex::{Mutex, Wake};
use vstd::prelude::*;
use vstd::std_specs::cmp::PartialEqSpec;

verus! {

/// Exclusive access to a value, together with a handle to the mutex that protects it. The
/// lock is held until [`WatchGuardMut::unlock`] gives it up.
#[must_use]
#[derive(Debug)]
pub struct WatchGuardMut<'a, T> {
    /// The value.
    pub data: &'a mut T,
    /// The mutex, locked exclusively.
    pub lock: &'a mut Mutex,
}

impl<'a, T> WatchGuardMut<'a, T> {
    /// A guard over `data`, which `lock` protects. The guard takes over one handle to `lock`.
    pub fn new(data: &'a mut T, lock: &'a mut Mutex) -> (guard: WatchGuardMut<'a, T>)
        ensures
            *guard.data == *old(data),
            *guard.lock == *old(lock),
            *final(guard.data) == *final(data),
            *final(guard.lock) == *final(lock),
    {
        WatchGuardMut { data, lock }
    }

    /// Whether the mutex is locked exclusively.
    pub fn is_locked(&self) -> (locked: bool)
        ensures
            locked == old(self.lock)@.lock.writer,
    {
        self.lock.is_locked_exclusive()
    }

    /// The value. The mutex has to be locked exclusively.
    pub fn deref(&self) -> (value: &T)
        requires
            old(self.lock)@.lock.writer,
        ensures
            *value == *old(self.data),
    {
        &*self.data
    }

    /// The value, to be changed in place. The mutex has to be locked exclusively.
    pub fn deref_mut(&mut self) -> (value: &mut T)
        requires
            old(self).lock@.lock.writer,
        ensures
            *value == *old(self).data,
            *final(self).data == *final(value),
            *final(final(self).data) == *final(old(self).data),
            final(self).lock == old(self).lock,
    {
        &mut *self.data
    }

    /// Ends the access: the value stays as it is, the mutex is unlocked, and its handle goes.
    pub fn unlock(self) -> (wake: Wake)
        ensures
            *final(self.data) == *old(self.data),
            wake.writer == old(self.lock)@.lock.writers_parked,
            wake.readers == old(self.lock)@.lock.readers_parked,
            final(self.lock)@ == old(self.lock)@.released().without_handle(),
    {
        let wake = self.lock.unlock_exclusive();
        self.lock.drop_ref();
        wake
    }

    /// Compares the value with `other`.
    pub fn eq<U>(&self, other: &U) -> (equal: bool) where T: PartialEq<U>
        ensures
            <T as PartialEqSpec<U>>::obeys_eq_spec() ==> equal == (*old(self.data)).eq_spec(other),
    {
        *self.data == *other
    }
}

} // verus!
