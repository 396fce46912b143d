//! A guard over a value that is locked for reading.

use crate::sync::mutex::{Mutex, Wake};
use vstd::prelude::*;
use vstd::std_specs::cmp::PartialEqSpec;

verus! {

use crate::sync::mutex::hands_over;

/// Shared access to a value, together with a handle to the mutex that protects it. The lock
/// is held until [`WatchGuardRef::unlock`] gives it up.
#[must_use]
#[derive(Debug)]
pub struct WatchGuardRef<'a, T> {
    /// The value.
    pub data: &'a T,
    /// The mutex, locked for reading.
    pub lock: &'a mut Mutex,
}

impl<'a, T> WatchGuardRef<'a, T> {
    /// A guard over `data`, which `lock` protects. The guard takes over one handle to `lock`.
    pub fn new(data: &'a T, lock: &'a mut Mutex) -> (guard: WatchGuardRef<'a, T>)
        ensures
            *guard.data == *data,
            *guard.lock == *old(lock),
            *final(guard.lock) == *final(lock),
    {
        WatchGuardRef { data, lock }
    }

    /// Whether readers hold the mutex.
    pub fn is_locked(&self) -> (locked: bool)
        ensures
            locked == (!old(self.lock)@.lock.writer && old(self.lock)@.lock.readers > 0),
    {
        self.lock.is_locked_shared()
    }

    /// The value.
    pub fn deref(&self) -> (value: &T)
        ensures
            *value == *self.data,
    {
        self.data
    }

    /// Ends the access: one reader leaves the mutex, and its handle goes.
    pub fn unlock(self) -> (wake: Wake)
        ensures
            wake.writer == hands_over(old(self.lock)@.lock),
            !wake.readers,
            final(self.lock)@ == old(self.lock)@.left().without_handle(),
    {
        let wake = self.lock.unlock_shared();
        self.lock.drop_ref();
        wake
    }

    /// Compares the value with `other`.
    pub fn eq<U>(&self, other: &U) -> (equal: bool) where T: PartialEq<U>
        ensures
            <T as PartialEqSpec<U>>::obeys_eq_spec() ==> equal == (*self.data).eq_spec(other),
    {
        *self.data == *other
    }
}

} // verus!
