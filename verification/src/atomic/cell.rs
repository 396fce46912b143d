//! A value behind a mutex of its own.
//!
//! [`AtomicCell`] is the record that the threads share: the value, the mutex that protects
//! it, and the number of handles.

use crate::sync::mutex::Mutex;
use crate::sync::watch_guard_mut::WatchGuardMut;
use crate::sync::watch_guard_ref::WatchGuardRef;
use vstd::prelude::*;
use vstd::std_specs::cmp::PartialEqSpec;

verus! {

use crate::bits::{bumped, lowered};
use crate::sync::mutex::MutexView;

/// The shared record of a locked value.
#[derive(Debug)]
pub struct AtomicCell<T> {
    val: T,
    state: Mutex,
    ref_count: usize,
}

impl<T> AtomicCell<T> {
    /// The value.
    pub closed spec fn view(&self) -> T {
        self.val
    }

    /// The mutex.
    pub closed spec fn lock(self) -> MutexView {
        self.state@
    }

    /// How many handles share the cell.
    pub closed spec fn ref_count(self) -> usize {
        self.ref_count
    }

    /// A cell that holds `val`, with one handle and a free mutex.
    pub fn new(val: T) -> (cell: Self)
        ensures
            cell@ == val,
            cell.lock() == MutexView::fresh(),
            cell.ref_count() == 1,
    {
        AtomicCell { val, state: Mutex::new(), ref_count: 1 }
    }

    /// Locks the value for reading. No writer may hold the mutex: a thread that finds one
    /// waits for it.
    pub fn get(&mut self) -> (guard: WatchGuardRef<'_, T>)
        requires
            !old(self).lock().lock.writer,
        ensures
            *guard.data == old(self)@,
            guard.lock@ == old(self).lock().entered().with_handle(),
            final(self)@ == old(self)@,
            final(self).lock() == final(guard.lock)@,
            final(self).ref_count() == old(self).ref_count(),
    {
        self.state.lock_shared();
        self.state.clone_ref();
        WatchGuardRef::new(&self.val, &mut self.state)
    }

    /// Locks the value for writing. Nobody may hold the mutex: a thread that finds a holder
    /// waits for it.
    pub fn get_mut(&mut self) -> (guard: WatchGuardMut<'_, T>)
        requires
            old(self).lock().lock.is_free(),
        ensures
            *guard.data == old(self)@,
            guard.lock@ == old(self).lock().claimed().with_handle(),
            final(self)@ == *final(guard.data),
            final(self).lock() == final(guard.lock)@,
            final(self).ref_count() == old(self).ref_count(),
    {
        self.state.lock_exclusive();
        self.state.clone_ref();
        WatchGuardMut::new(&mut self.val, &mut self.state)
    }

    /// Takes the value out. No other handle may be left.
    pub fn into_inner(self) -> (value: T)
        requires
            self.ref_count() == 1,
        ensures
            value == self@,
    {
        self.val
    }

    /// A copy of the value, read without the mutex.
    pub fn load(&self) -> (value: T) where T: Copy
        ensures
            value == self@,
    {
        self.val
    }

    /// Puts `val` in place of the value, under the mutex, which nobody may hold.
    pub fn store(&mut self, val: T)
        requires
            old(self).lock().lock.is_free(),
        ensures
            final(self)@ == val,
            final(self).lock() == old(self).lock().claimed().released(),
            final(self).ref_count() == old(self).ref_count(),
    {
        self.swap(val);
    }

    /// Puts `val` in place of the value, under the mutex, which nobody may hold. Returns the
    /// value before.
    pub fn swap(&mut self, val: T) -> (previous: T)
        requires
            old(self).lock().lock.is_free(),
        ensures
            previous == old(self)@,
            final(self)@ == val,
            final(self).lock() == old(self).lock().claimed().released(),
            final(self).ref_count() == old(self).ref_count(),
    {
        let mut val = val;
        let guard = self.get_mut();
        std::mem::swap(guard.data, &mut val);
        guard.unlock();
        val
    }

    /// Puts `new` in place of the value if the value equals `current`, under the mutex, which
    /// nobody may hold. Returns the value before. Where the value differs it stays, and the
    /// guard comes back with the mutex still locked.
    pub fn compare_exchange(&mut self, current: T, new: T) -> (result: Result<
        T,
        WatchGuardMut<'_, T>,
    >) where T: Copy + Eq
        requires
            old(self).lock().lock.is_free(),
        ensures
            T::obeys_eq_spec() ==> (result is Ok <==> old(self)@.eq_spec(&current)),
            final(self).ref_count() == old(self).ref_count(),
            result matches Ok(previous) ==> {
                &&& previous == old(self)@
                &&& final(self)@ == new
                &&& final(self).lock() == old(self).lock().claimed().released()
            },
            result matches Err(guard) ==> {
                &&& *guard.data == old(self)@
                &&& guard.lock@ == old(self).lock().claimed().with_handle()
                &&& final(self)@ == *final(guard.data)
                &&& final(self).lock() == final(guard.lock)@
            },
    {
        let mut new = new;
        let guard = self.get_mut();
        if *guard.data == current {
            std::mem::swap(guard.data, &mut new);
            guard.unlock();
            Ok(new)
        } else {
            Err(guard)
        }
    }

    /// Counts one handle more.
    pub fn clone_ref(&mut self)
        ensures
            final(self)@ == old(self)@,
            final(self).lock() == old(self).lock(),
            final(self).ref_count() == bumped(old(self).ref_count()),
    {
        self.ref_count = self.ref_count.wrapping_add(1);
    }

    /// Counts one handle less, and says whether it was the last.
    pub fn drop_ref(&mut self) -> (last: bool)
        ensures
            last == (old(self).ref_count() == 1),
            final(self)@ == old(self)@,
            final(self).lock() == old(self).lock(),
            final(self).ref_count() == lowered(old(self).ref_count()),
    {
        let previous: usize = self.ref_count;
        self.ref_count = previous.wrapping_sub(1);
        previous == 1
    }
}

} // verus!
