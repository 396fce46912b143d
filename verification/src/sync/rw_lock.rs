//! A value behind a reader-writer mutex, shared by counted handles.

use crate::base::rw_lock::MutexCellReport;
use crate::sync::watch_guard_mut::WatchGuardMut;
use crate::sync::watch_guard_ref::WatchGuardRef;
use vstd::prelude::*;

verus! {

use crate::bits::{bumped, lowered};
use crate::sync::lock_word::{max_readers, LockView};
use crate::sync::mutex::MutexView;

/// The shared record of a locked value.
#[derive(Debug)]
pub struct RwLock<T> {
    inner: crate::base::rw_lock::RwLock<T>,
    ref_count: usize,
}

impl<T> RwLock<T> {
    /// The value.
    pub closed spec fn view(&self) -> T {
        self.inner@
    }

    /// The mutex.
    pub closed spec fn raw(self) -> MutexView {
        self.inner.raw()
    }

    /// How many handles share the lock.
    pub closed spec fn ref_count(self) -> usize {
        self.ref_count
    }

    /// A free lock around `val`, with one handle.
    pub fn new(val: T) -> (lock: Self)
        ensures
            lock@ == val,
            lock.raw() == MutexView::fresh(),
            lock.ref_count() == 1,
    {
        RwLock { inner: crate::base::rw_lock::RwLock::new(val), ref_count: 1 }
    }

    /// Locks the value for writing. Nobody may hold the lock: a thread that finds a holder
    /// waits for it.
    pub fn lock(&mut self) -> (guard: WatchGuardMut<'_, T>)
        requires
            old(self).raw().lock.is_free(),
        ensures
            *guard.data == old(self)@,
            guard.lock@ == old(self).raw().claimed().with_handle(),
            final(self)@ == *final(guard.data),
            final(self).raw() == final(guard.lock)@,
            final(self).ref_count() == old(self).ref_count(),
    {
        self.inner.lock()
    }

    /// Locks the value for writing, as [`RwLock::lock`] does.
    pub fn lock_exclusive(&mut self) -> (guard: WatchGuardMut<'_, T>)
        requires
            old(self).raw().lock.is_free(),
        ensures
            *guard.data == old(self)@,
            guard.lock@ == old(self).raw().claimed().with_handle(),
            final(self)@ == *final(guard.data),
            final(self).raw() == final(guard.lock)@,
            final(self).ref_count() == old(self).ref_count(),
    {
        self.inner.lock()
    }

    /// Locks the value for writing if nobody holds the lock or waits for it.
    pub fn try_lock(&mut self) -> (result: Option<WatchGuardMut<'_, T>>)
        ensures
            result is Some <==> old(self).raw().lock == LockView::unlocked(),
            result is None ==> *final(self) == *old(self),
            result matches Some(guard) ==> {
                &&& *guard.data == old(self)@
                &&& guard.lock@ == old(self).raw().claimed().with_handle()
                &&& final(self)@ == *final(guard.data)
                &&& final(self).raw() == final(guard.lock)@
                &&& final(self).ref_count() == old(self).ref_count()
            },
    {
        self.inner.try_lock()
    }

    /// Locks the value for reading. No writer may hold the lock: a thread that finds one
    /// waits for it.
    pub fn lock_shared(&mut self) -> (guard: WatchGuardRef<'_, T>)
        requires
            !old(self).raw().lock.writer,
        ensures
            *guard.data == old(self)@,
            guard.lock@ == old(self).raw().entered().with_handle(),
            final(self)@ == old(self)@,
            final(self).raw() == final(guard.lock)@,
            final(self).ref_count() == old(self).ref_count(),
    {
        self.inner.lock_shared()
    }

    /// Locks the value for reading if no writer holds the lock and one more reader can be
    /// counted.
    pub fn try_lock_shared(&mut self) -> (result: Option<WatchGuardRef<'_, T>>)
        ensures
            result is Some <==> !old(self).raw().lock.writer && old(self).raw().lock.readers
                < max_readers(),
            result is None ==> *final(self) == *old(self),
            result matches Some(guard) ==> {
                &&& *guard.data == old(self)@
                &&& guard.lock@ == old(self).raw().entered().with_handle()
                &&& final(self)@ == old(self)@
                &&& final(self).raw() == final(guard.lock)@
                &&& final(self).ref_count() == old(self).ref_count()
            },
    {
        self.inner.try_lock_shared()
    }

    /// Whether anyone holds the lock, as a writer or as a reader.
    pub fn is_locked(&self) -> (locked: bool)
        ensures
            locked == !self.raw().lock.is_free(),
    {
        self.inner.is_locked()
    }

    /// Whether a writer holds the lock.
    pub fn is_locked_exclusive(&self) -> (locked: bool)
        ensures
            locked == self.raw().lock.writer,
    {
        self.inner.is_locked_exclusive()
    }

    /// Whether readers hold the lock.
    pub fn is_locked_shared(&self) -> (locked: bool)
        ensures
            locked == (!self.raw().lock.writer && self.raw().lock.readers > 0),
    {
        self.inner.is_locked_shared()
    }

    /// What a debug print of the lock shows: a clone of the value, if the lock can be taken at
    /// once. It is given up again.
    pub fn report(&mut self) -> (report: MutexCellReport<T>) where T: Clone
        ensures
            report.data is Some <==> old(self).raw().lock == LockView::unlocked(),
            report.data matches Some(data) ==> cloned(old(self)@, data),
            final(self)@ == old(self)@,
            final(self).raw() == old(self).raw(),
            final(self).ref_count() == old(self).ref_count(),
    {
        self.inner.report()
    }

    /// Counts one handle more.
    pub fn clone_ref(&mut self)
        ensures
            final(self)@ == old(self)@,
            final(self).raw() == old(self).raw(),
            final(self).ref_count() == bumped(old(self).ref_count()),
    {
        self.ref_count = self.ref_count.wrapping_add(1);
    }

    /// Counts one handle less, and says whether it was the last.
    pub fn drop_ref(&mut self) -> (last: bool)
        ensures
            last == (old(self).ref_count() == 1),
            final(self)@ == old(self)@,
            final(self).raw() == old(self).raw(),
            final(self).ref_count() == lowered(old(self).ref_count()),
    {
        let previous: usize = self.ref_count;
        self.ref_count = previous.wrapping_sub(1);
        previous == 1
    }
}

impl<T: Default> Default for RwLock<T> {
    /// A free lock around the type's default value.
    fn default() -> (lock: Self)
        ensures
            T::default.ensures((), lock@),
            lock.raw() == MutexView::fresh(),
            lock.ref_count() == 1,
    {
        Self::new(T::default())
    }
}

} // verus!
