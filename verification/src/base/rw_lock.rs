//! A value behind a reader-writer mutex.

use crate::sync::mutex::Mutex;
use crate::sync::watch_guard_mut::WatchGuardMut;
use crate::sync::watch_guard_ref::WatchGuardRef;
use vstd::prelude::*;

verus! {

use crate::sync::lock_word::{max_readers, LockView};
use crate::sync::mutex::MutexView;

/// The record of a value and the mutex that protects it.
#[derive(Debug)]
pub struct RwLock<T> {
    mutex: Mutex,
    data: T,
}

/// What a debug print of an [`RwLock`] shows.
#[derive(Clone, Debug, PartialEq, Eq)]
pub struct MutexCellReport<T> {
    /// The value, if the lock could be taken to look at it.
    pub data: Option<T>,
}

impl<T> RwLock<T> {
    /// The value.
    pub closed spec fn view(&self) -> T {
        self.data
    }

    /// The mutex.
    pub closed spec fn raw(self) -> MutexView {
        self.mutex@
    }

    /// A free lock around `data`.
    pub fn new(data: T) -> (lock: Self)
        ensures
            lock@ == data,
            lock.raw() == MutexView::fresh(),
    {
        RwLock { mutex: Mutex::new(), data }
    }

    /// Locks the value for writing. Nobody may hold the lock: a thread that finds a holder
    /// waits for it.
    pub fn lock(&mut self) -> (guard: WatchGuardMut<'_, T>)
        requires
            old(self).raw().lock.is_free(),
        ensures
            *guard.data == old(self)@,
            guard.lock@ == old(self).raw().claimed().with_handle(),
            final(self)@ == *final(guard.data),
            final(self).raw() == final(guard.lock)@,
    {
        self.mutex.lock_exclusive();
        self.mutex.clone_ref();
        WatchGuardMut::new(&mut self.data, &mut self.mutex)
    }

    /// Locks the value for writing if nobody holds the lock or waits for it.
    pub fn try_lock(&mut self) -> (result: Option<WatchGuardMut<'_, T>>)
        ensures
            result is Some <==> old(self).raw().lock == LockView::unlocked(),
            result is None ==> *final(self) == *old(self),
            result matches Some(guard) ==> {
                &&& *guard.data == old(self)@
                &&& guard.lock@ == old(self).raw().claimed().with_handle()
                &&& final(self)@ == *final(guard.data)
                &&& final(self).raw() == final(guard.lock)@
            },
    {
        if self.mutex.try_lock_exclusive() {
            self.mutex.clone_ref();
            Some(WatchGuardMut::new(&mut self.data, &mut self.mutex))
        } else {
            None
        }
    }

    /// Locks the value for reading. No writer may hold the lock: a thread that finds one
    /// waits for it.
    pub fn lock_shared(&mut self) -> (guard: WatchGuardRef<'_, T>)
        requires
            !old(self).raw().lock.writer,
        ensures
            *guard.data == old(self)@,
            guard.lock@ == old(self).raw().entered().with_handle(),
            final(self)@ == old(self)@,
            final(self).raw() == final(guard.lock)@,
    {
        self.mutex.lock_shared();
        self.mutex.clone_ref();
        WatchGuardRef::new(&self.data, &mut self.mutex)
    }

    /// Locks the value for reading if no writer holds the lock and one more reader can be
    /// counted.
    pub fn try_lock_shared(&mut self) -> (result: Option<WatchGuardRef<'_, T>>)
        ensures
            result is Some <==> !old(self).raw().lock.writer && old(self).raw().lock.readers
                < max_readers(),
            result is None ==> *final(self) == *old(self),
            result matches Some(guard) ==> {
                &&& *guard.data == old(self)@
                &&& guard.lock@ == old(self).raw().entered().with_handle()
                &&& final(self)@ == old(self)@
                &&& final(self).raw() == final(guard.lock)@
            },
    {
        if self.mutex.try_lock_shared() {
            self.mutex.clone_ref();
            Some(WatchGuardRef::new(&self.data, &mut self.mutex))
        } else {
            None
        }
    }

    /// Whether anyone holds the lock, as a writer or as a reader.
    pub fn is_locked(&self) -> (locked: bool)
        ensures
            locked == !self.raw().lock.is_free(),
    {
        self.mutex.is_locked()
    }

    /// Whether a writer holds the lock.
    pub fn is_locked_exclusive(&self) -> (locked: bool)
        ensures
            locked == self.raw().lock.writer,
    {
        self.mutex.is_locked_exclusive()
    }

    /// Whether readers hold the lock.
    pub fn is_locked_shared(&self) -> (locked: bool)
        ensures
            locked == (!self.raw().lock.writer && self.raw().lock.readers > 0),
    {
        self.mutex.is_locked_shared()
    }

    /// What a debug print of the lock shows: a clone of the value, if the lock can be taken at
    /// once. It is given up again.
    pub fn report(&mut self) -> (report: MutexCellReport<T>) where T: Clone
        ensures
            report.data is Some <==> old(self).raw().lock == LockView::unlocked(),
            report.data matches Some(data) ==> cloned(old(self)@, data),
            final(self)@ == old(self)@,
            final(self).raw() == old(self).raw(),
    {
        match self.try_lock() {
            None => MutexCellReport { data: None },
            Some(guard) => {
                let data = guard.deref().clone();
                guard.unlock();
                MutexCellReport { data: Some(data) }
            },
        }
    }
}

} // verus!
