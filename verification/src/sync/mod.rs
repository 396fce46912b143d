//! Locks, and the guards over what they protect.

pub mod barrier;
pub mod lock_word;
pub mod mutex;
pub mod protocol;
pub mod rw_lock;
pub mod watch_guard;
pub mod watch_guard_mut;
pub mod watch_guard_ref;

pub use crate::base::backoff::Backoff;
pub use barrier::Barrier;
pub use mutex::Mutex;
pub use rw_lock::RwLock;
pub use watch_guard::WatchGuard;
pub use watch_guard_mut::WatchGuardMut;
pub use watch_guard_ref::WatchGuardRef;
