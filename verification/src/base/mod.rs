//! What the locks and containers are made of.

pub mod backoff;
pub mod exclusion;
pub mod futex;
pub mod rw_lock;
pub mod scondvar;
pub mod smutex;
pub mod thread;
