//! Locks that spin and never sleep.

pub mod splcell;

pub use splcell::{ExclusiveGuard, SharedGuard, SpinCell};
