//! Building blocks for programs whose threads share data.
//!
//! Every type here is the record that threads would share, written as a plain value. A
//! method is one atomic transition of the record, with a contract that says what it returns
//! and what it leaves behind. Where a thread has to retry or to sleep, a machine says which
//! access to the record comes next and is told what the access found, so that a shell of real
//! atomics can perform the accesses and the machine can be reasoned about on its own.

pub mod atomic;
pub mod base;
pub mod bits;
pub mod channels;
pub mod handles;
pub mod lock_free;
pub mod order;
pub mod sync;
