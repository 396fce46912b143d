//! Channels between threads.

pub mod mpmc;

pub use mpmc::Mpmc;
