//! Containers that threads share.

pub mod array;
pub mod atomic;
pub mod block;
pub mod buffer;
pub mod cell;
pub mod hashmap;
pub mod index;
pub mod line;
pub mod ring;
pub mod row;
pub mod shard;
pub mod vec;

pub use array::AtomicArray;
pub use atomic::Atomic;
pub use buffer::AtomicBuffer;
pub use cell::AtomicCell;
pub use hashmap::AtomicHashMap;
pub use vec::AtomicVec;
