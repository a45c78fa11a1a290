//! An addressable priority queue: a binary min-heap whose elements can be
//! removed in logarithmic time through the token handed out on insertion.

pub mod drain;
pub mod heap;
pub mod order;
pub mod sift;
pub mod slab;

pub use heap::{Heap, Slot};
