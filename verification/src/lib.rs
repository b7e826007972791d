//! A minimum-first priority queue stored in a circular buffer.
//!
//! The heap's implicit binary tree lives in the logical index space of a ring
//! buffer, so removing the minimum only advances the ring's start offset
//! instead of shifting the remaining elements.

pub mod heap;
pub mod sift;

pub use heap::RingHeap;
