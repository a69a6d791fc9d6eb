//! Linked lists: stacks, from the plainest one to one whose tails are shared,
//! a queue, and a queue with two ends.

pub mod fifth;
pub mod first;
pub mod fourth;
pub mod second;
pub mod third;
