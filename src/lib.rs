//! Linked containers: an owning singly-linked stack, a doubly-linked deque
//! whose nodes live in an index arena, and a queue built on that deque.
pub mod fifth_1;
pub mod fourth;
pub mod laws;
pub mod second;
