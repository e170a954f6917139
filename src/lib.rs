//! A sorted doubly linked list whose nodes live in an arena and link to one
//! another by index, with a single sentinel that both starts and ends the chain.
pub mod list;
pub mod order;

pub use list::{DoublySortedLinkedList, Node};
