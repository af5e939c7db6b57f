//! A doubly-linked deque backed by an arena of nodes.
//!
//! The list stores its nodes in a dense arena and links them by index in
//! both directions, so every element can be reached from either end.  The
//! abstract model of a list is the sequence of its payloads from front to
//! back; every operation's contract is stated over that sequence.

pub mod laws;
pub mod list;

pub use crate::list::IntoIter;
pub use crate::list::Iter;
pub use crate::list::List;
