//! A small, verified core for an interactive to-do list manager.
//!
//! The library keeps an ordered sequence of tasks in memory, supports
//! appending, marking complete and deleting by position, and purging
//! completed entries, and it serializes the whole list to a JSON document
//! (and parses it back) for persistence between runs.  Every operation
//! carries a contract over the mathematical view of the data, and the
//! save/load round trip is proved exact.

pub mod task;
pub mod store;
pub mod input;
pub mod codec;
pub mod render;
