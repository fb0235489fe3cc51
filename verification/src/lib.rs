//! A set of streams merged into one.
//!
//! A [`SelectAll`] owns any number of member streams and yields their items
//! as the members report them. Members are polled through a function that the
//! caller hands in, so the set itself never needs to know what a stream is:
//! it only keeps the members registered, asks each for its head, and decides
//! what to do with the answer.
//!
//! The registration and the scan live in [`TaskSet`]; the merge on top of it
//! in [`SelectAll`]; what holds of whole runs is proved in [`laws`].

pub mod laws;
pub mod merge;
pub mod poll;
pub mod task_set;

pub use merge::{select_all, SelectAll};
pub use poll::Poll;
pub use task_set::TaskSet;
