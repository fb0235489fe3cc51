//! The answer of one poll.

use vstd::prelude::*;

verus! {

/// What a poll reports: a value, or that none is ready yet.
///
/// A stream answers with `Poll<Option<T>>`: `Ready(Some(item))` for its next
/// item, `Ready(None)` once it has ended, `Pending` while it has nothing to
/// give but has not ended.
#[derive(Debug, PartialEq, Eq)]
pub enum Poll<T> {
    /// The value is there.
    Ready(T),
    /// Nothing yet; ask again later.
    Pending,
}

} // verus!
