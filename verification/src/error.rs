//! The ways in which an operation of this library can fail.

use vstd::prelude::*;

verus! {

/// What went wrong.
#[derive(Clone, Copy, Debug, PartialEq, Eq, Structural)]
pub enum Error {
    /// A file image does not have the layout of the format it should have.
    BadLayout,
    /// A term id was looked up that the dictionary has no entry for.
    UnknownId,
    /// A dataset that must be in non-decreasing order is not.
    UnsortedMainDataset,
    /// A changeset was asked for after every changeset had been handed out.
    ChangesetsExhausted,
    /// A query specification is not of the form `<n>x<m>` or `<n>x<p>%`.
    BadSpec,
}

} // verus!
