//! Queries on a collection of records by their time.

use vstd::prelude::*;

use crate::error::Error;

verus! {

/// Finding records of a collection by time: the one of a given time, the
/// latest, and the latest few.
pub trait FindData {
    /// What the collection holds.
    type Item;

    /// The record of the given time, if the collection holds one.
    fn find(&self, time: &str) -> Option<&Self::Item>;

    /// The record of the latest time.
    fn latest(&self) -> Self::Item;

    /// The `n` records of the latest times, the latest first.
    fn latest_n(&self, n: usize) -> Result<Vec<&Self::Item>, Error>;
}

} // verus!
