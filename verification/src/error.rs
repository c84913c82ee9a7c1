//! Error taxonomy of the selection engine.
//!
//! "No card/filter matched" is never an error: absent results are returned as
//! `None` or as an empty list, so an `Err` always means the operation itself
//! failed.

use vstd::prelude::*;

verus! {

/// Why an engine operation failed.
#[derive(Debug, Clone, Copy, PartialEq, Eq, Structural)]
pub enum Error {
    /// A referenced pack, card, filter, dealer or study identifier is absent
    /// from the store.
    NotFound,
    /// A mutation supplied a non-positive weight, or a weight that would push
    /// a weighted collection's total past what the machine can hold.
    InvalidWeight,
    /// The store rejected a write (a uniqueness constraint was violated).
    StoreFailure,
}

} // verus!
