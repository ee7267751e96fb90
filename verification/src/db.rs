//! The error taxonomy of the storage layer.

use vstd::prelude::*;

verus! {

/// Errors surfaced by the catalog and the association ledger.
///
/// `NotFound` reports a lookup or a close that found nothing to act on;
/// `AlreadyExists` reports a uniqueness violation; `StoreError` stands for
/// any other storage failure (here: exhaustion of the identifier space).
#[derive(Clone, Copy, Debug, Eq, PartialEq, Structural)]
pub enum DatabaseError {
    NotFound,
    AlreadyExists,
    StoreError,
}

} // verus!
