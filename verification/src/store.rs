//! Typed failure kinds of the store collaborators.
//!
//! The validation core itself is error-free by construction: splitting
//! never fails and classification never fails. Every fallible operation —
//! opening the key-value store, reading a value, writing a repaired value
//! back — belongs to a collaborator, and its failure is surfaced to the
//! presentation layer under one of these kinds. A collaborator error halts
//! the operation at hand (a failed write aborts the commit step) but never
//! corrupts a computed report, which stays valid for re-display or retry.

use vstd::prelude::*;

verus! {

/// A failure reported by a store collaborator, distinguished by kind so
/// the presentation layer can react to each one.
#[derive(Clone, Copy, Debug, PartialEq, Eq, Structural)]
pub enum StoreError {
    /// The store could not be opened at all.
    StoreUnavailable,
    /// The requested value exists but is not a plain string.
    UnsupportedValueType,
    /// The requested name is not present in the store.
    KeyNotFound,
    /// The store refused a write for lack of rights.
    PermissionDenied,
    /// Any other failure while reading or writing the store.
    OtherStoreError,
}

} // verus!
