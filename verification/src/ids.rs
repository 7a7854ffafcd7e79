//! Identifiers of episodes, neighborhoods and occurrences.
//!
//! Identifiers are random version-4 UUIDs, held as their 128-bit value.
use vstd::prelude::*;

verus! {

/// A fresh random identifier: `uuid::Uuid::new_v4()` as its 128-bit value.
/// Nothing is promised of the value: it is random.
#[verifier::external_body]
pub(crate) fn new_id() -> (id: u128) {
    uuid::Uuid::new_v4().as_u128()
}

} // verus!
