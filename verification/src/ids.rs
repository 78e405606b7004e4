//! Opaque identifiers for nodes and leaf stores.
//!
//! Identifiers exist for diagnostic correlation only; no contract in this
//! crate depends on their values.

use vstd::prelude::*;

verus! {

#[verifier::external_type_specification]
#[verifier::external_body]
pub struct ExUuid(uuid::Uuid);

/// Relies on `uuid::Uuid::new_v4` to produce a fresh random identifier.
/// The result is random, so nothing is assumed about its value.
pub assume_specification[ uuid::Uuid::new_v4 ]() -> uuid::Uuid
;

} // verus!
