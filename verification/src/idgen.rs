//! Opaque 128-bit identifiers for entries, matches, parties and lobbies.
//! Uniqueness is statistical, never assumed by any proof: every invariant
//! of the crate holds whatever value the generator hands back.

use vstd::prelude::*;

verus! {

/// Relies on `uuid::Uuid::new_v4` and `Uuid::as_u128`: a fresh random
/// RFC 4122 version-4 identifier as its 128-bit value. The value is
/// random, so nothing is promised of it.
#[verifier::external_body]
pub(crate) fn fresh_id() -> u128 {
    uuid::Uuid::new_v4().as_u128()
}

} // verus!
