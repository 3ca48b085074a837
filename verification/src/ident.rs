//! Identifiers: the `uuid` crate's `Uuid`, seen by the proofs as the 128-bit
//! number it holds.

use uuid::Uuid;
use vstd::prelude::*;

verus! {

/// `uuid::Uuid`, carried through verified code as an opaque value.
#[verifier::external_type_specification]
#[verifier::external_body]
pub struct ExUuid(Uuid);

/// The number an identifier stands for: its sixteen bytes read as one
/// big-endian 128-bit integer.
pub uninterp spec fn uuid_value(id: Uuid) -> u128;

/// `Uuid::as_u128` reads the sixteen bytes of the identifier as a big-endian
/// integer; the contract takes that integer to be the identifier's value.
pub assume_specification[ Uuid::as_u128 ](id: &Uuid) -> (value: u128)
    ensures
        value == uuid_value(*id),
;

/// `Uuid::from_u128` stores the big-endian bytes of `value`, so reading the
/// result back with `as_u128` gives `value` again.
pub assume_specification[ Uuid::from_u128 ](value: u128) -> (id: Uuid)
    ensures
        uuid_value(id) == value,
;

} // verus!
