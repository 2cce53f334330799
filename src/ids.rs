//! Fresh notification ids.
use vstd::prelude::*;

verus! {

/// Relies on `uuid::Uuid::new_v4` and the `Display` of `Uuid`: a random
/// version-4 UUID written in its hyphenated form, which is 36 characters.
/// Nothing is promised of its value.
#[verifier::external_body]
pub(crate) fn random_id() -> (r: String)
    ensures
        r@.len() == 36,
{
    uuid::Uuid::new_v4().to_string()
}

} // verus!
