use vstd::prelude::*;

verus! {

/// Relies on uuid's Uuid::new_v4 and its Display form: a fresh random
/// identity, written as the 36-character hyphenated text. The value is
/// random, so nothing is promised beyond its length.
#[verifier::external_body]
pub(crate) fn generate_peer_id() -> (r: String)
    ensures
        r@.len() == 36,
{
    uuid::Uuid::new_v4().to_string()
}

} // verus!
