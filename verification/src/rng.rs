use vstd::prelude::*;

verus! {

/// Relies on `rand::random::<u64>`: it draws a fresh value from the
/// thread-local generator, so nothing is promised of the result.
#[verifier::external_body]
pub(crate) fn random_u64() -> u64 {
    rand::random::<u64>()
}

} // verus!
