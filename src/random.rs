//! Random bytes from the thread-local generator.
use vstd::prelude::*;

verus! {

/// Relies on rand::random for `[u8; 32]`: thirty-two bytes drawn from the
/// thread-local generator. Nothing is promised of their values.
#[verifier::external_body]
pub(crate) fn random_bytes() -> (r: [u8; 32]) {
    rand::random::<[u8; 32]>()
}

} // verus!
