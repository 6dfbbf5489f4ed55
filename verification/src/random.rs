//! Randomness from the operating system.

use vstd::prelude::*;

verus! {

/// `getrandom::fill`: so many random bytes, or nothing when the operating
/// system has none to give. Which bytes they are is left open.
#[verifier::external_body]
pub(crate) fn random_bytes(count: usize) -> (r: Option<Vec<u8>>)
    ensures
        r matches Some(bytes) ==> bytes@.len() == count,
{
    let mut bytes = vec![0u8; count];
    match getrandom::fill(&mut bytes) {
        Ok(()) => Some(bytes),
        Err(_) => None,
    }
}

} // verus!
