//! Randomness from the system, for what must not be guessed.

use vstd::prelude::*;
use getrandom::Error as RandomError;

verus! {

/// `getrandom::Error`, carried from the call that fills a boundary to the
/// message that says why it could not.
#[verifier::external_type_specification]
#[verifier::external_body]
pub struct ExRandomError(RandomError);

/// `getrandom::fill` on sixteen bytes. What comes back is chance; the
/// contract says nothing of it.
#[verifier::external_body]
pub(crate) fn random_bytes() -> (r: Result<[u8; 16], RandomError>) {
    let mut bytes = [0u8; 16];
    match getrandom::fill(&mut bytes) {
        Ok(()) => Ok(bytes),
        Err(error) => Err(error),
    }
}

/// `getrandom::Error`'s `Display`: the system's reason.
#[verifier::external_body]
pub(crate) fn random_error_text(error: &RandomError) -> (r: String) {
    error.to_string()
}

} // verus!
