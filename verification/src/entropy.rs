//! Random bytes from the operating system.
use vstd::prelude::*;
use ring::rand::SecureRandom;

verus! {

/// `n` bytes from `ring::rand::SystemRandom::fill`, or `None` when the
/// operating system's generator fails. Only their number is stated.
#[verifier::external_body]
pub(crate) fn random_bytes(n: usize) -> (r: Option<Vec<u8>>)
    ensures
        r matches Some(v) ==> v@.len() == n,
{
    let mut buf = vec![0u8; n];
    match ring::rand::SystemRandom::new().fill(&mut buf) {
        Ok(()) => Some(buf),
        Err(_) => None,
    }
}

} // verus!
