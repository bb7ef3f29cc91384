//! Bytes nobody can guess.

use vstd::prelude::*;

verus! {

/// `openssl::rand::rand_bytes`, which overwrites the whole buffer with random bytes, or
/// reports that it could not. Nothing is claimed of the bytes themselves, nor of when it
/// succeeds: only that the buffer keeps its length. It panics on a buffer longer than a C
/// `int` can count.
#[verifier::external_body]
fn rand_bytes(buf: &mut Vec<u8>) -> (ok: bool)
    requires
        old(buf)@.len() <= i32::MAX,
    ensures
        final(buf)@.len() == old(buf)@.len(),
{
    openssl::rand::rand_bytes(buf.as_mut_slice()).is_ok()
}

/// The buffer, if it was filled. One that was not is never handed on.
pub fn if_filled(filled: bool, b: Vec<u8>) -> (r: Option<Vec<u8>>)
    ensures
        r == (if filled {
            Some(b)
        } else {
            None
        }),
{
    if filled {
        Some(b)
    } else {
        None
    }
}

/// `n` random bytes. `None` when there is no randomness to be had.
pub fn random_bytes(n: usize) -> (r: Option<Vec<u8>>)
    requires
        n <= i32::MAX,
    ensures
        r matches Some(b) ==> b@.len() == n,
{
    let mut b: Vec<u8> = vec![0u8; n];
    let filled: bool = rand_bytes(&mut b);
    if_filled(filled, b)
}

} // verus!
