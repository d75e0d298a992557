//! The hash functions, constant-time comparison, memory wiping and OS
//! randomness that the KEM takes from outside crates. Each function here is
//! trusted: its contract states what the outside crate documents, and Verus
//! believes it without reading the body.

use vstd::prelude::*;
use sha3::digest::{Digest, ExtendableOutput};
use sha3::{Sha3_256, Sha3_512, Shake256};
use subtle::ConstantTimeEq;
use zeroize::Zeroize;

verus! {

/// SHA3-256 of a byte string (FIPS 202), as computed by `sha3::Sha3_256`.
pub uninterp spec fn spec_sha3_256(data: Seq<u8>) -> [u8; 32];

/// SHA3-512 of a byte string (FIPS 202), as computed by `sha3::Sha3_512`.
pub uninterp spec fn spec_sha3_512(data: Seq<u8>) -> [u8; 64];

/// The first `len` bytes of SHAKE-256 of a byte string (FIPS 202), as read
/// from `sha3::Shake256`.
pub uninterp spec fn spec_shake256(data: Seq<u8>, len: nat) -> Seq<u8>;

/// `sha3::Sha3_256::digest`: the 32-byte digest of `data`, a function of
/// `data` alone.
#[verifier::external_body]
pub fn sha3_256(data: &[u8]) -> (r: [u8; 32])
    ensures
        r == spec_sha3_256(data@),
{
    Sha3_256::digest(data).into()
}

/// `sha3::Sha3_512::digest`: the 64-byte digest of `data`, a function of
/// `data` alone.
#[verifier::external_body]
pub fn sha3_512(data: &[u8]) -> (r: [u8; 64])
    ensures
        r == spec_sha3_512(data@),
{
    Sha3_512::digest(data).into()
}

/// `sha3::Shake256::digest_xof`: reads `len` bytes of SHAKE-256 output over
/// `data`. The bytes are a function of `data` and `len` alone.
#[verifier::external_body]
pub fn shake256(data: &[u8], len: usize) -> (r: Vec<u8>)
    ensures
        r@ == spec_shake256(data@, len as nat),
        r@.len() == len,
{
    let mut out = vec![0u8; len];
    Shake256::digest_xof(data, &mut out);
    out
}

/// `subtle::ConstantTimeEq::ct_eq` on byte slices, unwrapped with
/// `Choice::unwrap_u8`: 1 when both slices have the same length and the same
/// bytes, 0 otherwise.
#[verifier::external_body]
pub fn ct_eq_bytes(a: &[u8], b: &[u8]) -> (r: u8)
    ensures
        r == (if a@ == b@ { 1u8 } else { 0u8 }),
{
    a.ct_eq(b).unwrap_u8()
}

/// `zeroize::Zeroize::zeroize` on a `u16`: a volatile write of zero.
#[verifier::external_body]
pub fn wipe_u16(x: &mut u16)
    ensures
        *final(x) == 0,
    no_unwind
{
    x.zeroize();
}

/// `zeroize::Zeroize::zeroize` on a byte slice: volatile writes of zero
/// over every byte.
#[verifier::external_body]
pub fn wipe_bytes(buf: &mut [u8])
    ensures
        final(buf)@ == Seq::new(old(buf)@.len(), |i: int| 0u8),
{
    buf.zeroize();
}

/// The error type of `getrandom`.
#[verifier::external_type_specification]
#[verifier::external_body]
pub struct ExRandomError(getrandom::Error);

/// `getrandom::getrandom`: fills `dest` from the operating system's
/// randomness source or reports that it is unavailable. Nothing is stated of
/// the bytes beyond their number: they are fresh randomness.
#[verifier::external_body]
pub fn fill_random(dest: &mut [u8]) -> (r: Result<(), getrandom::Error>)
    ensures
        final(dest)@.len() == old(dest)@.len(),
{
    getrandom::getrandom(dest)
}

} // verus!
