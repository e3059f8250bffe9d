//! The primitives the scheme is built from: a block PRF, a one-bit random
//! oracle, a counter-mode byte stream and a pseudorandom permutation of bytes.
use vstd::prelude::*;
use zeroize::Zeroize;

pub mod hash;
pub mod prf;
pub mod prng;
pub mod prp;

verus! {

/// Size in bytes of the nonce that keys the random oracle of a right ciphertext.
pub const NONCE_SIZE: usize = 16;

/// Relies on zeroize's `Zeroize` for `[u8; N]`: every byte is overwritten
/// with zero by writes the compiler does not elide; it does not panic.
#[verifier::external_body]
pub(crate) fn zeroize_bytes<const N: usize>(b: &mut [u8; N])
    ensures
        final(b)@ == Seq::new(N as nat, |i: int| 0u8),
    opens_invariants none
    no_unwind
{
    b.zeroize()
}

/// Relies on zeroize's `Zeroize` for `Vec<Z>`: every element and the spare
/// capacity are overwritten with zero, then the vector is cleared; it does not panic.
#[verifier::external_body]
pub(crate) fn zeroize_blocks(v: &mut Vec<[u8; 16]>)
    ensures
        final(v)@.len() == 0,
    opens_invariants none
    no_unwind
{
    v.zeroize()
}

/// A permutation could not be built: the byte stream that drives the shuffle ran out.
#[derive(Debug, Clone, Copy, PartialEq, Eq)]
pub struct PrpError;

} // verus!
