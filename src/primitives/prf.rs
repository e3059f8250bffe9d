use aes::cipher::generic_array::GenericArray;
use aes::cipher::{BlockEncrypt, KeyInit};
use aes::Aes128;
use vstd::prelude::*;

verus! {

/// The AES-128 encryption of the 16-byte block `block` under the 16-byte key `key`.
pub uninterp spec fn aes128_encrypt(key: Seq<u8>, block: Seq<u8>) -> Seq<u8>;

/// Relies on aes::Aes128 (`KeyInit::new`, `BlockEncrypt::encrypt_blocks`):
/// each block is replaced by its AES-128 encryption under `key`, which depends on
/// the key and that block alone.
#[verifier::external_body]
fn aes128_encrypt_blocks(key: &[u8; 16], blocks: &mut Vec<[u8; 16]>)
    ensures
        final(blocks)@.len() == old(blocks)@.len(),
        forall|i: int|
            0 <= i < old(blocks)@.len() ==> (#[trigger] final(blocks)@[i])@ == aes128_encrypt(
                key@,
                old(blocks)@[i]@,
            ),
{
    let cipher = Aes128::new(&GenericArray::from(*key));
    let mut data: Vec<aes::Block> = blocks.iter().map(|b| GenericArray::from(*b)).collect();
    cipher.encrypt_blocks(&mut data);
    for (out, b) in blocks.iter_mut().zip(data) {
        *out = b.into();
    }
}

/// A pseudorandom function on 16-byte blocks: AES-128 under a fixed key.
pub struct Aes128Prf {
    key: [u8; 16],
}

impl Drop for Aes128Prf {
    /// Wipes the key.
    fn drop(&mut self)
        opens_invariants none
        no_unwind
    {
        super::zeroize_bytes(&mut self.key);
    }
}

impl Aes128Prf {
    /// The key the function is computed under.
    pub closed spec fn key(&self) -> Seq<u8> {
        self.key@
    }

    pub fn new(key: &[u8; 16]) -> (r: Self)
        ensures
            r.key() == key@,
    {
        Aes128Prf { key: *key }
    }

    /// Replaces every block by its image under the function.
    pub fn encrypt_all(&self, data: &mut Vec<[u8; 16]>)
        ensures
            final(data)@.len() == old(data)@.len(),
            forall|i: int|
                0 <= i < old(data)@.len() ==> (#[trigger] final(data)@[i])@ == aes128_encrypt(
                    self.key(),
                    old(data)@[i]@,
                ),
    {
        aes128_encrypt_blocks(&self.key, data);
    }
}

} // verus!
