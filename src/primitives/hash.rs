use super::prf::{aes128_encrypt, Aes128Prf};
use hmac::{Hmac, Mac};
use sha2::{Digest, Sha256};
use vstd::prelude::*;

verus! {

/// The random oracle: the least significant bit of byte 0 of the AES-128
/// encryption of `data` under `key`.
pub open spec fn z2_hash(key: Seq<u8>, data: Seq<u8>) -> u8 {
    aes128_encrypt(key, data)[0] & 1u8
}

/// A random oracle from 16-byte blocks onto one bit, keyed by 16 bytes.
pub struct Aes128Z2Hash {
    prf: Aes128Prf,
}

impl Aes128Z2Hash {
    /// The key of the oracle.
    pub closed spec fn key(&self) -> Seq<u8> {
        self.prf.key()
    }

    pub fn new(key: &[u8; 16]) -> (r: Self)
        ensures
            r.key() == key@,
    {
        Aes128Z2Hash { prf: Aes128Prf::new(key) }
    }

    /// The oracle's bit for one block.
    pub fn hash(&self, data: &[u8; 16]) -> (r: u8)
        ensures
            r == z2_hash(self.key(), data@),
    {
        let mut blocks: Vec<[u8; 16]> = Vec::new();
        blocks.push(*data);
        self.prf.encrypt_all(&mut blocks);
        let out = blocks[0];
        out[0] & 1u8
    }

    /// The oracle's bit for each block, in order. The blocks are overwritten
    /// with their PRF images along the way.
    pub fn hash_all(&self, data: &mut Vec<[u8; 16]>) -> (r: Vec<u8>)
        ensures
            final(data)@.len() == old(data)@.len(),
            forall|i: int|
                0 <= i < old(data)@.len() ==> (#[trigger] final(data)@[i])@ == aes128_encrypt(
                    self.key(),
                    old(data)@[i]@,
                ),
            r@.len() == old(data)@.len(),
            forall|i: int|
                0 <= i < r@.len() ==> #[trigger] r@[i] == z2_hash(self.key(), old(data)@[i]@),
    {
        self.prf.encrypt_all(data);
        let mut out: Vec<u8> = Vec::with_capacity(data.len());
        let mut i: usize = 0;
        while i < data.len()
            invariant
                i <= data@.len(),
                out@.len() == i,
                data@.len() == old(data)@.len(),
                forall|k: int|
                    0 <= k < old(data)@.len() ==> (#[trigger] data@[k])@ == aes128_encrypt(
                        self.key(),
                        old(data)@[k]@,
                    ),
                forall|k: int|
                    0 <= k < i ==> #[trigger] out@[k] == z2_hash(self.key(), old(data)@[k]@),
            decreases data@.len() - i,
        {
            let block = data[i];
            out.push(block[0] & 1u8);
            i = i + 1;
        }
        out
    }

    /// The oracle's bits for up to 32 blocks packed into a word: bit `i` is
    /// the bit of block `i`. The blocks are overwritten along the way.
    pub fn hash_all_onto_u32(&self, data: &mut Vec<[u8; 16]>) -> (r: u32)
        requires
            old(data)@.len() <= 32,
        ensures
            final(data)@.len() == old(data)@.len(),
            forall|i: int|
                0 <= i < old(data)@.len() ==> (#[trigger] final(data)@[i])@ == aes128_encrypt(
                    self.key(),
                    old(data)@[i]@,
                ),
            forall|i: u32|
                #![trigger (r >> i)]
                i < 32 ==> ((r >> i) & 1u32) == if (i as int) < old(data)@.len() {
                    z2_hash(self.key(), old(data)@[i as int]@) as u32
                } else {
                    0u32
                },
    {
        let bits = self.hash_all(data);
        let mut out: u32 = 0;
        proof {
            assert forall|k: int| 0 <= k < bits@.len() implies #[trigger] bits@[k] <= 1 by {
                let b0 = aes128_encrypt(self.key(), old(data)@[k]@)[0];
                assert(b0 & 1u8 <= 1) by (bit_vector);
            }
            assert forall|k: u32| k < 32 implies ((out >> k) & 1u32) == 0u32 by {
                assert(((0u32 >> k) & 1u32) == 0u32) by (bit_vector);
            }
        }
        let mut i: usize = 0;
        while i < bits.len()
            invariant
                i <= bits@.len(),
                bits@.len() == old(data)@.len(),
                bits@.len() <= 32,
                forall|k: int| 0 <= k < bits@.len() ==> #[trigger] bits@[k] <= 1,
                forall|k: int|
                    0 <= k < bits@.len() ==> #[trigger] bits@[k] == z2_hash(
                        self.key(),
                        old(data)@[k]@,
                    ),
                forall|k: u32|
                    #![trigger (out >> k)]
                    k < 32 ==> ((out >> k) & 1u32) == if (k as int) < i {
                        bits@[k as int] as u32
                    } else {
                        0u32
                    },
            decreases bits@.len() - i,
        {
            let b = bits[i] as u32;
            let s = i as u32;
            let prev = out;
            out = out | (b << s);
            proof {
                assert forall|k: u32| k < 32 implies ((out >> k) & 1u32) == if (k as int) < i + 1 {
                    bits@[k as int] as u32
                } else {
                    0u32
                } by {
                    assert(((prev >> k) & 1u32) == if (k as int) < i {
                        bits@[k as int] as u32
                    } else {
                        0u32
                    });
                    assert(((prev | (b << s)) >> k) & 1u32 == if k == s {
                        ((prev >> k) & 1u32) | b
                    } else {
                        (prev >> k) & 1u32
                    }) by (bit_vector)
                        requires
                            s < 32,
                            k < 32,
                            b <= 1,
                    ;
                    if k == s {
                        assert((0u32 | b) == b) by (bit_vector);
                    }
                }
            }
            i = i + 1;
        }
        proof {
            assert forall|k: u32| k < 32 implies ((out >> k) & 1u32) == if (k as int) < old(
                data,
            )@.len() {
                z2_hash(self.key(), old(data)@[k as int]@) as u32
            } else {
                0u32
            } by {
                assert(((out >> k) & 1u32) == if (k as int) < i {
                    bits@[k as int] as u32
                } else {
                    0u32
                });
                if (k as int) < i {
                    assert(bits@[k as int] == z2_hash(self.key(), old(data)@[k as int]@));
                }
            }
        }
        out
    }
}

/// The SHA-256 digest of `data`.
pub uninterp spec fn sha256_digest(data: Seq<u8>) -> Seq<u8>;

/// The HMAC-SHA-256 tag of `data` under `key`.
pub uninterp spec fn hmac_sha256_tag(key: Seq<u8>, data: Seq<u8>) -> Seq<u8>;

/// Relies on sha2's `Sha256` (`Digest::digest`): the 32-byte SHA-256 digest of `data`.
#[verifier::external_body]
fn sha256(data: &[u8]) -> (r: [u8; 32])
    ensures
        r@ == sha256_digest(data@),
{
    Sha256::digest(data).into()
}

/// Relies on hmac's `Hmac<Sha256>` (`KeyInit::new_from_slice`, `Mac::update`,
/// `Mac::finalize`): the 32-byte tag of `data` under `key`. HMAC accepts keys
/// of any length, so the key is never refused.
#[verifier::external_body]
fn hmac_sha256(key: &[u8; 16], data: &[u8]) -> (r: Option<[u8; 32]>)
    ensures
        r is Some,
        r.unwrap()@ == hmac_sha256_tag(key@, data@),
{
    match <Hmac<Sha256> as Mac>::new_from_slice(key) {
        Ok(mut mac) => {
            mac.update(data);
            Some(mac.finalize().into_bytes().into())
        },
        Err(_) => None,
    }
}

/// A one-bit random oracle on byte strings: the least significant bit of the
/// first byte of their SHA-256 digest. Takes no key.
pub struct Sha256Z2Hash {}

impl Sha256Z2Hash {
    pub fn new() -> (r: Self) {
        Sha256Z2Hash {  }
    }

    /// The oracle's bit for `data`.
    pub fn hash(&self, data: &[u8]) -> (r: u8)
        ensures
            r == sha256_digest(data@)[0] & 1u8,
    {
        let digest = sha256(data);
        digest[0] & 1u8
    }
}

/// A one-bit random oracle on byte strings keyed by 16 bytes: the least
/// significant bit of the first byte of their HMAC-SHA-256 tag.
pub struct HmacSha256Z2Hash {
    key: [u8; 16],
}

impl Drop for HmacSha256Z2Hash {
    /// Wipes the key.
    fn drop(&mut self)
        opens_invariants none
        no_unwind
    {
        super::zeroize_bytes(&mut self.key);
    }
}

impl HmacSha256Z2Hash {
    /// The key of the oracle.
    pub closed spec fn key(&self) -> Seq<u8> {
        self.key@
    }

    pub fn new(key: &[u8; 16]) -> (r: Self)
        ensures
            r.key() == key@,
    {
        HmacSha256Z2Hash { key: *key }
    }

    /// The oracle's bit for `data`.
    pub fn hash(&self, data: &[u8]) -> (r: u8)
        ensures
            r == hmac_sha256_tag(self.key(), data@)[0] & 1u8,
    {
        match hmac_sha256(&self.key, data) {
            Some(tag) => tag[0] & 1u8,
            None => 0,
        }
    }

    /// The oracle's bit for each block, in order.
    pub fn hash_all(&self, input: &Vec<[u8; 16]>) -> (r: Vec<u8>)
        ensures
            r@.len() == input@.len(),
            forall|i: int|
                0 <= i < r@.len() ==> #[trigger] r@[i] == hmac_sha256_tag(self.key(), input@[i]@)[0]
                    & 1u8,
    {
        let mut out: Vec<u8> = Vec::with_capacity(input.len());
        let mut i: usize = 0;
        while i < input.len()
            invariant
                i <= input@.len(),
                out@.len() == i,
                forall|k: int|
                    0 <= k < i ==> #[trigger] out@[k] == hmac_sha256_tag(self.key(), input@[k]@)[0]
                        & 1u8,
            decreases input@.len() - i,
        {
            let block = input[i];
            out.push(self.hash(block.as_slice()));
            i = i + 1;
        }
        out
    }
}

} // verus!
