//! The block ORE scheme of Lewi and Wu with a 2-bit indicator function, over
//! 8-bit blocks: encryption of left and combined ciphertexts, and comparison.
use crate::block_types::{bit_at, RightBlock32, LEFT_BLOCK_SIZE, LEFT_F_SIZE};
use crate::ciphertext::{
    array16_at, array32_at, combined_ct_bytes, lemma_combined_round_trip, parse_combined,
    readable_header, CombinedCiphertext, LeftBlock, LeftCiphertext, COMBINED_BLOCK_SIZE,
    MAX_BLOCKS,
};
use crate::header::{parse_header, CtType, Header, FORMAT_VERSION, HEADER_LEN, SCHEME_ID};
use crate::primitives::hash::{z2_hash, Aes128Z2Hash};
use crate::primitives::prf::{aes128_encrypt, Aes128Prf};
use crate::primitives::prp::{lemma_shuffle_table_permutation, shuffle_table, Prp};
use crate::primitives::{zeroize_blocks, PrpError, NONCE_SIZE};
use rand::RngCore;
use rand::SeedableRng;
use rand_chacha::ChaCha20Rng;
use std::cmp::Ordering;
use subtle_ng::{Choice, ConditionallySelectable, ConstantTimeEq};
use vstd::prelude::*;

verus! {

#[verifier::external_type_specification]
#[verifier::external_body]
pub struct ExChaCha20Rng(ChaCha20Rng);

#[verifier::external_type_specification]
#[verifier::external_body]
pub struct ExRandError(rand::Error);

/// Relies on subtle_ng's `ConstantTimeEq` for `[u8]`: 1 when the two arrays
/// are equal, 0 otherwise, in time independent of their contents.
#[verifier::external_body]
fn ct_eq_block(a: &[u8; 16], b: &[u8; 16]) -> (r: u8)
    ensures
        r == (if a@ == b@ { 1u8 } else { 0u8 }),
{
    a[..].ct_eq(&b[..]).unwrap_u8()
}

/// Relies on subtle_ng's `ConstantTimeEq` for `u8`: 1 when equal, 0 otherwise.
#[verifier::external_body]
fn ct_eq_byte(a: u8, b: u8) -> (r: u8)
    ensures
        r == (if a == b { 1u8 } else { 0u8 }),
{
    a.ct_eq(&b).unwrap_u8()
}

/// Relies on subtle_ng's `ConditionallySelectable` for `u64`: `b` when
/// `choice` is 1, `a` when it is 0, without branching on `choice`.
#[verifier::external_body]
fn ct_select_u64(a: u64, b: u64, choice: u8) -> (r: u64)
    requires
        choice <= 1,
    ensures
        r == (if choice == 1 { b } else { a }),
{
    u64::conditional_select(&a, &b, Choice::from(choice))
}

/// Relies on rand_chacha's `ChaCha20Rng` through `SeedableRng::from_rng`,
/// seeded from the operating system (rand's `OsRng`); fails when the
/// system's entropy source does.
#[verifier::external_body]
fn seeded_rng() -> (r: Result<ChaCha20Rng, rand::Error>) {
    ChaCha20Rng::from_rng(rand::rngs::OsRng)
}

/// Relies on `RngCore::try_fill_bytes` of `ChaCha20Rng`: 16 fresh bytes. The
/// generator is a block RNG whose `try_fill_bytes` fills the buffer and
/// always returns `Ok`.
#[verifier::external_body]
fn draw_nonce(rng: &mut ChaCha20Rng) -> (r: Result<[u8; 16], rand::Error>)
    ensures
        r is Ok,
{
    let mut nonce = [0u8; 16];
    match rng.try_fill_bytes(&mut nonce) {
        Ok(()) => Ok(nonce),
        Err(e) => Err(e),
    }
}

/// Why an operation of the scheme failed.
#[derive(Debug, Clone, Copy, PartialEq, Eq, Structural)]
pub enum OreError {
    /// The key material could not be used.
    InitFailed,
    /// A block permutation could not be built.
    PrpError,
    /// The entropy source failed to deliver randomness.
    RandError,
    /// The two ciphertexts cannot be compared.
    CompareError,
}

/// 1 when `a > b`, 0 otherwise.
pub fn gt(a: u8, b: u8) -> (r: u8)
    ensures
        r == gt_bit(a, b),
{
    (a > b) as u8
}

/// 1 when `a > b`, 0 otherwise.
pub open spec fn gt_bit(a: u8, b: u8) -> u8 {
    if a > b {
        1
    } else {
        0
    }
}

/// The first `n` bytes of `x`, zero-padded to 16 bytes.
pub open spec fn prefix_block(x: Seq<u8>, n: int) -> Seq<u8> {
    Seq::new(16, |k: int| if k < n { x[k] } else { 0u8 })
}

/// The PRF input for block `n` and value `v`: the first `n` bytes of `x`, then
/// `v`, zero-padded to 16 bytes, with byte `x.len()` holding the block index.
pub open spec fn prf_input(x: Seq<u8>, n: int, v: u8) -> Seq<u8> {
    Seq::new(
        16,
        |k: int|
            if k < n {
                x[k]
            } else if k == n {
                v
            } else if k == x.len() {
                n as u8
            } else {
                0u8
            },
    )
}

/// The forward table of the permutation of block `n` of `x` under `k2`.
pub open spec fn block_prp(k2: Seq<u8>, x: Seq<u8>, n: int) -> Option<Seq<u8>> {
    shuffle_table(aes128_encrypt(k2, prefix_block(x, n)))
}

/// Every block permutation of `x` under `k2` can be built.
pub open spec fn encryptable(k2: Seq<u8>, x: Seq<u8>) -> bool {
    forall|n: int| 0 <= n < x.len() ==> (#[trigger] block_prp(k2, x, n)) is Some
}

/// The permuted byte of block `n`.
pub open spec fn permuted_byte(k2: Seq<u8>, x: Seq<u8>, n: int) -> u8 {
    block_prp(k2, x, n).unwrap()[x[n] as int]
}

/// Left block `n` of `x`: the PRF output under `k1` on the prefix, the permuted
/// byte and the block index, and the permuted byte itself.
pub open spec fn left_block_of(k1: Seq<u8>, k2: Seq<u8>, x: Seq<u8>, n: int) -> (Seq<u8>, u8) {
    let xt = permuted_byte(k2, x, n);
    (aes128_encrypt(k1, prf_input(x, n, xt)), xt)
}

/// The left ciphertext of `x`.
pub open spec fn left_of(k1: Seq<u8>, k2: Seq<u8>, x: Seq<u8>) -> Seq<(Seq<u8>, u8)> {
    Seq::new(x.len(), |n: int| left_block_of(k1, k2, x, n))
}

/// The random-oracle mask of value `j` in block `n` of `x`.
pub open spec fn mask_bit(k1: Seq<u8>, x: Seq<u8>, nonce: Seq<u8>, n: int, j: u8) -> u8 {
    z2_hash(nonce, aes128_encrypt(k1, prf_input(x, n, j)))
}

/// `r` is right block `n` of `x` under `nonce`: for each plaintext byte value
/// `v`, the bit at `v`'s permuted position is `v > x[n]` masked by the random
/// oracle.
pub open spec fn is_right_block_of(
    k1: Seq<u8>,
    k2: Seq<u8>,
    x: Seq<u8>,
    nonce: Seq<u8>,
    n: int,
    r: Seq<u8>,
) -> bool {
    let t = block_prp(k2, x, n).unwrap();
    &&& r.len() == 32
    &&& forall|v: int|
        0 <= v < 256 ==> bit_at(r, t[v] as int) == gt_bit(v as u8, x[n]) ^ mask_bit(
            k1,
            x,
            nonce,
            n,
            #[trigger] t[v],
        )
}

/// The first index at which `a` and `b` differ is `l`.
pub open spec fn first_difference<T>(a: Seq<T>, b: Seq<T>, l: int) -> bool {
    &&& 0 <= l < a.len()
    &&& a[l] != b[l]
    &&& forall|k: int| 0 <= k < l ==> a[k] == b[k]
}

/// The order the scheme reveals between a left ciphertext `left` and a
/// ciphertext with nonce `nonce`, left blocks `rl` and right blocks `rr`: Equal
/// when all left blocks agree; otherwise the indicator bit at the first
/// differing block, at the left's permuted byte, unmasked by the random oracle
/// on the left's F-block, with 1 meaning Greater.
pub open spec fn ore_compare(
    left: Seq<(Seq<u8>, u8)>,
    nonce: Seq<u8>,
    rl: Seq<(Seq<u8>, u8)>,
    rr: Seq<Seq<u8>>,
) -> Ordering {
    if forall|k: int| 0 <= k < left.len() ==> left[k] == rl[k] {
        Ordering::Equal
    } else {
        let l = choose|l: int| first_difference(left, rl, l);
        if bit_at(rr[l], left[l].1 as int) ^ z2_hash(nonce, left[l].0) == 1 {
            Ordering::Greater
        } else {
            Ordering::Less
        }
    }
}

/// The lexicographic order of two byte strings of one length: the order of
/// their first differing bytes.
pub open spec fn lex_cmp(x: Seq<u8>, y: Seq<u8>) -> Ordering {
    if forall|k: int| 0 <= k < x.len() ==> x[k] == y[k] {
        Ordering::Equal
    } else {
        let d = choose|d: int| first_difference(x, y, d);
        if x[d] < y[d] {
            Ordering::Less
        } else {
            Ordering::Greater
        }
    }
}

/// What comparing two serialized combined ciphertexts gives: `None` unless
/// both parse, have one length and at least one block; otherwise the order of
/// the first's left half against the second.
pub open spec fn raw_compare(a: Seq<u8>, b: Seq<u8>) -> Option<Ordering> {
    if a.len() != b.len() {
        None
    } else {
        match (parse_combined(a), parse_combined(b)) {
            (Some(ca), Some(cb)) => if ca.1.len() == 0 || ca.1.len() != cb.1.len() {
                None
            } else {
                Some(ore_compare(ca.1, cb.0, cb.1, cb.2))
            },
            _ => None,
        }
    }
}

proof fn lemma_first_difference_unique<T>(a: Seq<T>, b: Seq<T>, l1: int, l2: int)
    requires
        first_difference(a, b, l1),
        first_difference(a, b, l2),
    ensures
        l1 == l2,
{
    if l1 < l2 {
        assert(a[l1] == b[l1]);
    } else if l2 < l1 {
        assert(a[l2] == b[l2]);
    }
}

fn prefix_bytes(x: &[u8], n: usize) -> (r: [u8; 16])
    requires
        n <= x@.len(),
        n <= 16,
    ensures
        r@ == prefix_block(x@, n as int),
{
    let mut r = [0u8; 16];
    let mut k: usize = 0;
    while k < n
        invariant
            k <= n,
            n <= x@.len(),
            n <= 16,
            forall|m: int| 0 <= m < k ==> r@[m] == x@[m],
            forall|m: int| k <= m < 16 ==> r@[m] == 0,
        decreases n - k,
    {
        r[k] = x[k];
        k = k + 1;
    }
    assert(r@ =~= prefix_block(x@, n as int));
    r
}

/// For each block index `n` of `x`, the first `n` bytes of `x` zero-padded to 16 bytes.
pub fn prefixes(x: &[u8]) -> (r: Vec<[u8; 16]>)
    requires
        x@.len() <= 17,
    ensures
        r@.len() == x@.len(),
        forall|n: int| 0 <= n < x@.len() ==> (#[trigger] r@[n])@ == prefix_block(x@, n),
{
    let mut out: Vec<[u8; 16]> = Vec::with_capacity(x.len());
    let mut n: usize = 0;
    while n < x.len()
        invariant
            n <= x@.len(),
            x@.len() <= 17,
            out@.len() == n,
            forall|k: int| 0 <= k < n ==> (#[trigger] out@[k])@ == prefix_block(x@, k),
        decreases x@.len() - n,
    {
        out.push(prefix_bytes(x, n));
        n = n + 1;
    }
    out
}

fn prf_input_bytes(x: &[u8], n: usize, v: u8) -> (r: [u8; 16])
    requires
        n < x@.len(),
        x@.len() < 16,
    ensures
        r@ == prf_input(x@, n as int, v),
{
    let mut r = prefix_bytes(x, n);
    r[n] = v;
    r[x.len()] = n as u8;
    assert(r@ =~= prf_input(x@, n as int, v));
    r
}

proof fn lemma_zero_bits(r: Seq<u8>)
    requires
        r.len() == 32,
        forall|i: int| 0 <= i < 32 ==> r[i] == 0,
    ensures
        forall|j: int| 0 <= j < 256 ==> #[trigger] bit_at(r, j) == 0,
{
    assert forall|j: int| 0 <= j < 256 implies #[trigger] bit_at(r, j) == 0 by {
        let s = (j % 8) as u8;
        assert((0u8 >> s) & 1u8 == 0) by (bit_vector);
    }
}

proof fn lemma_low_bit(b: u8)
    ensures
        b & 1u8 <= 1,
{
    assert(b & 1u8 <= 1) by (bit_vector);
}

proof fn lemma_xor_cancel(a: u8, h: u8)
    requires
        a <= 1,
        h <= 1,
    ensures
        (a ^ h) ^ h == a,
        a ^ h <= 1,
{
    assert((a ^ h) ^ h == a) by (bit_vector);
    assert(a ^ h <= 1) by (bit_vector)
        requires
            a <= 1,
            h <= 1,
    ;
}

/// The ORE cipher: PRF1 keyed by `k1` (left blocks and random-oracle inputs),
/// PRF2 keyed by `k2` (permutation seeds), and a generator of nonces.
pub struct OreAes128 {
    prf1: Aes128Prf,
    prf2: Aes128Prf,
    rng: ChaCha20Rng,
}

impl OreAes128 {
    pub closed spec fn k1(&self) -> Seq<u8> {
        self.prf1.key()
    }

    pub closed spec fn k2(&self) -> Seq<u8> {
        self.prf2.key()
    }

    /// A cipher under the keys `k1` and `k2`, with a nonce generator seeded
    /// from the operating system. Fails only when that seeding fails.
    pub fn init(k1: &[u8; 16], k2: &[u8; 16]) -> (r: Result<OreAes128, OreError>)
        ensures
            match r {
                Ok(c) => c.k1() == k1@ && c.k2() == k2@,
                Err(e) => e == OreError::RandError,
            },
    {
        let rng = match seeded_rng() {
            Ok(rng) => rng,
            Err(_) => {
                return Err(OreError::RandError);
            },
        };
        Ok(OreAes128 { prf1: Aes128Prf::new(k1), prf2: Aes128Prf::new(k2), rng })
    }

    /// The permutation seeds of all blocks of `x`.
    fn block_seeds(&self, x: &[u8]) -> (r: Vec<[u8; 16]>)
        requires
            x@.len() < 16,
        ensures
            r@.len() == x@.len(),
            forall|n: int|
                0 <= n < x@.len() ==> (#[trigger] r@[n])@ == aes128_encrypt(
                    self.k2(),
                    prefix_block(x@, n),
                ),
    {
        let mut seeds = prefixes(x);
        self.prf2.encrypt_all(&mut seeds);
        seeds
    }

    /// The left ciphertext of the plaintext `x` (one block per byte).
    /// Fails only when a block permutation cannot be built.
    pub fn encrypt_left(&self, x: &[u8]) -> (r: Result<LeftCiphertext, OreError>)
        requires
            x@.len() < 16,
        ensures
            match r {
                Ok(c) => encryptable(self.k2(), x@) && c@ == left_of(self.k1(), self.k2(), x@),
                Err(e) => !encryptable(self.k2(), x@) && e == OreError::PrpError,
            },
    {
        let n_blocks = x.len();
        let mut seeds = self.block_seeds(x);
        let mut inputs: Vec<[u8; 16]> = Vec::with_capacity(n_blocks);
        let mut xts: Vec<u8> = Vec::with_capacity(n_blocks);
        let mut n: usize = 0;
        while n < n_blocks
            invariant
                n <= n_blocks,
                n_blocks == x@.len(),
                n_blocks < 16,
                seeds@.len() == n_blocks,
                forall|k: int|
                    0 <= k < n_blocks ==> (#[trigger] seeds@[k])@ == aes128_encrypt(
                        self.k2(),
                        prefix_block(x@, k),
                    ),
                inputs@.len() == n,
                xts@.len() == n,
                forall|k: int| 0 <= k < n ==> (#[trigger] block_prp(self.k2(), x@, k)) is Some,
                forall|k: int|
                    0 <= k < n ==> #[trigger] xts@[k] == permuted_byte(self.k2(), x@, k),
                forall|k: int|
                    0 <= k < n ==> (#[trigger] inputs@[k])@ == prf_input(x@, k, xts@[k]),
            decreases n_blocks - n,
        {
            let prp = match Prp::init(&seeds[n]) {
                Ok(p) => p,
                Err(_) => {
                    assert(block_prp(self.k2(), x@, n as int) is None);
                    zeroize_blocks(&mut seeds);
                    return Err(OreError::PrpError);
                },
            };
            let xt = prp.permute(x[n]);
            xts.push(xt);
            inputs.push(prf_input_bytes(x, n, xt));
            n = n + 1;
        }
        zeroize_blocks(&mut seeds);
        self.prf1.encrypt_all(&mut inputs);
        let mut out = LeftCiphertext::new(n_blocks);
        let mut i: usize = 0;
        while i < n_blocks
            invariant
                i <= n_blocks,
                n_blocks == x@.len(),
                inputs@.len() == n_blocks,
                xts@.len() == n_blocks,
                forall|k: int|
                    0 <= k < n_blocks ==> #[trigger] xts@[k] == permuted_byte(self.k2(), x@, k),
                forall|k: int|
                    0 <= k < n_blocks ==> (#[trigger] inputs@[k])@ == aes128_encrypt(
                        self.k1(),
                        prf_input(x@, k, xts@[k]),
                    ),
                out@.len() == i,
                forall|k: int|
                    0 <= k < i ==> #[trigger] out@[k] == left_block_of(self.k1(), self.k2(), x@, k),
            decreases n_blocks - i,
        {
            out.add_block(LeftBlock { f: inputs[i], x: xts[i] });
            i = i + 1;
        }
        assert(out@ =~= left_of(self.k1(), self.k2(), x@));
        Ok(out)
    }

    /// Right block `n` of `x`: for each `j`, the bit at `j` is `prp⁻¹(j) > x[n]`
    /// XOR the random oracle under `hasher` on PRF1 of (prefix, `j`, `n`).
    fn right_block(&self, x: &[u8], n: usize, prp: &Prp, hasher: &Aes128Z2Hash) -> (r: RightBlock32)
        requires
            n < x@.len(),
            x@.len() < 16,
            prp.wf(),
        ensures
            r@.len() == 32,
            forall|j: int|
                0 <= j < 256 ==> #[trigger] bit_at(r@, j) == gt_bit(
                    prp.inverse_table()[j],
                    x@[n as int],
                ) ^ z2_hash(hasher.key(), aes128_encrypt(self.k1(), prf_input(x@, n as int, j as u8))),
    {
        let mut ro_keys: Vec<[u8; 16]> = Vec::with_capacity(256);
        let mut j: usize = 0;
        while j < 256
            invariant
                j <= 256,
                n < x@.len(),
                x@.len() < 16,
                ro_keys@.len() == j,
                forall|k: int|
                    0 <= k < j ==> (#[trigger] ro_keys@[k])@ == prf_input(x@, n as int, k as u8),
            decreases 256 - j,
        {
            ro_keys.push(prf_input_bytes(x, n, j as u8));
            j = j + 1;
        }
        self.prf1.encrypt_all(&mut ro_keys);
        let hashes = hasher.hash_all(&mut ro_keys);
        zeroize_blocks(&mut ro_keys);
        let mut block = RightBlock32::default();
        proof {
            lemma_zero_bits(block@);
        }
        let mut j: usize = 0;
        while j < 256
            invariant
                j <= 256,
                n < x@.len(),
                prp.wf(),
                hashes@.len() == 256,
                block@.len() == 32,
                forall|k: int|
                    0 <= k < 256 ==> #[trigger] hashes@[k] == z2_hash(
                        hasher.key(),
                        aes128_encrypt(self.k1(), prf_input(x@, n as int, k as u8)),
                    ),
                forall|k: int|
                    0 <= k < j ==> #[trigger] bit_at(block@, k) == gt_bit(
                        prp.inverse_table()[k],
                        x@[n as int],
                    ) ^ hashes@[k],
                forall|k: int| j <= k < 256 ==> #[trigger] bit_at(block@, k) == 0,
            decreases 256 - j,
        {
            let jstar = prp.inverse(j as u8);
            let indicator = gt(jstar, x[n]);
            let h = hashes[j];
            proof {
                lemma_low_bit(
                    aes128_encrypt(
                        hasher.key(),
                        aes128_encrypt(self.k1(), prf_input(x@, n as int, j as u8)),
                    )[0],
                );
                lemma_xor_cancel(indicator, h);
            }
            block.set_bit(j, indicator ^ h);
            proof {
                let v = indicator ^ h;
                assert((0u8 | v) == v) by (bit_vector);
            }
            j = j + 1;
        }
        block
    }

    /// The combined ciphertext of `x` under the nonce `nonce`.
    /// Fails only when a block permutation cannot be built.
    pub fn encrypt_with_nonce(&self, x: &[u8], nonce: &[u8; 16]) -> (r: Result<
        CombinedCiphertext,
        OreError,
    >)
        requires
            x@.len() < 16,
        ensures
            match r {
                Ok(c) => {
                    &&& encryptable(self.k2(), x@)
                    &&& c@.0 == nonce@
                    &&& c@.1 == left_of(self.k1(), self.k2(), x@)
                    &&& c@.2.len() == x@.len()
                    &&& forall|n: int|
                        0 <= n < x@.len() ==> is_right_block_of(
                            self.k1(),
                            self.k2(),
                            x@,
                            nonce@,
                            n,
                            #[trigger] c@.2[n],
                        )
                },
                Err(e) => !encryptable(self.k2(), x@) && e == OreError::PrpError,
            },
    {
        let n_blocks = x.len();
        let mut seeds = self.block_seeds(x);
        let hasher = Aes128Z2Hash::new(nonce);
        let mut inputs: Vec<[u8; 16]> = Vec::with_capacity(n_blocks);
        let mut xts: Vec<u8> = Vec::with_capacity(n_blocks);
        let mut rights: Vec<RightBlock32> = Vec::with_capacity(n_blocks);
        let mut n: usize = 0;
        while n < n_blocks
            invariant
                n <= n_blocks,
                n_blocks == x@.len(),
                n_blocks < 16,
                hasher.key() == nonce@,
                seeds@.len() == n_blocks,
                forall|k: int|
                    0 <= k < n_blocks ==> (#[trigger] seeds@[k])@ == aes128_encrypt(
                        self.k2(),
                        prefix_block(x@, k),
                    ),
                inputs@.len() == n,
                xts@.len() == n,
                rights@.len() == n,
                forall|k: int| 0 <= k < n ==> (#[trigger] block_prp(self.k2(), x@, k)) is Some,
                forall|k: int|
                    0 <= k < n ==> #[trigger] xts@[k] == permuted_byte(self.k2(), x@, k),
                forall|k: int|
                    0 <= k < n ==> (#[trigger] inputs@[k])@ == prf_input(x@, k, xts@[k]),
                forall|k: int|
                    0 <= k < n ==> is_right_block_of(
                        self.k1(),
                        self.k2(),
                        x@,
                        nonce@,
                        k,
                        (#[trigger] rights@[k])@,
                    ),
            decreases n_blocks - n,
        {
            let prp = match Prp::init(&seeds[n]) {
                Ok(p) => p,
                Err(_) => {
                    assert(block_prp(self.k2(), x@, n as int) is None);
                    zeroize_blocks(&mut seeds);
                    return Err(OreError::PrpError);
                },
            };
            let xt = prp.permute(x[n]);
            xts.push(xt);
            inputs.push(prf_input_bytes(x, n, xt));
            let rb = self.right_block(x, n, &prp, &hasher);
            proof {
                let t = prp.table();
                assert forall|v: int| 0 <= v < 256 implies bit_at(rb@, t[v] as int) == gt_bit(
                    v as u8,
                    x@[n as int],
                ) ^ mask_bit(self.k1(), x@, nonce@, n as int, #[trigger] t[v]) by {
                    assert(prp.inverse_table()[t[v] as int] == v);
                    assert((t[v] as int) as u8 == t[v]);
                }
            }
            rights.push(rb);
            n = n + 1;
        }
        zeroize_blocks(&mut seeds);
        self.prf1.encrypt_all(&mut inputs);
        let mut out = CombinedCiphertext::new(n_blocks, nonce);
        let mut i: usize = 0;
        while i < n_blocks
            invariant
                i <= n_blocks,
                n_blocks == x@.len(),
                inputs@.len() == n_blocks,
                xts@.len() == n_blocks,
                rights@.len() == n_blocks,
                forall|k: int|
                    0 <= k < n_blocks ==> #[trigger] xts@[k] == permuted_byte(self.k2(), x@, k),
                forall|k: int|
                    0 <= k < n_blocks ==> (#[trigger] inputs@[k])@ == aes128_encrypt(
                        self.k1(),
                        prf_input(x@, k, xts@[k]),
                    ),
                forall|k: int|
                    0 <= k < n_blocks ==> is_right_block_of(
                        self.k1(),
                        self.k2(),
                        x@,
                        nonce@,
                        k,
                        (#[trigger] rights@[k])@,
                    ),
                out@.0 == nonce@,
                out@.1.len() == i,
                out@.2.len() == i,
                forall|k: int|
                    0 <= k < i ==> #[trigger] out@.1[k] == left_block_of(
                        self.k1(),
                        self.k2(),
                        x@,
                        k,
                    ),
                forall|k: int| 0 <= k < i ==> #[trigger] out@.2[k] == rights@[k]@,
            decreases n_blocks - i,
        {
            out.add_block(LeftBlock { f: inputs[i], x: xts[i] }, rights[i]);
            i = i + 1;
        }
        assert(out@.1 =~= left_of(self.k1(), self.k2(), x@));
        Ok(out)
    }

    /// The combined ciphertext of `x` under a fresh nonce from the cipher's
    /// generator. Fails only when a block permutation cannot be built.
    pub fn encrypt(&mut self, x: &[u8]) -> (r: Result<CombinedCiphertext, OreError>)
        requires
            x@.len() < 16,
        ensures
            final(self).k1() == old(self).k1(),
            final(self).k2() == old(self).k2(),
            encryptable(old(self).k2(), x@) ==> r is Ok,
            match r {
                Ok(c) => {
                    &&& encryptable(old(self).k2(), x@)
                    &&& c@.1 == left_of(old(self).k1(), old(self).k2(), x@)
                    &&& c@.2.len() == x@.len()
                    &&& forall|n: int|
                        0 <= n < x@.len() ==> is_right_block_of(
                            old(self).k1(),
                            old(self).k2(),
                            x@,
                            c@.0,
                            n,
                            #[trigger] c@.2[n],
                        )
                },
                Err(e) => !encryptable(old(self).k2(), x@) && e == OreError::PrpError,
            },
    {
        let nonce = match draw_nonce(&mut self.rng) {
            Ok(nonce) => nonce,
            Err(_) => {
                return Err(OreError::RandError);
            },
        };
        self.encrypt_with_nonce(x, &nonce)
    }

    /// Compares the plaintext under `left` with the one under `right`, scanning
    /// every block with constant-time selection. Fails when the block counts differ.
    pub fn compare(left: &LeftCiphertext, right: &CombinedCiphertext) -> (r: Result<
        Ordering,
        OreError,
    >)
        ensures
            left@.len() != right@.1.len() ==> r == Err::<Ordering, OreError>(OreError::CompareError),
            left@.len() == right@.1.len() ==> r == Ok::<Ordering, OreError>(
                ore_compare(left@, right@.0, right@.1, right@.2),
            ),
    {
        let n_blocks = left.blocks.len();
        if n_blocks != right.blocks.len() {
            return Err(OreError::CompareError);
        }
        let ghost a = left@;
        let ghost b = right@.1;
        let mut is_equal: u8 = 1;
        let mut l: u64 = 0;
        let mut n: usize = 0;
        while n < n_blocks
            invariant
                n <= n_blocks,
                n_blocks == left.blocks@.len(),
                n_blocks == right.blocks@.len(),
                a == left@,
                b == right@.1,
                is_equal <= 1,
                is_equal == 1 <==> (forall|k: int| 0 <= k < n ==> a[k] == b[k]),
                is_equal == 0 ==> l < n && first_difference(a, b, l as int),
            decreases n_blocks - n,
        {
            let lb = &left.blocks[n];
            let rb = &right.blocks[n].left;
            let same_x = ct_eq_byte(lb.x, rb.x);
            let same_f = ct_eq_block(&lb.f, &rb.f);
            let same = same_x & same_f;
            proof {
                assert(same == (if a[n as int] == b[n as int] { 1u8 } else { 0u8 })) by {
                    assert(a[n as int] == lb@);
                    assert(b[n as int] == rb@);
                    assert(same_x & same_f == (if same_x == 1 && same_f == 1 { 1u8 } else { 0u8 }))
                        by (bit_vector)
                        requires
                            same_x <= 1,
                            same_f <= 1,
                    ;
                }
            }
            let differs: u8 = 1 - same;
            let first = is_equal & differs;
            proof {
                assert(first == (if is_equal == 1 && same == 0 { 1u8 } else { 0u8 })) by (bit_vector)
                    requires
                        is_equal <= 1,
                        same <= 1,
                        differs == 1 - same,
                        first == is_equal & differs,
                ;
            }
            l = ct_select_u64(l, n as u64, first);
            let still = is_equal & same;
            proof {
                assert(still == (if is_equal == 1 && same == 1 { 1u8 } else { 0u8 })) by (bit_vector)
                    requires
                        is_equal <= 1,
                        same <= 1,
                        still == is_equal & same,
                ;
            }
            is_equal = still;
            n = n + 1;
        }
        if is_equal == 1 {
            return Ok(Ordering::Equal);
        }
        let l = l as usize;
        let hasher = Aes128Z2Hash::new(&right.nonce);
        let h = hasher.hash(&left.blocks[l].f);
        let bit = right.blocks[l].right.get_bit(left.blocks[l].x as usize);
        proof {
            let c = choose|c: int| first_difference(a, b, c);
            lemma_first_difference_unique(a, b, c, l as int);
        }
        if bit ^ h == 1 {
            Ok(Ordering::Greater)
        } else {
            Ok(Ordering::Less)
        }
    }

    /// Compares two serialized combined ciphertexts in place, reading the
    /// blocks straight from the slices: `None` unless both are well formed, of
    /// one length and with at least one block. Every block is scanned, with
    /// constant-time selection of the first difference.
    pub fn compare_raw_slices(a: &[u8], b: &[u8]) -> (r: Option<Ordering>)
        ensures
            r == raw_compare(a@, b@),
    {
        if a.len() != b.len() {
            return None;
        }
        let ha = match Header::from_slice(a) {
            Ok(h) => h,
            Err(_) => {
                return None;
            },
        };
        let hb = match Header::from_slice(b) {
            Ok(h) => h,
            Err(_) => {
                return None;
            },
        };
        if ha.version != FORMAT_VERSION || ha.scheme != SCHEME_ID || ha.ct_type != CtType::Combined
            || hb.version != FORMAT_VERSION || hb.scheme != SCHEME_ID || hb.ct_type
            != CtType::Combined {
            return None;
        }
        let n_blocks = ha.num_blocks as usize;
        if a.len() != HEADER_LEN + NONCE_SIZE + n_blocks * COMBINED_BLOCK_SIZE {
            return None;
        }
        if n_blocks == 0 || hb.num_blocks != ha.num_blocks {
            return None;
        }
        let ghost pa = parse_combined(a@).unwrap();
        let ghost pb = parse_combined(b@).unwrap();
        let mut is_equal: u8 = 1;
        let mut l: u64 = 0;
        let mut n: usize = 0;
        while n < n_blocks
            invariant
                n <= n_blocks,
                n_blocks <= MAX_BLOCKS,
                a@.len() == 22 + 49 * n_blocks,
                b@.len() == a@.len(),
                parse_header(a@) == Some(ha),
                parse_header(b@) == Some(hb),
                ha.num_blocks == n_blocks,
                hb.num_blocks == ha.num_blocks,
                readable_header(ha, CtType::Combined),
                readable_header(hb, CtType::Combined),
                pa == parse_combined(a@).unwrap(),
                pb == parse_combined(b@).unwrap(),
                pa.1.len() == n_blocks,
                pb.1.len() == n_blocks,
                is_equal <= 1,
                is_equal == 1 <==> (forall|k: int| 0 <= k < n ==> pa.1[k] == pb.1[k]),
                is_equal == 0 ==> l < n && first_difference(pa.1, pb.1, l as int),
            decreases n_blocks - n,
        {
            let off = HEADER_LEN + NONCE_SIZE + n * COMBINED_BLOCK_SIZE;
            let fa = array16_at(a, off);
            let fb = array16_at(b, off);
            let same_f = ct_eq_block(&fa, &fb);
            let same_x = ct_eq_byte(a[off + LEFT_F_SIZE], b[off + LEFT_F_SIZE]);
            let same = same_x & same_f;
            proof {
                assert(pa.1[n as int] == (fa@, a@[off + 16]));
                assert(pb.1[n as int] == (fb@, b@[off + 16]));
                assert(same == (if pa.1[n as int] == pb.1[n as int] { 1u8 } else { 0u8 })) by {
                    assert(same_x & same_f == (if same_x == 1 && same_f == 1 { 1u8 } else { 0u8 }))
                        by (bit_vector)
                        requires
                            same_x <= 1,
                            same_f <= 1,
                    ;
                }
            }
            let differs: u8 = 1 - same;
            let first = is_equal & differs;
            proof {
                assert(first == (if is_equal == 1 && same == 0 { 1u8 } else { 0u8 })) by (bit_vector)
                    requires
                        is_equal <= 1,
                        same <= 1,
                        differs == 1 - same,
                        first == is_equal & differs,
                ;
            }
            l = ct_select_u64(l, n as u64, first);
            let still = is_equal & same;
            proof {
                assert(still == (if is_equal == 1 && same == 1 { 1u8 } else { 0u8 })) by (bit_vector)
                    requires
                        is_equal <= 1,
                        same <= 1,
                        still == is_equal & same,
                ;
            }
            is_equal = still;
            n = n + 1;
        }
        if is_equal == 1 {
            return Some(Ordering::Equal);
        }
        let l = l as usize;
        let off = HEADER_LEN + NONCE_SIZE + l * COMBINED_BLOCK_SIZE;
        let nonce = array16_at(b, HEADER_LEN);
        let hasher = Aes128Z2Hash::new(&nonce);
        let fa = array16_at(a, off);
        let h = hasher.hash(&fa);
        let x = a[off + LEFT_F_SIZE];
        let right = RightBlock32::from_bytes(array32_at(b, off + LEFT_BLOCK_SIZE));
        let bit = right.get_bit(x as usize);
        proof {
            assert(pa.1[l as int] == (fa@, x));
            assert(pb.0 == nonce@);
            assert(pb.2[l as int] == right@);
            let c = choose|c: int| first_difference(pa.1, pb.1, c);
            lemma_first_difference_unique(pa.1, pb.1, c, l as int);
        }
        if bit ^ h == 1 {
            Some(Ordering::Greater)
        } else {
            Some(Ordering::Less)
        }
    }
}

impl CombinedCiphertext {
    /// The order of the plaintext under this ciphertext's left half against
    /// the one under `other`: this left half is compared with `other`'s right half.
    pub fn cmp(&self, other: &CombinedCiphertext) -> (r: Ordering)
        requires
            self@.1.len() == other@.1.len(),
        ensures
            r == ore_compare(self@.1, other@.0, other@.1, other@.2),
    {
        match OreAes128::compare(&self.left(), other) {
            Ok(o) => o,
            Err(_) => Ordering::Equal,
        }
    }
}

/// Where two sequences of one length differ somewhere at or after `i` and
/// agree before it, a first difference exists.
pub proof fn lemma_first_difference_from<T>(a: Seq<T>, b: Seq<T>, i: int)
    requires
        0 <= i <= a.len(),
        forall|k: int| 0 <= k < i ==> a[k] == b[k],
        exists|k: int| i <= k < a.len() && a[k] != b[k],
    ensures
        exists|l: int| first_difference(a, b, l),
    decreases a.len() - i,
{
    if a[i] != b[i] {
        assert(first_difference(a, b, i));
    } else {
        lemma_first_difference_from(a, b, i + 1);
    }
}

proof fn lemma_same_prefix_same_inputs(x: Seq<u8>, y: Seq<u8>, n: int)
    requires
        x.len() == y.len(),
        0 <= n < x.len(),
        forall|k: int| 0 <= k < n ==> x[k] == y[k],
    ensures
        prefix_block(x, n) == prefix_block(y, n),
        forall|v: u8| #[trigger] prf_input(x, n, v) == prf_input(y, n, v),
{
    assert(prefix_block(x, n) =~= prefix_block(y, n));
    assert forall|v: u8| #[trigger] prf_input(x, n, v) == prf_input(y, n, v) by {
        assert(prf_input(x, n, v) =~= prf_input(y, n, v));
    }
}

/// Order preservation: comparing the left ciphertext of `x` with a combined
/// ciphertext of `y` under the same keys (any nonce) gives the order of `x`
/// and `y`, read as big-endian numbers of equal width.
pub proof fn lemma_order_preserving(
    k1: Seq<u8>,
    k2: Seq<u8>,
    x: Seq<u8>,
    y: Seq<u8>,
    nonce: Seq<u8>,
    right: Seq<Seq<u8>>,
)
    requires
        x.len() == y.len(),
        x.len() < 16,
        encryptable(k2, x),
        encryptable(k2, y),
        right.len() == y.len(),
        forall|n: int| 0 <= n < y.len() ==> is_right_block_of(k1, k2, y, nonce, n, #[trigger] right[n]),
    ensures
        ore_compare(left_of(k1, k2, x), nonce, left_of(k1, k2, y), right) == lex_cmp(x, y),
{
    let lx = left_of(k1, k2, x);
    let ly = left_of(k1, k2, y);
    if forall|k: int| 0 <= k < x.len() ==> x[k] == y[k] {
        assert(x =~= y);
    } else {
        lemma_first_difference_from(x, y, 0);
        let d = choose|d: int| first_difference(x, y, d);
        assert forall|k: int| 0 <= k < d implies lx[k] == ly[k] by {
            lemma_same_prefix_same_inputs(x, y, k);
        }
        lemma_same_prefix_same_inputs(x, y, d);
        let t = block_prp(k2, x, d).unwrap();
        assert(block_prp(k2, x, d) is Some);
        assert(block_prp(k2, y, d) is Some);
        lemma_shuffle_table_permutation(aes128_encrypt(k2, prefix_block(x, d)));
        let xt = t[x[d] as int];
        assert(t[x[d] as int] != t[y[d] as int]);
        assert(lx[d].1 == xt);
        assert(ly[d].1 == t[y[d] as int]);
        assert(first_difference(lx, ly, d));
        let l = choose|l: int| first_difference(lx, ly, l);
        lemma_first_difference_unique(lx, ly, l, d);
        assert(is_right_block_of(k1, k2, y, nonce, d, right[d]));
        assert(bit_at(right[d], xt as int) == gt_bit(x[d], y[d]) ^ mask_bit(k1, y, nonce, d, xt));
        assert(lx[d].0 == aes128_encrypt(k1, prf_input(x, d, xt)));
        assert(prf_input(x, d, xt) == prf_input(y, d, xt));
        let h = z2_hash(nonce, lx[d].0);
        lemma_low_bit(aes128_encrypt(nonce, lx[d].0)[0]);
        lemma_xor_cancel(gt_bit(x[d], y[d]), h);
    }
}

/// Equality: the left ciphertext of `x` compares Equal with any combined
/// ciphertext of `x` under the same keys.
pub proof fn lemma_equal_plaintexts_compare_equal(
    k1: Seq<u8>,
    k2: Seq<u8>,
    x: Seq<u8>,
    nonce: Seq<u8>,
    right: Seq<Seq<u8>>,
)
    requires
        x.len() < 16,
        encryptable(k2, x),
        right.len() == x.len(),
        forall|n: int| 0 <= n < x.len() ==> is_right_block_of(k1, k2, x, nonce, n, #[trigger] right[n]),
    ensures
        ore_compare(left_of(k1, k2, x), nonce, left_of(k1, k2, x), right) == Ordering::Equal,
{
    lemma_order_preserving(k1, k2, x, x, nonce, right);
}

/// Raw-slice equivalence: comparing the serializations of two combined
/// ciphertexts with the same number of blocks (at least one) gives what
/// comparing the first's left half with the second gives.
pub proof fn lemma_raw_compare_matches(
    a: (Seq<u8>, Seq<(Seq<u8>, u8)>, Seq<Seq<u8>>),
    b: (Seq<u8>, Seq<(Seq<u8>, u8)>, Seq<Seq<u8>>),
)
    requires
        a.0.len() == 16,
        b.0.len() == 16,
        a.1.len() == a.2.len(),
        b.1.len() == b.2.len(),
        a.1.len() == b.1.len(),
        1 <= a.1.len() <= MAX_BLOCKS,
        forall|i: int| 0 <= i < a.1.len() ==> (#[trigger] a.1[i]).0.len() == 16,
        forall|i: int| 0 <= i < a.2.len() ==> (#[trigger] a.2[i]).len() == 32,
        forall|i: int| 0 <= i < b.1.len() ==> (#[trigger] b.1[i]).0.len() == 16,
        forall|i: int| 0 <= i < b.2.len() ==> (#[trigger] b.2[i]).len() == 32,
    ensures
        raw_compare(combined_ct_bytes(a.0, a.1, a.2), combined_ct_bytes(b.0, b.1, b.2)) == Some(
            ore_compare(a.1, b.0, b.1, b.2),
        ),
{
    lemma_combined_round_trip(a.0, a.1, a.2);
    lemma_combined_round_trip(b.0, b.1, b.2);
}

} // verus!
