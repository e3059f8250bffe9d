use super::prf::{aes128_encrypt, Aes128Prf};
use super::PrpError;
use vstd::arithmetic::div_mod::{lemma_fundamental_div_mod, lemma_fundamental_div_mod_converse};
use vstd::prelude::*;

verus! {

/// Number of AES blocks encrypted together in one batch.
pub const PRNG_BATCH_BLOCKS: usize = 32;

/// Number of bytes in one batch.
const PRNG_BATCH_BYTES: usize = 512;

/// Length in bytes of the stream: the counter is a 32-bit integer and every
/// counter value gives 16 bytes.
pub open spec fn stream_len() -> nat {
    0x10_0000_0000
}

/// The input block for counter value `c`: the counter big-endian in bytes 0..4,
/// then twelve zero bytes.
pub open spec fn counter_block(c: u32) -> Seq<u8> {
    seq![
        (c >> 24u32) as u8,
        (c >> 16u32) as u8,
        (c >> 8u32) as u8,
        c as u8,
        0u8,
        0u8,
        0u8,
        0u8,
        0u8,
        0u8,
        0u8,
        0u8,
        0u8,
        0u8,
        0u8,
        0u8,
    ]
}

/// Byte `k` of the stream seeded by `key`.
pub open spec fn stream_byte(key: Seq<u8>, k: int) -> u8 {
    aes128_encrypt(key, counter_block((k / 16) as u32))[k % 16]
}

/// Bytes at or above this bound are rejected when drawing a number in `[0, max]`:
/// the largest multiple of `max + 1` that is at most 256.
pub open spec fn range_threshold(max: u8) -> int {
    (256int / (max + 1)) * (max + 1)
}

/// The position of the first byte at or after `pos` that a draw in `[0, max]`
/// accepts, or a position at or past the end of the stream when there is none.
pub open spec fn next_accepted(key: Seq<u8>, pos: nat, max: u8) -> nat
    decreases stream_len() - pos,
{
    if pos >= stream_len() {
        pos
    } else if (stream_byte(key, pos as int) as int) < range_threshold(max) {
        pos
    } else {
        next_accepted(key, pos + 1, max)
    }
}

fn counter_bytes(c: u32) -> (r: [u8; 16])
    ensures
        r@ == counter_block(c),
{
    let r: [u8; 16] = [
        (c >> 24u32) as u8,
        (c >> 16u32) as u8,
        (c >> 8u32) as u8,
        c as u8,
        0,
        0,
        0,
        0,
        0,
        0,
        0,
        0,
        0,
        0,
        0,
        0,
    ];
    assert(r@ =~= counter_block(c));
    r
}

/// A deterministic byte stream: AES-128 in counter mode under a 16-byte key,
/// produced a batch of blocks at a time and handed out byte by byte.
pub struct Aes128Prng {
    prf: Aes128Prf,
    data: Vec<[u8; 16]>,
    ptr: usize,
    ctr: u64,
}

impl Drop for Aes128Prng {
    /// Wipes the buffered stream bytes; the key is wiped by its own drop.
    fn drop(&mut self)
        opens_invariants none
        no_unwind
    {
        super::zeroize_blocks(&mut self.data);
    }
}

impl Aes128Prng {
    /// The key that seeds the stream.
    pub closed spec fn key(&self) -> Seq<u8> {
        self.prf.key()
    }

    /// How many bytes of the stream have been handed out.
    pub closed spec fn pos(&self) -> nat {
        ((self.ctr - PRNG_BATCH_BLOCKS) * 16 + self.ptr) as nat
    }

    pub closed spec fn wf(&self) -> bool {
        &&& self.data@.len() == PRNG_BATCH_BLOCKS
        &&& PRNG_BATCH_BLOCKS <= self.ctr <= 0x1_0000_0000
        &&& self.ctr % 32 == 0
        &&& self.ptr <= PRNG_BATCH_BYTES
        &&& forall|b: int|
            0 <= b < PRNG_BATCH_BLOCKS ==> (#[trigger] self.data@[b])@ == aes128_encrypt(
                self.key(),
                counter_block((self.ctr - PRNG_BATCH_BLOCKS + b) as u32),
            )
    }

    /// A stream at its start, seeded by `key`.
    pub fn init(key: &[u8; 16]) -> (r: Self)
        ensures
            r.wf(),
            r.key() == key@,
            r.pos() == 0,
    {
        let mut prng = Aes128Prng { prf: Aes128Prf::new(key), data: Vec::new(), ptr: 0, ctr: 0 };
        prng.generate();
        prng
    }

    /// Encrypts the next batch of counter blocks.
    fn generate(&mut self)
        requires
            old(self).ctr + PRNG_BATCH_BLOCKS <= 0x1_0000_0000,
            old(self).ctr % 32 == 0,
        ensures
            final(self).wf(),
            final(self).prf == old(self).prf,
            final(self).ctr == old(self).ctr + PRNG_BATCH_BLOCKS,
            final(self).ptr == 0,
    {
        let mut blocks: Vec<[u8; 16]> = Vec::with_capacity(PRNG_BATCH_BLOCKS);
        let mut b: usize = 0;
        while b < PRNG_BATCH_BLOCKS
            invariant
                b <= PRNG_BATCH_BLOCKS,
                blocks@.len() == b,
                self.ctr + PRNG_BATCH_BLOCKS <= 0x1_0000_0000,
                forall|k: int|
                    0 <= k < b ==> (#[trigger] blocks@[k])@ == counter_block(
                        (self.ctr + k) as u32,
                    ),
            decreases PRNG_BATCH_BLOCKS - b,
        {
            blocks.push(counter_bytes((self.ctr + b as u64) as u32));
            b = b + 1;
        }
        self.prf.encrypt_all(&mut blocks);
        self.data = blocks;
        self.ptr = 0;
        self.ctr = self.ctr + PRNG_BATCH_BLOCKS as u64;
    }

    /// Whether bytes remain in the stream.
    pub fn has_next(&self) -> (r: bool)
        requires
            self.wf(),
        ensures
            r == (self.pos() < stream_len()),
    {
        !(self.ctr == 0x1_0000_0000 && self.ptr == PRNG_BATCH_BYTES)
    }

    /// The next byte of the stream.
    pub fn next_byte(&mut self) -> (r: u8)
        requires
            old(self).wf(),
            old(self).pos() < stream_len(),
        ensures
            final(self).wf(),
            final(self).key() == old(self).key(),
            final(self).pos() == old(self).pos() + 1,
            r == stream_byte(old(self).key(), old(self).pos() as int),
    {
        if self.ptr == PRNG_BATCH_BYTES {
            proof {
                lemma_fundamental_div_mod(self.ctr as int, 32);
            }
            self.generate();
        }
        let ghost p = self.pos();
        let block = self.data[self.ptr / 16];
        let value = block[self.ptr % 16];
        proof {
            let q = (self.ctr - PRNG_BATCH_BLOCKS) + (self.ptr / 16) as int;
            lemma_fundamental_div_mod(self.ptr as int, 16);
            lemma_fundamental_div_mod_converse(p as int, 16, q, (self.ptr % 16) as int);
        }
        self.ptr = self.ptr + 1;
        value
    }

    /// A number in `[0, max]`, drawn by rejection sampling: bytes at or above
    /// the largest multiple of `max + 1` not above 256 are skipped, and the first
    /// byte kept is reduced modulo `max + 1`. For `max == 0` no byte is drawn.
    /// Fails when the stream runs out before a byte is kept.
    pub fn gen_range(&mut self, max: u8) -> (r: Result<u8, PrpError>)
        requires
            old(self).wf(),
        ensures
            final(self).wf(),
            final(self).key() == old(self).key(),
            max == 0 ==> r == Ok::<u8, PrpError>(0u8) && final(self).pos() == old(self).pos(),
            max > 0 ==> ({
                let p = next_accepted(old(self).key(), old(self).pos(), max);
                if p < stream_len() {
                    &&& r == Ok::<u8, PrpError>(
                        (stream_byte(old(self).key(), p as int) as int % (max + 1)) as u8,
                    )
                    &&& final(self).pos() == p + 1
                } else {
                    r is Err
                }
            }),
    {
        if max == 0 {
            return Ok(0);
        }
        let m: u16 = max as u16 + 1;
        let q: u16 = 256u16 / m;
        proof {
            lemma_fundamental_div_mod(256, m as int);
            assert(q * m <= 256) by (nonlinear_arith)
                requires
                    256 == m * q + 256int % (m as int),
                    256int % (m as int) >= 0,
            ;
        }
        let t: u16 = q * m;
        let ghost target = next_accepted(self.key(), self.pos(), max);
        while self.has_next()
            invariant
                self.wf(),
                self.key() == old(self).key(),
                max > 0,
                m == max + 1,
                t == range_threshold(max),
                next_accepted(self.key(), self.pos(), max) == target,
                target == next_accepted(old(self).key(), old(self).pos(), max),
            decreases stream_len() - self.pos(),
        {
            let ghost start = self.pos();
            let c = self.next_byte();
            if (c as u16) < t {
                assert(next_accepted(self.key(), start, max) == start);
                return Ok((c as u16 % m) as u8);
            }
        }
        Err(PrpError)
    }
}

} // verus!
