use crate::primitives::zeroize_bytes;
use vstd::prelude::*;

verus! {

/// Size in bytes of the PRF output stored in a left block.
pub const LEFT_F_SIZE: usize = 16;

/// Size in bytes of a serialized left block: the F-block followed by the permuted byte.
pub const LEFT_BLOCK_SIZE: usize = 17;

/// Size in bytes of a serialized right block: a 256-bit indicator vector.
pub const RIGHT_BLOCK_SIZE: usize = 32;

/// Bit `j` of a byte string read as a little-endian bit vector:
/// byte `j / 8`, bit `j % 8` of that byte.
pub open spec fn bit_at(bytes: Seq<u8>, j: int) -> u8 {
    (bytes[j / 8] >> ((j % 8) as u8)) & 1u8
}

proof fn lemma_bit_read(b: u8, p: u8)
    requires
        p < 8,
    ensures
        (b & ((1u8 << p) as u8)) >> p == (b >> p) & 1u8,
        (b >> p) & 1u8 <= 1,
{
    assert((b & ((1u8 << p) as u8)) >> p == (b >> p) & 1u8) by (bit_vector)
        requires
            p < 8,
    ;
    assert((b >> p) & 1u8 <= 1) by (bit_vector);
}

proof fn lemma_bit_or(b: u8, v: u8, p: u8, q: u8)
    requires
        p < 8,
        q < 8,
        v <= 1,
    ensures
        ((b | ((v << p) as u8)) >> q) & 1u8 == if p == q {
            ((b >> q) & 1u8) | v
        } else {
            (b >> q) & 1u8
        },
{
    assert(((b | ((v << p) as u8)) >> q) & 1u8 == if p == q {
        ((b >> q) & 1u8) | v
    } else {
        (b >> q) & 1u8
    }) by (bit_vector)
        requires
            p < 8,
            q < 8,
            v <= 1,
    ;
}

/// A right ciphertext block: a 256-bit indicator vector held in 32 bytes.
/// Bit `j` lives at byte `j / 8`, bit `j % 8` of that byte.
#[derive(Clone, Copy, Debug)]
pub struct RightBlock32 {
    pub data: [u8; 32],
}

impl View for RightBlock32 {
    type V = Seq<u8>;

    open spec fn view(&self) -> Seq<u8> {
        self.data@
    }
}

impl Default for RightBlock32 {
    fn default() -> (r: Self)
        ensures
            r@ == Seq::new(32, |i: int| 0u8),
    {
        let r = RightBlock32 { data: [0u8; 32] };
        assert(r@ =~= Seq::new(32, |i: int| 0u8));
        r
    }
}

impl RightBlock32 {
    /// The block holding the given 32 bytes.
    pub fn from_bytes(data: [u8; 32]) -> (r: Self)
        ensures
            r@ == data@,
    {
        RightBlock32 { data }
    }

    /// The 32 bytes of the block.
    pub fn to_bytes(&self) -> (r: [u8; 32])
        ensures
            r@ == self@,
    {
        self.data
    }

    /// Wipes the block back to all zero bits, in place.
    pub fn default_in_place(&mut self)
        ensures
            final(self)@ == Seq::new(32, |i: int| 0u8),
    {
        zeroize_bytes(&mut self.data);
    }

    /// ORs `value` (0 or 1) into bit `bit`; every other bit keeps its value.
    pub fn set_bit(&mut self, bit: usize, value: u8)
        requires
            bit < 256,
            value <= 1,
        ensures
            final(self)@.len() == 32,
            bit_at(final(self)@, bit as int) == bit_at(old(self)@, bit as int) | value,
            forall|j: int|
                0 <= j < 256 && j != bit ==> bit_at(final(self)@, j) == bit_at(old(self)@, j),
    {
        let byte_index = bit / 8;
        let mask = (bit % 8) as u8;
        let v: u8 = value << mask;
        let old_byte = self.data[byte_index];
        self.data[byte_index] = old_byte | v;
        proof {
            let o = old(self)@;
            let n = self@;
            assert(n == o.update(byte_index as int, old_byte | v));
            lemma_bit_or(old_byte, value, mask, mask);
            assert forall|j: int| 0 <= j < 256 && j != bit implies bit_at(n, j) == bit_at(o, j) by {
                if j / 8 == byte_index as int {
                    lemma_bit_or(old_byte, value, mask, (j % 8) as u8);
                }
            }
        }
    }

    /// Reads bit `bit` of the indicator vector.
    pub fn get_bit(&self, bit: usize) -> (r: u8)
        requires
            bit < 256,
        ensures
            r == bit_at(self@, bit as int),
            r <= 1,
    {
        let byte_index = bit / 8;
        let position = (bit % 8) as u8;
        let v: u8 = 1u8 << position;
        proof {
            lemma_bit_read(self.data[byte_index as int], position);
        }
        (self.data[byte_index] & v) >> position
    }
}

/// A 256-bit indicator vector held as two 128-bit halves:
/// positions below 128 in `low`, the others in `high`.
#[derive(Clone, Copy, Debug)]
pub struct OreBlock8 {
    pub low: u128,
    pub high: u128,
}

/// Bit `position` of an [`OreBlock8`].
pub open spec fn ore_block8_bit(b: OreBlock8, position: int) -> u8 {
    if position < 128 {
        ((b.low >> (position as u128)) & 1u128) as u8
    } else {
        ((b.high >> ((position - 128) as u128)) & 1u128) as u8
    }
}

proof fn lemma_u128_bit_or(w: u128, v: u128, p: u128, q: u128)
    requires
        p < 128,
        q < 128,
        v <= 1,
    ensures
        ((w | (v << p)) >> q) & 1u128 == if p == q {
            ((w >> q) & 1u128) | v
        } else {
            (w >> q) & 1u128
        },
        (w >> q) & 1u128 <= 1,
        (w & (1u128 << q)) >> q == (w >> q) & 1u128,
{
    assert(((w | (v << p)) >> q) & 1u128 == if p == q {
        ((w >> q) & 1u128) | v
    } else {
        (w >> q) & 1u128
    }) by (bit_vector)
        requires
            p < 128,
            q < 128,
            v <= 1,
    ;
    assert((w >> q) & 1u128 <= 1) by (bit_vector);
    assert((w & (1u128 << q)) >> q == (w >> q) & 1u128) by (bit_vector)
        requires
            q < 128,
    ;
}

proof fn lemma_cast_or(x: u128, v: u8)
    requires
        x <= 1,
        v <= 1,
    ensures
        (x as u8) | v == (x | (v as u128)) as u8,
{
    assert((x as u8) | v == (x | (v as u128)) as u8) by (bit_vector)
        requires
            x <= 1,
            v <= 1,
    ;
}

impl Default for OreBlock8 {
    fn default() -> (r: Self)
        ensures
            r.low == 0 && r.high == 0,
    {
        OreBlock8 { low: 0, high: 0 }
    }
}

impl OreBlock8 {
    /// ORs `value` (0 or 1) into bit `position`; every other bit keeps its value.
    pub fn set_bit(&mut self, position: u8, value: u8)
        requires
            value <= 1,
        ensures
            ore_block8_bit(*final(self), position as int) == ore_block8_bit(*old(self), position as int)
                | value,
            forall|j: int|
                0 <= j < 256 && j != position ==> ore_block8_bit(*final(self), j)
                    == ore_block8_bit(*old(self), j),
    {
        let ghost o = *self;
        if position < 128 {
            let bit: u128 = (value as u128) << (position as u128);
            self.low = self.low | bit;
            proof {
                lemma_u128_bit_or(o.low, value as u128, position as u128, position as u128);
                lemma_cast_or((o.low >> (position as u128)) & 1u128, value);
                assert forall|j: int| 0 <= j < 256 && j != position implies ore_block8_bit(
                    *self,
                    j,
                ) == ore_block8_bit(o, j) by {
                    if j < 128 {
                        lemma_u128_bit_or(o.low, value as u128, position as u128, j as u128);
                    }
                }
            }
        } else {
            let p: u128 = (position - 128) as u128;
            let bit: u128 = (value as u128) << p;
            self.high = self.high | bit;
            proof {
                lemma_u128_bit_or(o.high, value as u128, p, p);
                lemma_cast_or((o.high >> p) & 1u128, value);
                assert forall|j: int| 0 <= j < 256 && j != position implies ore_block8_bit(
                    *self,
                    j,
                ) == ore_block8_bit(o, j) by {
                    if j >= 128 {
                        lemma_u128_bit_or(o.high, value as u128, p, (j - 128) as u128);
                    }
                }
            }
        }
    }

    /// Reads bit `position`.
    pub fn get_bit(&self, position: u8) -> (r: u8)
        ensures
            r == ore_block8_bit(*self, position as int),
            r <= 1,
    {
        if position < 128 {
            let p = position as u128;
            let mask: u128 = 1u128 << p;
            proof {
                lemma_u128_bit_or(self.low, 0, 0, p);
            }
            ((self.low & mask) >> p) as u8
        } else {
            let p = (position - 128) as u128;
            let mask: u128 = 1u128 << p;
            proof {
                lemma_u128_bit_or(self.high, 0, 0, p);
            }
            ((self.high & mask) >> p) as u8
        }
    }
}

} // verus!
