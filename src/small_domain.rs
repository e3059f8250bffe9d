//! Right blocks over a 5-bit alphabet, packed into a 32-bit word.
use vstd::prelude::*;

verus! {

/// The indicator word of a 5-bit block: bit `j` is set when `j >= x` for the
/// plaintext value `x`.
#[derive(Debug, Clone, Copy, PartialEq, Eq, Structural)]
pub struct RightBlock(pub u32);

impl RightBlock {
    /// The unmasked indicator of `plaintext`: all bits from `plaintext` upwards set.
    pub fn init(plaintext: u8) -> (r: Self)
        requires
            plaintext < 32,
        ensures
            r.0 == (0xFFFF_FFFFu32 << (plaintext as u32)),
            forall|j: u32| j < 32 ==> ((r.0 >> j) & 1u32 == 1) == (j >= plaintext),
    {
        let r = RightBlock(0xFFFF_FFFFu32 << (plaintext as u32));
        let p = plaintext as u32;
        assert forall|j: u32| j < 32 implies (((0xFFFF_FFFFu32 << p) >> j) & 1u32 == 1) == (j
            >= p) by {
            assert((((0xFFFF_FFFFu32 << p) >> j) & 1u32 == 1) == (j >= p)) by (bit_vector)
                requires
                    j < 32,
                    p < 32,
            ;
        }
        r
    }

    /// Bit `bit` of the word.
    pub fn get_bit(&self, bit: u8) -> (r: u8)
        requires
            bit < 32,
        ensures
            r == ((self.0 >> (bit as u32)) & 1u32) as u8,
            r <= 1,
    {
        let w = self.0;
        let b = bit as u32;
        assert((w >> b) & 1u32 <= 1) by (bit_vector);
        ((w >> b) & 1u32) as u8
    }
}

} // verus!
