//! Plaintext adapters: fixed-width unsigned integers as big-endian byte strings,
//! whose byte-by-byte order is the numeric order.
use crate::scheme::{
    encryptable, first_difference, is_right_block_of, left_of, lemma_first_difference_from,
    lemma_order_preserving, lex_cmp, ore_compare,
};
use std::cmp::Ordering;
use vstd::prelude::*;

verus! {

/// The order of two integers.
pub open spec fn int_order(x: int, y: int) -> Ordering {
    if x < y {
        Ordering::Less
    } else if x == y {
        Ordering::Equal
    } else {
        Ordering::Greater
    }
}

/// The eight big-endian bytes of `x`.
pub open spec fn be_bytes_u64(x: u64) -> Seq<u8> {
    seq![
        (x >> 56u64) as u8,
        (x >> 48u64) as u8,
        (x >> 40u64) as u8,
        (x >> 32u64) as u8,
        (x >> 24u64) as u8,
        (x >> 16u64) as u8,
        (x >> 8u64) as u8,
        x as u8,
    ]
}

/// The four big-endian bytes of `x`.
pub open spec fn be_bytes_u32(x: u32) -> Seq<u8> {
    seq![(x >> 24u32) as u8, (x >> 16u32) as u8, (x >> 8u32) as u8, x as u8]
}

/// The plaintext of `x`: its eight big-endian bytes.
pub fn u64_plaintext(x: u64) -> (r: [u8; 8])
    ensures
        r@ == be_bytes_u64(x),
{
    let r: [u8; 8] = [
        (x >> 56u64) as u8,
        (x >> 48u64) as u8,
        (x >> 40u64) as u8,
        (x >> 32u64) as u8,
        (x >> 24u64) as u8,
        (x >> 16u64) as u8,
        (x >> 8u64) as u8,
        x as u8,
    ];
    assert(r@ =~= be_bytes_u64(x));
    r
}

/// The plaintext of `x`: its four big-endian bytes.
pub fn u32_plaintext(x: u32) -> (r: [u8; 4])
    ensures
        r@ == be_bytes_u32(x),
{
    let r: [u8; 4] = [(x >> 24u32) as u8, (x >> 16u32) as u8, (x >> 8u32) as u8, x as u8];
    assert(r@ =~= be_bytes_u32(x));
    r
}

proof fn lemma_first_difference_exists(a: Seq<u8>, b: Seq<u8>)
    requires
        a.len() == b.len(),
        !(forall|k: int| 0 <= k < a.len() ==> a[k] == b[k]),
    ensures
        first_difference(a, b, choose|d: int| first_difference(a, b, d)),
{
    lemma_first_difference_from(a, b, 0);
}

/// Big-endian bytes of 64-bit integers compare as the integers do.
pub proof fn lemma_be_bytes_u64_order(x: u64, y: u64)
    ensures
        lex_cmp(be_bytes_u64(x), be_bytes_u64(y)) == int_order(x as int, y as int),
{
    let a = be_bytes_u64(x);
    let b = be_bytes_u64(y);
    if forall|k: int| 0 <= k < a.len() ==> a[k] == b[k] {
        assert(a[0] == b[0] && a[1] == b[1] && a[2] == b[2] && a[3] == b[3]);
        assert(a[4] == b[4] && a[5] == b[5] && a[6] == b[6] && a[7] == b[7]);
        assert(x == y) by (bit_vector)
            requires
                (x >> 56u64) as u8 == (y >> 56u64) as u8,
                (x >> 48u64) as u8 == (y >> 48u64) as u8,
                (x >> 40u64) as u8 == (y >> 40u64) as u8,
                (x >> 32u64) as u8 == (y >> 32u64) as u8,
                (x >> 24u64) as u8 == (y >> 24u64) as u8,
                (x >> 16u64) as u8 == (y >> 16u64) as u8,
                (x >> 8u64) as u8 == (y >> 8u64) as u8,
                x as u8 == y as u8,
        ;
    } else {
        lemma_first_difference_exists(a, b);
        let d = choose|d: int| first_difference(a, b, d);
        assert(a[d] != b[d]);
        if d == 0 {
            assert(((x >> 56u64) as u8) < ((y >> 56u64) as u8) <==> x < y) by (bit_vector)
                requires
                    (x >> 56u64) as u8 != (y >> 56u64) as u8,
            ;
        } else if d == 1 {
            assert(a[0] == b[0]);
            assert(((x >> 48u64) as u8) < ((y >> 48u64) as u8) <==> x < y) by (bit_vector)
                requires
                    (x >> 56u64) as u8 == (y >> 56u64) as u8,
                    (x >> 48u64) as u8 != (y >> 48u64) as u8,
            ;
        } else if d == 2 {
            assert(a[0] == b[0] && a[1] == b[1]);
            assert(((x >> 40u64) as u8) < ((y >> 40u64) as u8) <==> x < y) by (bit_vector)
                requires
                    (x >> 56u64) as u8 == (y >> 56u64) as u8,
                    (x >> 48u64) as u8 == (y >> 48u64) as u8,
                    (x >> 40u64) as u8 != (y >> 40u64) as u8,
            ;
        } else if d == 3 {
            assert(a[0] == b[0] && a[1] == b[1] && a[2] == b[2]);
            assert(((x >> 32u64) as u8) < ((y >> 32u64) as u8) <==> x < y) by (bit_vector)
                requires
                    (x >> 56u64) as u8 == (y >> 56u64) as u8,
                    (x >> 48u64) as u8 == (y >> 48u64) as u8,
                    (x >> 40u64) as u8 == (y >> 40u64) as u8,
                    (x >> 32u64) as u8 != (y >> 32u64) as u8,
            ;
        } else if d == 4 {
            assert(a[0] == b[0] && a[1] == b[1] && a[2] == b[2] && a[3] == b[3]);
            assert(((x >> 24u64) as u8) < ((y >> 24u64) as u8) <==> x < y) by (bit_vector)
                requires
                    (x >> 56u64) as u8 == (y >> 56u64) as u8,
                    (x >> 48u64) as u8 == (y >> 48u64) as u8,
                    (x >> 40u64) as u8 == (y >> 40u64) as u8,
                    (x >> 32u64) as u8 == (y >> 32u64) as u8,
                    (x >> 24u64) as u8 != (y >> 24u64) as u8,
            ;
        } else if d == 5 {
            assert(a[0] == b[0] && a[1] == b[1] && a[2] == b[2] && a[3] == b[3] && a[4] == b[4]);
            assert(((x >> 16u64) as u8) < ((y >> 16u64) as u8) <==> x < y) by (bit_vector)
                requires
                    (x >> 56u64) as u8 == (y >> 56u64) as u8,
                    (x >> 48u64) as u8 == (y >> 48u64) as u8,
                    (x >> 40u64) as u8 == (y >> 40u64) as u8,
                    (x >> 32u64) as u8 == (y >> 32u64) as u8,
                    (x >> 24u64) as u8 == (y >> 24u64) as u8,
                    (x >> 16u64) as u8 != (y >> 16u64) as u8,
            ;
        } else if d == 6 {
            assert(a[0] == b[0] && a[1] == b[1] && a[2] == b[2] && a[3] == b[3] && a[4] == b[4]
                && a[5] == b[5]);
            assert(((x >> 8u64) as u8) < ((y >> 8u64) as u8) <==> x < y) by (bit_vector)
                requires
                    (x >> 56u64) as u8 == (y >> 56u64) as u8,
                    (x >> 48u64) as u8 == (y >> 48u64) as u8,
                    (x >> 40u64) as u8 == (y >> 40u64) as u8,
                    (x >> 32u64) as u8 == (y >> 32u64) as u8,
                    (x >> 24u64) as u8 == (y >> 24u64) as u8,
                    (x >> 16u64) as u8 == (y >> 16u64) as u8,
                    (x >> 8u64) as u8 != (y >> 8u64) as u8,
            ;
        } else {
            assert(a[0] == b[0] && a[1] == b[1] && a[2] == b[2] && a[3] == b[3] && a[4] == b[4]
                && a[5] == b[5] && a[6] == b[6]);
            assert(((x as u8) < (y as u8)) <==> x < y) by (bit_vector)
                requires
                    (x >> 56u64) as u8 == (y >> 56u64) as u8,
                    (x >> 48u64) as u8 == (y >> 48u64) as u8,
                    (x >> 40u64) as u8 == (y >> 40u64) as u8,
                    (x >> 32u64) as u8 == (y >> 32u64) as u8,
                    (x >> 24u64) as u8 == (y >> 24u64) as u8,
                    (x >> 16u64) as u8 == (y >> 16u64) as u8,
                    (x >> 8u64) as u8 == (y >> 8u64) as u8,
                    x as u8 != y as u8,
            ;
        }
    }
}

/// Big-endian bytes of 32-bit integers compare as the integers do.
pub proof fn lemma_be_bytes_u32_order(x: u32, y: u32)
    ensures
        lex_cmp(be_bytes_u32(x), be_bytes_u32(y)) == int_order(x as int, y as int),
{
    let a = be_bytes_u32(x);
    let b = be_bytes_u32(y);
    if forall|k: int| 0 <= k < a.len() ==> a[k] == b[k] {
        assert(a[0] == b[0] && a[1] == b[1] && a[2] == b[2] && a[3] == b[3]);
        assert(x == y) by (bit_vector)
            requires
                (x >> 24u32) as u8 == (y >> 24u32) as u8,
                (x >> 16u32) as u8 == (y >> 16u32) as u8,
                (x >> 8u32) as u8 == (y >> 8u32) as u8,
                x as u8 == y as u8,
        ;
    } else {
        lemma_first_difference_exists(a, b);
        let d = choose|d: int| first_difference(a, b, d);
        assert(a[d] != b[d]);
        if d == 0 {
            assert(((x >> 24u32) as u8) < ((y >> 24u32) as u8) <==> x < y) by (bit_vector)
                requires
                    (x >> 24u32) as u8 != (y >> 24u32) as u8,
            ;
        } else if d == 1 {
            assert(a[0] == b[0]);
            assert(((x >> 16u32) as u8) < ((y >> 16u32) as u8) <==> x < y) by (bit_vector)
                requires
                    (x >> 24u32) as u8 == (y >> 24u32) as u8,
                    (x >> 16u32) as u8 != (y >> 16u32) as u8,
            ;
        } else if d == 2 {
            assert(a[0] == b[0] && a[1] == b[1]);
            assert(((x >> 8u32) as u8) < ((y >> 8u32) as u8) <==> x < y) by (bit_vector)
                requires
                    (x >> 24u32) as u8 == (y >> 24u32) as u8,
                    (x >> 16u32) as u8 == (y >> 16u32) as u8,
                    (x >> 8u32) as u8 != (y >> 8u32) as u8,
            ;
        } else {
            assert(a[0] == b[0] && a[1] == b[1] && a[2] == b[2]);
            assert(((x as u8) < (y as u8)) <==> x < y) by (bit_vector)
                requires
                    (x >> 24u32) as u8 == (y >> 24u32) as u8,
                    (x >> 16u32) as u8 == (y >> 16u32) as u8,
                    (x >> 8u32) as u8 == (y >> 8u32) as u8,
                    x as u8 != y as u8,
            ;
        }
    }
}

/// Order preservation for 64-bit integers: the left ciphertext of `x` compared
/// with a combined ciphertext of `y` under the same keys, whatever its nonce,
/// gives the numeric order of `x` and `y`.
pub proof fn lemma_order_preserving_u64(
    k1: Seq<u8>,
    k2: Seq<u8>,
    x: u64,
    y: u64,
    nonce: Seq<u8>,
    right: Seq<Seq<u8>>,
)
    requires
        encryptable(k2, be_bytes_u64(x)),
        encryptable(k2, be_bytes_u64(y)),
        right.len() == 8,
        forall|n: int|
            0 <= n < 8 ==> is_right_block_of(k1, k2, be_bytes_u64(y), nonce, n, #[trigger] right[n]),
    ensures
        ore_compare(left_of(k1, k2, be_bytes_u64(x)), nonce, left_of(k1, k2, be_bytes_u64(y)), right)
            == int_order(x as int, y as int),
{
    lemma_order_preserving(k1, k2, be_bytes_u64(x), be_bytes_u64(y), nonce, right);
    lemma_be_bytes_u64_order(x, y);
}

/// Order preservation for 32-bit integers, as for 64-bit ones.
pub proof fn lemma_order_preserving_u32(
    k1: Seq<u8>,
    k2: Seq<u8>,
    x: u32,
    y: u32,
    nonce: Seq<u8>,
    right: Seq<Seq<u8>>,
)
    requires
        encryptable(k2, be_bytes_u32(x)),
        encryptable(k2, be_bytes_u32(y)),
        right.len() == 4,
        forall|n: int|
            0 <= n < 4 ==> is_right_block_of(k1, k2, be_bytes_u32(y), nonce, n, #[trigger] right[n]),
    ensures
        ore_compare(left_of(k1, k2, be_bytes_u32(x)), nonce, left_of(k1, k2, be_bytes_u32(y)), right)
            == int_order(x as int, y as int),
{
    lemma_order_preserving(k1, k2, be_bytes_u32(x), be_bytes_u32(y), nonce, right);
    lemma_be_bytes_u32_order(x, y);
}

} // verus!
