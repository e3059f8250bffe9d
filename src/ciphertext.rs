//! Ciphertext types and their wire format:
//!
//! ```text
//! LeftCT     := Header  (F:[u8;16] X:u8) x num_blocks
//! RightCT    := Header  Nonce:[u8;16]  RightBlock:[u8;32] x num_blocks
//! CombinedCT := Header  Nonce:[u8;16]  (F X RightBlock) x num_blocks
//! ```
use crate::block_types::{RightBlock32, LEFT_BLOCK_SIZE, LEFT_F_SIZE, RIGHT_BLOCK_SIZE};
use crate::header::{
    header_bytes, lemma_header_round_trip, parse_header, CtType, Header, FORMAT_VERSION,
    HEADER_LEN, SCHEME_ID,
};
use crate::primitives::NONCE_SIZE;
use vstd::arithmetic::div_mod::lemma_fundamental_div_mod_converse;
use vstd::prelude::*;

verus! {

/// A byte string is not a well-formed ciphertext of the expected kind.
#[derive(Debug, Clone, Copy, PartialEq, Eq)]
pub struct ParseError;

/// Size in bytes of one block of a combined ciphertext: a left block, then a right block.
pub const COMBINED_BLOCK_SIZE: usize = 49;

/// Largest number of blocks the header can declare.
pub const MAX_BLOCKS: usize = 0xFFFF;

/// `k` lies in the `i`-th run of `size` elements.
pub proof fn lemma_block_offset(k: int, i: int, size: int)
    requires
        size > 0,
        0 <= i,
        size * i <= k < size * i + size,
    ensures
        k / size == i,
        k % size == k - size * i,
{
    vstd::arithmetic::mul::lemma_mul_is_commutative(size, i);
    lemma_fundamental_div_mod_converse(k, size, i, k - size * i);
}

/// A left block: the 16-byte PRF output `f` and the permuted plaintext byte `x`.
#[derive(Clone, Copy, Debug)]
pub struct LeftBlock {
    pub f: [u8; 16],
    pub x: u8,
}

impl View for LeftBlock {
    type V = (Seq<u8>, u8);

    open spec fn view(&self) -> (Seq<u8>, u8) {
        (self.f@, self.x)
    }
}

/// One block of a combined ciphertext.
#[derive(Clone, Copy, Debug)]
pub struct CombinedBlock {
    pub left: LeftBlock,
    pub right: RightBlock32,
}

/// Byte `m` of a serialized left block.
pub open spec fn left_block_byte(b: (Seq<u8>, u8), m: int) -> u8 {
    if m < 16 {
        b.0[m]
    } else {
        b.1
    }
}

/// The left blocks one after the other, 17 bytes each.
pub open spec fn left_body(ls: Seq<(Seq<u8>, u8)>) -> Seq<u8> {
    Seq::new((17 * ls.len()) as nat, |k: int| left_block_byte(ls[k / 17], k % 17))
}

/// The right blocks one after the other, 32 bytes each.
pub open spec fn right_body(rs: Seq<Seq<u8>>) -> Seq<u8> {
    Seq::new((32 * rs.len()) as nat, |k: int| rs[k / 32][k % 32])
}

/// Each left block followed by the right block of the same index, 49 bytes a pair.
pub open spec fn combined_body(ls: Seq<(Seq<u8>, u8)>, rs: Seq<Seq<u8>>) -> Seq<u8> {
    Seq::new(
        (49 * ls.len()) as nat,
        |k: int|
            if k % 49 < 17 {
                left_block_byte(ls[k / 49], k % 49)
            } else {
                rs[k / 49][k % 49 - 17]
            },
    )
}

/// The header this library writes for `n` blocks of kind `t`.
pub open spec fn current_header(t: CtType, n: nat) -> Header {
    Header { version: FORMAT_VERSION, scheme: SCHEME_ID, ct_type: t, num_blocks: n as u16 }
}

/// A header this library reads as kind `t`.
pub open spec fn readable_header(h: Header, t: CtType) -> bool {
    h.version == FORMAT_VERSION && h.scheme == SCHEME_ID && h.ct_type == t
}

pub open spec fn left_ct_bytes(ls: Seq<(Seq<u8>, u8)>) -> Seq<u8> {
    header_bytes(current_header(CtType::Left, ls.len())) + left_body(ls)
}

pub open spec fn right_ct_bytes(nonce: Seq<u8>, rs: Seq<Seq<u8>>) -> Seq<u8> {
    header_bytes(current_header(CtType::Right, rs.len())) + nonce + right_body(rs)
}

pub open spec fn combined_ct_bytes(
    nonce: Seq<u8>,
    ls: Seq<(Seq<u8>, u8)>,
    rs: Seq<Seq<u8>>,
) -> Seq<u8> {
    header_bytes(current_header(CtType::Combined, ls.len())) + nonce + combined_body(ls, rs)
}

/// The left blocks that `b` serializes, if it is a left ciphertext of the
/// length its header declares.
pub open spec fn parse_left(b: Seq<u8>) -> Option<Seq<(Seq<u8>, u8)>> {
    match parse_header(b) {
        Some(h) => if readable_header(h, CtType::Left) && b.len() == 6 + 17 * h.num_blocks {
            Some(
                Seq::new(
                    h.num_blocks as nat,
                    |i: int| (b.subrange(6 + 17 * i, 6 + 17 * i + 16), b[6 + 17 * i + 16]),
                ),
            )
        } else {
            None
        },
        None => None,
    }
}

/// The nonce and right blocks that `b` serializes, if it is a right ciphertext
/// of the length its header declares.
pub open spec fn parse_right(b: Seq<u8>) -> Option<(Seq<u8>, Seq<Seq<u8>>)> {
    match parse_header(b) {
        Some(h) => if readable_header(h, CtType::Right) && b.len() == 22 + 32 * h.num_blocks {
            Some(
                (
                    b.subrange(6, 22),
                    Seq::new(
                        h.num_blocks as nat,
                        |i: int| b.subrange(22 + 32 * i, 22 + 32 * i + 32),
                    ),
                ),
            )
        } else {
            None
        },
        None => None,
    }
}

/// The nonce, left blocks and right blocks that `b` serializes, if it is a
/// combined ciphertext of the length its header declares.
pub open spec fn parse_combined(b: Seq<u8>) -> Option<(Seq<u8>, Seq<(Seq<u8>, u8)>, Seq<Seq<u8>>)> {
    match parse_header(b) {
        Some(h) => if readable_header(h, CtType::Combined) && b.len() == 22 + 49 * h.num_blocks {
            Some(
                (
                    b.subrange(6, 22),
                    Seq::new(
                        h.num_blocks as nat,
                        |i: int| (b.subrange(22 + 49 * i, 22 + 49 * i + 16), b[22 + 49 * i + 16]),
                    ),
                    Seq::new(
                        h.num_blocks as nat,
                        |i: int| b.subrange(22 + 49 * i + 17, 22 + 49 * i + 49),
                    ),
                ),
            )
        } else {
            None
        },
        None => None,
    }
}

/// A serialized ciphertext under construction: the header, then the body.
pub struct DataWithHeader {
    data: Vec<u8>,
}

impl View for DataWithHeader {
    type V = Seq<u8>;

    closed spec fn view(&self) -> Seq<u8> {
        self.data@
    }
}

impl DataWithHeader {
    /// The bytes of `header`, with room reserved for `body_len` more.
    pub fn new(header: Header, body_len: usize) -> (r: Self)
        ensures
            r@ == header_bytes(header),
    {
        let mut data = header.to_vec();
        data.reserve(body_len);
        DataWithHeader { data }
    }

    /// The header at the start of the data.
    pub fn header(&self) -> (r: Result<Header, ParseError>)
        ensures
            match r {
                Ok(h) => parse_header(self@) == Some(h),
                Err(_) => parse_header(self@) is None,
            },
    {
        Header::from_slice(self.data.as_slice())
    }

    /// Replaces the header, keeping the body.
    pub fn set_header(&mut self, hdr: &Header)
        requires
            old(self)@.len() >= HEADER_LEN,
        ensures
            final(self)@ == header_bytes(*hdr) + old(self)@.subrange(6, old(self)@.len() as int),
    {
        let bytes = hdr.to_vec();
        let mut k: usize = 0;
        while k < HEADER_LEN
            invariant
                k <= HEADER_LEN,
                old(self)@.len() >= HEADER_LEN,
                bytes@ == header_bytes(*hdr),
                self.data@.len() == old(self)@.len(),
                forall|m: int| 0 <= m < k ==> self.data@[m] == bytes@[m],
                forall|m: int| k <= m < self.data@.len() ==> self.data@[m] == old(self)@[m],
            decreases HEADER_LEN - k,
        {
            self.data.set(k, bytes[k]);
            k = k + 1;
        }
        assert(self@ =~= header_bytes(*hdr) + old(self)@.subrange(6, old(self)@.len() as int));
    }

    /// Everything after the header.
    pub fn body(&self) -> (r: &[u8])
        requires
            self@.len() >= HEADER_LEN,
        ensures
            r@ == self@.subrange(6, self@.len() as int),
    {
        vstd::slice::slice_subrange(self.data.as_slice(), HEADER_LEN, self.data.len())
    }

    /// Appends one byte.
    pub fn push(&mut self, byte: u8)
        ensures
            final(self)@ == old(self)@.push(byte),
    {
        self.data.push(byte);
    }

    /// Appends the bytes of `slice`.
    pub fn extend_from_slice(&mut self, slice: &[u8])
        ensures
            final(self)@ == old(self)@ + slice@,
    {
        let mut k: usize = 0;
        while k < slice.len()
            invariant
                k <= slice@.len(),
                self@ == old(self)@ + slice@.subrange(0, k as int),
            decreases slice@.len() - k,
        {
            self.data.push(slice[k]);
            k = k + 1;
            assert(self@ =~= old(self)@ + slice@.subrange(0, k as int));
        }
        assert(slice@.subrange(0, slice@.len() as int) =~= slice@);
    }

    /// The bytes.
    pub fn into_vec(self) -> (r: Vec<u8>)
        ensures
            r@ == self@,
    {
        self.data
    }
}

/// A block of a ciphertext, serialized as a fixed number of bytes.
pub trait CipherTextBlock: Sized {
    /// The serialized bytes of the block.
    spec fn block_bytes(&self) -> Seq<u8>;

    /// Number of bytes in a serialized block of this type.
    spec fn size_spec() -> nat;

    /// Number of bytes in a serialized block of this type.
    fn byte_size() -> (r: usize)
        ensures
            r == Self::size_spec(),
    ;

    /// Appends the block's bytes to `out`.
    fn extend_into(&self, out: &mut DataWithHeader)
        ensures
            final(out)@ == old(out)@ + self.block_bytes(),
            self.block_bytes().len() == Self::size_spec(),
    ;
}

impl CipherTextBlock for LeftBlock {
    open spec fn block_bytes(&self) -> Seq<u8> {
        self.f@.push(self.x)
    }

    open spec fn size_spec() -> nat {
        17
    }

    fn byte_size() -> (r: usize) {
        LEFT_BLOCK_SIZE
    }

    fn extend_into(&self, out: &mut DataWithHeader) {
        out.extend_from_slice(self.f.as_slice());
        out.push(self.x);
        assert(out@ =~= old(out)@ + self.block_bytes());
    }
}

impl CipherTextBlock for RightBlock32 {
    open spec fn block_bytes(&self) -> Seq<u8> {
        self.data@
    }

    open spec fn size_spec() -> nat {
        32
    }

    fn byte_size() -> (r: usize) {
        RIGHT_BLOCK_SIZE
    }

    fn extend_into(&self, out: &mut DataWithHeader) {
        out.extend_from_slice(self.data.as_slice());
    }
}

impl CipherTextBlock for CombinedBlock {
    open spec fn block_bytes(&self) -> Seq<u8> {
        self.left.block_bytes() + self.right.block_bytes()
    }

    open spec fn size_spec() -> nat {
        49
    }

    fn byte_size() -> (r: usize) {
        COMBINED_BLOCK_SIZE
    }

    fn extend_into(&self, out: &mut DataWithHeader) {
        self.left.extend_into(out);
        self.right.extend_into(out);
        assert(out@ =~= old(out)@ + self.block_bytes());
    }
}

/// The 16 bytes of `b` from `start`.
pub(crate) fn array16_at(b: &[u8], start: usize) -> (r: [u8; 16])
    requires
        start + 16 <= b@.len(),
    ensures
        r@ == b@.subrange(start as int, start + 16),
{
    let mut r = [0u8; 16];
    let len = b.len();
    let mut k: usize = 0;
    while k < 16
        invariant
            k <= 16,
            len == b@.len(),
            start + 16 <= b@.len(),
            forall|m: int| 0 <= m < k ==> r@[m] == b@[start + m],
        decreases 16 - k,
    {
        r[k] = b[start + k];
        k = k + 1;
    }
    assert(r@ =~= b@.subrange(start as int, start + 16));
    r
}

/// The 32 bytes of `b` from `start`.
pub(crate) fn array32_at(b: &[u8], start: usize) -> (r: [u8; 32])
    requires
        start + 32 <= b@.len(),
    ensures
        r@ == b@.subrange(start as int, start + 32),
{
    let mut r = [0u8; 32];
    let len = b.len();
    let mut k: usize = 0;
    while k < 32
        invariant
            k <= 32,
            len == b@.len(),
            start + 32 <= b@.len(),
            forall|m: int| 0 <= m < k ==> r@[m] == b@[start + m],
        decreases 32 - k,
    {
        r[k] = b[start + k];
        k = k + 1;
    }
    assert(r@ =~= b@.subrange(start as int, start + 32));
    r
}

/// A left ciphertext: the part of an encryption used at query time.
pub struct LeftCiphertext {
    pub blocks: Vec<LeftBlock>,
}

impl View for LeftCiphertext {
    type V = Seq<(Seq<u8>, u8)>;

    open spec fn view(&self) -> Seq<(Seq<u8>, u8)> {
        self.blocks@.map_values(|b: LeftBlock| b@)
    }
}

impl LeftCiphertext {
    /// An empty ciphertext with room for `num_blocks` blocks.
    pub fn new(num_blocks: usize) -> (r: Self)
        ensures
            r@ == Seq::<(Seq<u8>, u8)>::empty(),
    {
        let r = LeftCiphertext { blocks: Vec::with_capacity(num_blocks) };
        assert(r@ =~= Seq::<(Seq<u8>, u8)>::empty());
        r
    }

    /// Appends a block.
    pub fn add_block(&mut self, block: LeftBlock)
        ensures
            final(self)@ == old(self)@.push(block@),
    {
        self.blocks.push(block);
        assert(self@ =~= old(self)@.push(block@));
    }

    /// Number of blocks.
    pub fn num_blocks(&self) -> (r: usize)
        ensures
            r == self@.len(),
    {
        self.blocks.len()
    }

    /// The serialized ciphertext: header, then each block's F and X.
    pub fn to_bytes(&self) -> (r: Vec<u8>)
        requires
            self@.len() <= MAX_BLOCKS,
        ensures
            r@ == left_ct_bytes(self@),
    {
        let n = self.blocks.len();
        let ghost ls = self@;
        let mut out = DataWithHeader::new(Header::new(CtType::Left, n), n * LEFT_BLOCK_SIZE);
        let mut i: usize = 0;
        while i < n
            invariant
                i <= n,
                n == self.blocks@.len(),
                n <= MAX_BLOCKS,
                ls == self@,
                out@ == header_bytes(current_header(CtType::Left, n as nat)) + left_body(
                    ls.subrange(0, i as int),
                ),
            decreases n - i,
        {
            let b = self.blocks[i];
            let ghost before = out@;
            b.extend_into(&mut out);
            proof {
                let h = header_bytes(current_header(CtType::Left, n as nat));
                let prev = ls.subrange(0, i as int);
                let next = ls.subrange(0, i + 1);
                assert(ls[i as int] == b@);
                assert forall|k: int| 0 <= k < 17 * (i + 1) implies #[trigger] left_body(next)[k]
                    == out@[6 + k] by {
                    if k < 17 * i {
                        lemma_block_offset(k, k / 17, 17);
                        assert(left_body(prev)[k] == before[6 + k]);
                    } else {
                        lemma_block_offset(k, i as int, 17);
                    }
                }
                assert(out@ =~= h + left_body(next));
            }
            i = i + 1;
        }
        assert(ls.subrange(0, n as int) =~= ls);
        out.into_vec()
    }

    /// Reads a left ciphertext: fails unless the header is of this version and
    /// scheme, declares a left ciphertext, and the length matches its block count.
    pub fn from_slice(data: &[u8]) -> (r: Result<LeftCiphertext, ParseError>)
        ensures
            match r {
                Ok(c) => parse_left(data@) == Some(c@),
                Err(_) => parse_left(data@) is None,
            },
    {
        let h = match Header::from_slice(data) {
            Ok(h) => h,
            Err(e) => {
                return Err(e);
            },
        };
        if h.version != FORMAT_VERSION || h.scheme != SCHEME_ID || h.ct_type != CtType::Left {
            return Err(ParseError);
        }
        let n = h.num_blocks as usize;
        if data.len() != HEADER_LEN + n * LEFT_BLOCK_SIZE {
            return Err(ParseError);
        }
        let mut out = LeftCiphertext::new(n);
        let mut i: usize = 0;
        while i < n
            invariant
                i <= n,
                n <= MAX_BLOCKS,
                data@.len() == 6 + 17 * n,
                out@.len() == i,
                forall|k: int|
                    0 <= k < i ==> #[trigger] out@[k] == (
                        data@.subrange(6 + 17 * k, 6 + 17 * k + 16),
                        data@[6 + 17 * k + 16],
                    ),
            decreases n - i,
        {
            let start = HEADER_LEN + i * LEFT_BLOCK_SIZE;
            let f = array16_at(data, start);
            let x = data[start + LEFT_F_SIZE];
            out.add_block(LeftBlock { f, x });
            i = i + 1;
        }
        assert(out@ =~= parse_left(data@).unwrap());
        Ok(out)
    }
}

/// Reading back a serialized left ciphertext gives its blocks.
pub proof fn lemma_left_round_trip(ls: Seq<(Seq<u8>, u8)>)
    requires
        ls.len() <= MAX_BLOCKS,
        forall|i: int| 0 <= i < ls.len() ==> (#[trigger] ls[i]).0.len() == 16,
    ensures
        parse_left(left_ct_bytes(ls)) == Some(ls),
{
    let h = current_header(CtType::Left, ls.len());
    let b = left_ct_bytes(ls);
    lemma_header_round_trip(h, left_body(ls));
    let p = parse_left(b).unwrap();
    assert forall|i: int| 0 <= i < ls.len() implies #[trigger] p[i] == ls[i] by {
        assert forall|m: int| 0 <= m < 16 implies b.subrange(6 + 17 * i, 6 + 17 * i + 16)[m]
            == ls[i].0[m] by {
            lemma_block_offset(17 * i + m, i, 17);
        }
        assert(b.subrange(6 + 17 * i, 6 + 17 * i + 16) =~= ls[i].0);
        lemma_block_offset(17 * i + 16, i, 17);
    }
    assert(p =~= ls);
}

/// A right ciphertext: the part of an encryption kept at rest.
pub struct RightCiphertext {
    pub nonce: [u8; 16],
    pub blocks: Vec<RightBlock32>,
}

impl View for RightCiphertext {
    type V = (Seq<u8>, Seq<Seq<u8>>);

    open spec fn view(&self) -> (Seq<u8>, Seq<Seq<u8>>) {
        (self.nonce@, self.blocks@.map_values(|b: RightBlock32| b@))
    }
}

impl RightCiphertext {
    /// An empty ciphertext under `nonce` with room for `num_blocks` blocks.
    pub fn new(num_blocks: usize, nonce: &[u8; 16]) -> (r: Self)
        ensures
            r@ == (nonce@, Seq::<Seq<u8>>::empty()),
    {
        let r = RightCiphertext { nonce: *nonce, blocks: Vec::with_capacity(num_blocks) };
        assert(r@.1 =~= Seq::<Seq<u8>>::empty());
        r
    }

    /// Appends a block.
    pub fn add_block(&mut self, block: RightBlock32)
        ensures
            final(self)@ == (old(self)@.0, old(self)@.1.push(block@)),
    {
        self.blocks.push(block);
        assert(self@.1 =~= old(self)@.1.push(block@));
    }

    /// The serialized ciphertext: header, nonce, then each block.
    pub fn to_bytes(&self) -> (r: Vec<u8>)
        requires
            self@.1.len() <= MAX_BLOCKS,
        ensures
            r@ == right_ct_bytes(self@.0, self@.1),
    {
        let n = self.blocks.len();
        let ghost rs = self@.1;
        let mut out = DataWithHeader::new(
            Header::new(CtType::Right, n),
            NONCE_SIZE + n * RIGHT_BLOCK_SIZE,
        );
        out.extend_from_slice(self.nonce.as_slice());
        let ghost start = out@;
        let mut i: usize = 0;
        while i < n
            invariant
                i <= n,
                n == self.blocks@.len(),
                n <= MAX_BLOCKS,
                rs == self@.1,
                start == header_bytes(current_header(CtType::Right, n as nat)) + self.nonce@,
                out@ == start + right_body(rs.subrange(0, i as int)),
            decreases n - i,
        {
            let b = self.blocks[i];
            let ghost before = out@;
            b.extend_into(&mut out);
            proof {
                let prev = rs.subrange(0, i as int);
                let next = rs.subrange(0, i + 1);
                assert(rs[i as int] == b@);
                assert forall|k: int| 0 <= k < 32 * (i + 1) implies #[trigger] right_body(next)[k]
                    == out@[22 + k] by {
                    if k < 32 * i {
                        lemma_block_offset(k, k / 32, 32);
                        assert(right_body(prev)[k] == before[22 + k]);
                    } else {
                        lemma_block_offset(k, i as int, 32);
                    }
                }
                assert(out@ =~= start + right_body(next));
            }
            i = i + 1;
        }
        assert(rs.subrange(0, n as int) =~= rs);
        out.into_vec()
    }

    /// Reads a right ciphertext: fails unless the header is of this version and
    /// scheme, declares a right ciphertext, and the length matches its block count.
    pub fn from_slice(data: &[u8]) -> (r: Result<RightCiphertext, ParseError>)
        ensures
            match r {
                Ok(c) => parse_right(data@) == Some(c@),
                Err(_) => parse_right(data@) is None,
            },
    {
        let h = match Header::from_slice(data) {
            Ok(h) => h,
            Err(e) => {
                return Err(e);
            },
        };
        if h.version != FORMAT_VERSION || h.scheme != SCHEME_ID || h.ct_type != CtType::Right {
            return Err(ParseError);
        }
        let n = h.num_blocks as usize;
        if data.len() != HEADER_LEN + NONCE_SIZE + n * RIGHT_BLOCK_SIZE {
            return Err(ParseError);
        }
        let nonce = array16_at(data, HEADER_LEN);
        let mut out = RightCiphertext::new(n, &nonce);
        let mut i: usize = 0;
        while i < n
            invariant
                i <= n,
                n <= MAX_BLOCKS,
                data@.len() == 22 + 32 * n,
                out@.0 == data@.subrange(6, 22),
                out@.1.len() == i,
                forall|k: int|
                    0 <= k < i ==> #[trigger] out@.1[k] == data@.subrange(
                        22 + 32 * k,
                        22 + 32 * k + 32,
                    ),
            decreases n - i,
        {
            let start = HEADER_LEN + NONCE_SIZE + i * RIGHT_BLOCK_SIZE;
            let bytes = array32_at(data, start);
            out.add_block(RightBlock32::from_bytes(bytes));
            i = i + 1;
        }
        assert(out@.1 =~= parse_right(data@).unwrap().1);
        Ok(out)
    }
}

/// Reading back a serialized right ciphertext gives its nonce and blocks.
pub proof fn lemma_right_round_trip(nonce: Seq<u8>, rs: Seq<Seq<u8>>)
    requires
        nonce.len() == 16,
        rs.len() <= MAX_BLOCKS,
        forall|i: int| 0 <= i < rs.len() ==> (#[trigger] rs[i]).len() == 32,
    ensures
        parse_right(right_ct_bytes(nonce, rs)) == Some((nonce, rs)),
{
    let h = current_header(CtType::Right, rs.len());
    let b = right_ct_bytes(nonce, rs);
    assert(b =~= header_bytes(h) + (nonce + right_body(rs)));
    lemma_header_round_trip(h, nonce + right_body(rs));
    let p = parse_right(b).unwrap();
    assert(p.0 =~= nonce);
    assert forall|i: int| 0 <= i < rs.len() implies #[trigger] p.1[i] == rs[i] by {
        assert forall|m: int| 0 <= m < 32 implies b.subrange(22 + 32 * i, 22 + 32 * i + 32)[m]
            == rs[i][m] by {
            lemma_block_offset(32 * i + m, i, 32);
        }
        assert(b.subrange(22 + 32 * i, 22 + 32 * i + 32) =~= rs[i]);
    }
    assert(p.1 =~= rs);
}

/// A combined ciphertext: a nonce and, for every block, a left block and a right block.
pub struct CombinedCiphertext {
    pub nonce: [u8; 16],
    pub blocks: Vec<CombinedBlock>,
}

impl View for CombinedCiphertext {
    type V = (Seq<u8>, Seq<(Seq<u8>, u8)>, Seq<Seq<u8>>);

    open spec fn view(&self) -> (Seq<u8>, Seq<(Seq<u8>, u8)>, Seq<Seq<u8>>) {
        (
            self.nonce@,
            self.blocks@.map_values(|b: CombinedBlock| b.left@),
            self.blocks@.map_values(|b: CombinedBlock| b.right@),
        )
    }
}

impl CombinedCiphertext {
    /// An empty ciphertext under `nonce` with room for `num_blocks` blocks.
    pub fn new(num_blocks: usize, nonce: &[u8; 16]) -> (r: Self)
        ensures
            r@ == (nonce@, Seq::<(Seq<u8>, u8)>::empty(), Seq::<Seq<u8>>::empty()),
    {
        let r = CombinedCiphertext { nonce: *nonce, blocks: Vec::with_capacity(num_blocks) };
        assert(r@.1 =~= Seq::<(Seq<u8>, u8)>::empty());
        assert(r@.2 =~= Seq::<Seq<u8>>::empty());
        r
    }

    /// Appends a left block and the right block of the same index.
    pub fn add_block(&mut self, left: LeftBlock, right: RightBlock32)
        ensures
            final(self)@ == (old(self)@.0, old(self)@.1.push(left@), old(self)@.2.push(right@)),
    {
        self.blocks.push(CombinedBlock { left, right });
        assert(self@.1 =~= old(self)@.1.push(left@));
        assert(self@.2 =~= old(self)@.2.push(right@));
    }

    /// The nonce that keys the random oracle of the right blocks.
    pub fn nonce(&self) -> (r: &[u8; 16])
        ensures
            r@ == self@.0,
    {
        &self.nonce
    }

    /// Number of blocks.
    pub fn num_blocks(&self) -> (r: usize)
        ensures
            r == self@.1.len(),
    {
        self.blocks.len()
    }

    /// The left half, for use as a query.
    pub fn left(&self) -> (r: LeftCiphertext)
        ensures
            r@ == self@.1,
    {
        let n = self.blocks.len();
        let mut out = LeftCiphertext::new(n);
        let mut i: usize = 0;
        while i < n
            invariant
                i <= n,
                n == self.blocks@.len(),
                out@ == self@.1.subrange(0, i as int),
            decreases n - i,
        {
            out.add_block(self.blocks[i].left);
            i = i + 1;
            assert(out@ =~= self@.1.subrange(0, i as int));
        }
        assert(self@.1.subrange(0, n as int) =~= self@.1);
        out
    }

    /// The serialized ciphertext: header, nonce, then each left block followed
    /// by the right block of the same index.
    pub fn to_bytes(&self) -> (r: Vec<u8>)
        requires
            self@.1.len() <= MAX_BLOCKS,
        ensures
            r@ == combined_ct_bytes(self@.0, self@.1, self@.2),
    {
        let n = self.blocks.len();
        let ghost ls = self@.1;
        let ghost rs = self@.2;
        let mut out = DataWithHeader::new(
            Header::new(CtType::Combined, n),
            NONCE_SIZE + n * COMBINED_BLOCK_SIZE,
        );
        out.extend_from_slice(self.nonce.as_slice());
        let ghost start = out@;
        let mut i: usize = 0;
        while i < n
            invariant
                i <= n,
                n == self.blocks@.len(),
                n <= MAX_BLOCKS,
                ls == self@.1,
                rs == self@.2,
                start == header_bytes(current_header(CtType::Combined, n as nat)) + self.nonce@,
                out@ == start + combined_body(ls.subrange(0, i as int), rs.subrange(0, i as int)),
            decreases n - i,
        {
            let b = self.blocks[i];
            let ghost before = out@;
            b.extend_into(&mut out);
            proof {
                let pl = ls.subrange(0, i as int);
                let pr = rs.subrange(0, i as int);
                let nl = ls.subrange(0, i + 1);
                let nr = rs.subrange(0, i + 1);
                assert(ls[i as int] == b.left@);
                assert(rs[i as int] == b.right@);
                assert forall|k: int| 0 <= k < 49 * (i + 1) implies #[trigger] combined_body(
                    nl,
                    nr,
                )[k] == out@[22 + k] by {
                    if k < 49 * i {
                        lemma_block_offset(k, k / 49, 49);
                        assert(combined_body(pl, pr)[k] == before[22 + k]);
                    } else {
                        lemma_block_offset(k, i as int, 49);
                    }
                }
                assert(out@ =~= start + combined_body(nl, nr));
            }
            i = i + 1;
        }
        assert(ls.subrange(0, n as int) =~= ls);
        assert(rs.subrange(0, n as int) =~= rs);
        out.into_vec()
    }

    /// Reads a combined ciphertext: fails unless the header is of this version
    /// and scheme, declares a combined ciphertext, and the length matches its
    /// block count.
    pub fn from_slice(data: &[u8]) -> (r: Result<CombinedCiphertext, ParseError>)
        ensures
            match r {
                Ok(c) => parse_combined(data@) == Some(c@),
                Err(_) => parse_combined(data@) is None,
            },
    {
        let h = match Header::from_slice(data) {
            Ok(h) => h,
            Err(e) => {
                return Err(e);
            },
        };
        if h.version != FORMAT_VERSION || h.scheme != SCHEME_ID || h.ct_type != CtType::Combined {
            return Err(ParseError);
        }
        let n = h.num_blocks as usize;
        if data.len() != HEADER_LEN + NONCE_SIZE + n * COMBINED_BLOCK_SIZE {
            return Err(ParseError);
        }
        let nonce = array16_at(data, HEADER_LEN);
        let mut out = CombinedCiphertext::new(n, &nonce);
        let mut i: usize = 0;
        while i < n
            invariant
                i <= n,
                n <= MAX_BLOCKS,
                data@.len() == 22 + 49 * n,
                out@.0 == data@.subrange(6, 22),
                out@.1.len() == i,
                out@.2.len() == i,
                forall|k: int|
                    0 <= k < i ==> #[trigger] out@.1[k] == (
                        data@.subrange(22 + 49 * k, 22 + 49 * k + 16),
                        data@[22 + 49 * k + 16],
                    ),
                forall|k: int|
                    0 <= k < i ==> #[trigger] out@.2[k] == data@.subrange(
                        22 + 49 * k + 17,
                        22 + 49 * k + 49,
                    ),
            decreases n - i,
        {
            let start = HEADER_LEN + NONCE_SIZE + i * COMBINED_BLOCK_SIZE;
            let f = array16_at(data, start);
            let x = data[start + LEFT_F_SIZE];
            let bytes = array32_at(data, start + LEFT_BLOCK_SIZE);
            out.add_block(LeftBlock { f, x }, RightBlock32::from_bytes(bytes));
            i = i + 1;
        }
        assert(out@.1 =~= parse_combined(data@).unwrap().1);
        assert(out@.2 =~= parse_combined(data@).unwrap().2);
        Ok(out)
    }
}

/// Reading back a serialized combined ciphertext gives its nonce and blocks.
pub proof fn lemma_combined_round_trip(nonce: Seq<u8>, ls: Seq<(Seq<u8>, u8)>, rs: Seq<Seq<u8>>)
    requires
        nonce.len() == 16,
        ls.len() == rs.len(),
        ls.len() <= MAX_BLOCKS,
        forall|i: int| 0 <= i < ls.len() ==> (#[trigger] ls[i]).0.len() == 16,
        forall|i: int| 0 <= i < rs.len() ==> (#[trigger] rs[i]).len() == 32,
    ensures
        parse_combined(combined_ct_bytes(nonce, ls, rs)) == Some((nonce, ls, rs)),
{
    let h = current_header(CtType::Combined, ls.len());
    let b = combined_ct_bytes(nonce, ls, rs);
    assert(b =~= header_bytes(h) + (nonce + combined_body(ls, rs)));
    lemma_header_round_trip(h, nonce + combined_body(ls, rs));
    let p = parse_combined(b).unwrap();
    assert(p.0 =~= nonce);
    assert forall|i: int| 0 <= i < ls.len() implies #[trigger] p.1[i] == ls[i] by {
        assert forall|m: int| 0 <= m < 16 implies b.subrange(22 + 49 * i, 22 + 49 * i + 16)[m]
            == ls[i].0[m] by {
            lemma_block_offset(49 * i + m, i, 49);
        }
        assert(b.subrange(22 + 49 * i, 22 + 49 * i + 16) =~= ls[i].0);
        lemma_block_offset(49 * i + 16, i, 49);
    }
    assert forall|i: int| 0 <= i < rs.len() implies #[trigger] p.2[i] == rs[i] by {
        assert forall|m: int| 0 <= m < 32 implies b.subrange(22 + 49 * i + 17, 22 + 49 * i + 49)[m]
            == rs[i][m] by {
            lemma_block_offset(49 * i + 17 + m, i, 49);
        }
        assert(b.subrange(22 + 49 * i + 17, 22 + 49 * i + 49) =~= rs[i]);
    }
    assert(p.1 =~= ls);
    assert(p.2 =~= rs);
}

} // verus!
