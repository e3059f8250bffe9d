use crate::ciphertext::ParseError;
use vstd::prelude::*;

verus! {

/// Length in bytes of a serialized header.
pub const HEADER_LEN: usize = 6;

/// The version of the wire format this library writes and reads.
pub const FORMAT_VERSION: u16 = 0;

/// The scheme identifier of the block ORE scheme with a 2-bit indicator.
pub const SCHEME_ID: u8 = 0;

/// The kind of a ciphertext.
#[derive(Clone, Copy, PartialEq, Eq, Debug, Structural)]
pub enum CtType {
    Left,
    Right,
    Combined,
}

/// The byte that encodes a kind.
pub open spec fn ct_type_code(t: CtType) -> u8 {
    match t {
        CtType::Left => 0,
        CtType::Right => 1,
        CtType::Combined => 2,
    }
}

/// The kind a byte encodes, if any.
pub open spec fn ct_type_of_code(v: u8) -> Option<CtType> {
    if v == 0 {
        Some(CtType::Left)
    } else if v == 1 {
        Some(CtType::Right)
    } else if v == 2 {
        Some(CtType::Combined)
    } else {
        None
    }
}

impl CtType {
    /// The byte that encodes this kind.
    pub fn to_u8(self) -> (r: u8)
        ensures
            r == ct_type_code(self),
    {
        match self {
            CtType::Left => 0,
            CtType::Right => 1,
            CtType::Combined => 2,
        }
    }

    /// The kind that `v` encodes, or `None` for an unknown byte.
    pub fn from_u8(v: u8) -> (r: Option<CtType>)
        ensures
            r == ct_type_of_code(v),
    {
        if v == 0 {
            Some(CtType::Left)
        } else if v == 1 {
            Some(CtType::Right)
        } else if v == 2 {
            Some(CtType::Combined)
        } else {
            None
        }
    }
}

/// The header that starts every serialized ciphertext.
#[derive(Clone, Copy, PartialEq, Eq, Debug, Structural)]
pub struct Header {
    pub version: u16,
    pub scheme: u8,
    pub ct_type: CtType,
    pub num_blocks: u16,
}

/// The six bytes of a header: version (big-endian), scheme, kind, block count (big-endian).
pub open spec fn header_bytes(h: Header) -> Seq<u8> {
    seq![
        (h.version >> 8u16) as u8,
        h.version as u8,
        h.scheme,
        ct_type_code(h.ct_type),
        (h.num_blocks >> 8u16) as u8,
        h.num_blocks as u8,
    ]
}

/// The big-endian 16-bit integer in two bytes.
pub open spec fn be_u16(hi: u8, lo: u8) -> u16 {
    (hi as u16 * 256 + lo as u16) as u16
}

/// The header at the start of `b`: `None` when `b` is shorter than a header
/// or its kind byte is unknown.
pub open spec fn parse_header(b: Seq<u8>) -> Option<Header> {
    if b.len() < HEADER_LEN {
        None
    } else {
        match ct_type_of_code(b[3]) {
            Some(t) => Some(
                Header {
                    version: be_u16(b[0], b[1]),
                    scheme: b[2],
                    ct_type: t,
                    num_blocks: be_u16(b[4], b[5]),
                },
            ),
            None => None,
        }
    }
}

/// Two headers of which the first may be compared with the second: same
/// version, scheme and block count, and a left side (a Left or a Combined,
/// which carries both halves) facing a right side (a Right or a Combined).
pub open spec fn headers_comparable(a: Header, b: Header) -> bool {
    &&& a.version == b.version
    &&& a.scheme == b.scheme
    &&& a.num_blocks == b.num_blocks
    &&& match (a.ct_type, b.ct_type) {
        (CtType::Left, CtType::Right) => true,
        (CtType::Left, CtType::Combined) => true,
        (CtType::Combined, CtType::Right) => true,
        (CtType::Combined, CtType::Combined) => true,
        _ => false,
    }
}

proof fn lemma_be_u16(v: u16)
    ensures
        be_u16((v >> 8u16) as u8, v as u8) == v,
{
    assert(((((v >> 8u16) as u8) as u16) * 256 + ((v as u8) as u16)) as u16 == v) by (bit_vector);
}

/// Reading a header back from its bytes gives it back, whatever follows them.
pub proof fn lemma_header_round_trip(h: Header, rest: Seq<u8>)
    ensures
        parse_header(header_bytes(h) + rest) == Some(h),
{
    lemma_be_u16(h.version);
    lemma_be_u16(h.num_blocks);
    let b = header_bytes(h) + rest;
    assert(b[0] == (h.version >> 8u16) as u8);
    assert(b[1] == h.version as u8);
    assert(b[3] == ct_type_code(h.ct_type));
    assert(b[4] == (h.num_blocks >> 8u16) as u8);
    assert(b[5] == h.num_blocks as u8);
}

impl Header {
    /// A header of the current version and scheme for `num_blocks` blocks of kind `ct_type`.
    pub fn new(ct_type: CtType, num_blocks: usize) -> (r: Header)
        requires
            num_blocks <= u16::MAX,
        ensures
            r == (Header {
                version: FORMAT_VERSION,
                scheme: SCHEME_ID,
                ct_type,
                num_blocks: num_blocks as u16,
            }),
    {
        Header { version: FORMAT_VERSION, scheme: SCHEME_ID, ct_type, num_blocks: num_blocks as u16 }
    }

    /// Whether a ciphertext with this header may be compared with one with `other`.
    pub fn comparable(&self, other: &Header) -> (r: bool)
        ensures
            r == headers_comparable(*self, *other),
    {
        if self.version != other.version || self.scheme != other.scheme || self.num_blocks
            != other.num_blocks {
            return false;
        }
        match (self.ct_type, other.ct_type) {
            (CtType::Left, CtType::Right) => true,
            (CtType::Left, CtType::Combined) => true,
            (CtType::Combined, CtType::Right) => true,
            (CtType::Combined, CtType::Combined) => true,
            _ => false,
        }
    }

    /// The six bytes of the header.
    pub fn to_vec(&self) -> (r: Vec<u8>)
        ensures
            r@ == header_bytes(*self),
    {
        let mut hdr: Vec<u8> = Vec::with_capacity(HEADER_LEN);
        hdr.push((self.version >> 8u16) as u8);
        hdr.push(self.version as u8);
        hdr.push(self.scheme);
        hdr.push(self.ct_type.to_u8());
        hdr.push((self.num_blocks >> 8u16) as u8);
        hdr.push(self.num_blocks as u8);
        assert(hdr@ =~= header_bytes(*self));
        hdr
    }

    /// Reads the header at the start of `hdr`; bytes after the first six are ignored.
    pub fn from_slice(hdr: &[u8]) -> (r: Result<Header, ParseError>)
        ensures
            match r {
                Ok(h) => parse_header(hdr@) == Some(h),
                Err(_) => parse_header(hdr@) is None,
            },
    {
        if hdr.len() < HEADER_LEN {
            return Err(ParseError);
        }
        let ct_type = match CtType::from_u8(hdr[3]) {
            Some(t) => t,
            None => {
                return Err(ParseError);
            },
        };
        let version: u16 = (hdr[0] as u16) * 256 + hdr[1] as u16;
        let num_blocks: u16 = (hdr[4] as u16) * 256 + hdr[5] as u16;
        Ok(Header { version, scheme: hdr[2], ct_type, num_blocks })
    }
}

} // verus!
