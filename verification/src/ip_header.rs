//! Stateless IPv4 header decoding from raw bytes.

use vstd::prelude::*;

verus! {

/// Big-endian 16-bit read at byte index `i`.
pub open spec fn be16(s: Seq<u8>, i: int) -> u16 {
    (s[i] * 256 + s[i + 1]) as u16
}

/// Big-endian 32-bit read at byte index `i`.
pub open spec fn be32(s: Seq<u8>, i: int) -> u32 {
    (s[i] * 0x100_0000 + s[i + 1] * 0x1_0000 + s[i + 2] * 256 + s[i + 3]) as u32
}

/// The decoded fields of an IPv4 header.
#[derive(Clone, Copy, Debug, PartialEq, Eq, Structural)]
pub struct Ipv4Header {
    pub version: u8,
    /// Header length in 32-bit words.
    pub ihl: u8,
    pub total_len: u16,
    pub ident: u16,
    pub dont_fragment: bool,
    pub more_fragments: bool,
    /// Fragment offset in units of eight bytes.
    pub frag_offset_units: u16,
    pub ttl: u8,
    pub protocol: u8,
    pub src: u32,
    pub dst: u32,
}

impl Ipv4Header {
    /// Header length in bytes.
    pub open spec fn spec_header_len(self) -> int {
        4 * self.ihl
    }

    /// Whether the datagram is one fragment of a larger whole.
    pub open spec fn spec_is_fragment(self) -> bool {
        self.more_fragments || self.frag_offset_units != 0
    }

    /// Header length in bytes.
    pub fn header_len(&self) -> (r: usize)
        ensures
            r == self.spec_header_len(),
    {
        4 * (self.ihl as usize)
    }

    /// Whether the datagram is one fragment of a larger whole.
    pub fn is_fragment(&self) -> (r: bool)
        ensures
            r == self.spec_is_fragment(),
    {
        self.more_fragments || self.frag_offset_units != 0
    }
}

/// What decoding yields on any byte string: the header's fields when the
/// bytes begin with a well-formed IPv4 header, nothing otherwise.  Bytes
/// are well-formed when there is room for the fixed header, the version
/// is 4, the stated header length is at least the fixed 20 bytes and
/// present in full, and the total length covers the header and does not
/// exceed the bytes on hand.
pub open spec fn spec_parse_ipv4(s: Seq<u8>) -> Option<Ipv4Header> {
    if s.len() < 20 {
        None
    } else {
        let version = s[0] / 16;
        let ihl = s[0] % 16;
        let total_len = be16(s, 2);
        if version != 4 || ihl < 5 || total_len < 4 * ihl || total_len > s.len() {
            None
        } else {
            Some(
                Ipv4Header {
                    version: version as u8,
                    ihl: ihl as u8,
                    total_len: total_len,
                    ident: be16(s, 4),
                    dont_fragment: (s[6] / 64) % 2 == 1,
                    more_fragments: (s[6] / 32) % 2 == 1,
                    frag_offset_units: ((s[6] % 32) * 256 + s[7]) as u16,
                    ttl: s[8],
                    protocol: s[9],
                    src: be32(s, 12),
                    dst: be32(s, 16),
                },
            )
        }
    }
}

/// Big-endian 16-bit read.
pub(crate) fn read_be16(b: &[u8], i: usize) -> (r: u16)
    requires
        i + 2 <= b@.len(),
    ensures
        r == be16(b@, i as int),
{
    (b[i] as u16) * 256 + (b[i + 1] as u16)
}

/// Big-endian 32-bit read.
pub(crate) fn read_be32(b: &[u8], i: usize) -> (r: u32)
    requires
        i + 4 <= b@.len(),
    ensures
        r == be32(b@, i as int),
{
    (b[i] as u32) * 0x100_0000 + (b[i + 1] as u32) * 0x1_0000 + (b[i + 2] as u32) * 256
        + (b[i + 3] as u32)
}

/// Decode an IPv4 header from the start of `b`; yields nothing on
/// malformed or truncated bytes.
pub fn parse_ipv4(b: &[u8]) -> (r: Option<Ipv4Header>)
    ensures
        r == spec_parse_ipv4(b@),
{
    if b.len() < 20 {
        return None;
    }
    let b0 = b[0];
    let version = b0 / 16;
    let ihl = b0 % 16;
    let total_len = read_be16(b, 2);
    if version != 4 || ihl < 5 || total_len < 4 * (ihl as u16) || (total_len as usize) > b.len() {
        return None;
    }
    let b6 = b[6];
    Some(
        Ipv4Header {
            version,
            ihl,
            total_len,
            ident: read_be16(b, 4),
            dont_fragment: (b6 / 64) % 2 == 1,
            more_fragments: (b6 / 32) % 2 == 1,
            frag_offset_units: ((b6 % 32) as u16) * 256 + (b[7] as u16),
            ttl: b[8],
            protocol: b[9],
            src: read_be32(b, 12),
            dst: read_be32(b, 16),
        },
    )
}

/// Copy `b[from..to]` into a fresh vector.
pub(crate) fn copy_range(b: &[u8], from: usize, to: usize) -> (v: Vec<u8>)
    requires
        from <= to <= b@.len(),
    ensures
        v@ == b@.subrange(from as int, to as int),
{
    let mut v: Vec<u8> = Vec::new();
    let mut i: usize = from;
    while i < to
        invariant
            from <= i <= to,
            to <= b@.len(),
            v@ =~= b@.subrange(from as int, i as int),
        decreases to - i,
    {
        let x: u8 = b[i];
        v.push(x);
        proof {
            assert(b@.subrange(from as int, i as int).push(b@[i as int])
                =~= b@.subrange(from as int, i as int + 1));
        }
        i = i + 1;
    }
    v
}

} // verus!
