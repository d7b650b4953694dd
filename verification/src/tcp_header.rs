//! Stateless TCP header decoding from raw bytes, including the MSS
//! option from the options region.

use vstd::prelude::*;
use crate::ip_header::{be16, be32, read_be16, read_be32};

verus! {

/// Option kind: end of the options list.
pub const TCP_OPT_END: u8 = 0;
/// Option kind: one-byte padding.
pub const TCP_OPT_NOP: u8 = 1;
/// Option kind: maximum segment size; four bytes in all.
pub const TCP_OPT_MSS: u8 = 2;

/// The decoded fields of a TCP header.
#[derive(Clone, Copy, Debug, PartialEq, Eq, Structural)]
pub struct TcpHeader {
    pub src_port: u16,
    pub dst_port: u16,
    pub seq: u32,
    pub ack: u32,
    /// Header length in 32-bit words.
    pub data_offset: u8,
    pub flags: u8,
    pub window: u16,
}

impl TcpHeader {
    /// Header length in bytes.
    pub open spec fn spec_header_len(self) -> int {
        4 * self.data_offset
    }

    /// Header length in bytes.
    pub fn header_len(&self) -> (r: usize)
        ensures
            r == self.spec_header_len(),
    {
        4 * (self.data_offset as usize)
    }
}

/// The MSS value announced in an options region, scanning from index `i`:
/// an end-of-options kind or any malformed length stops the scan with
/// nothing; padding advances one byte; any other option advances by its
/// stated length; the first well-formed MSS option yields its 16-bit
/// value.
pub open spec fn find_mss(opts: Seq<u8>, i: int) -> Option<u16>
    decreases opts.len() - i,
{
    if i < 0 || i >= opts.len() {
        None
    } else if opts[i] == TCP_OPT_END {
        None
    } else if opts[i] == TCP_OPT_NOP {
        find_mss(opts, i + 1)
    } else if i + 1 >= opts.len() {
        None
    } else if opts[i + 1] < 2 {
        None
    } else if i + opts[i + 1] > opts.len() {
        None
    } else if opts[i] == TCP_OPT_MSS && opts[i + 1] == 4 {
        Some(be16(opts, i + 2))
    } else {
        find_mss(opts, i + opts[i + 1])
    }
}

/// What decoding yields on any byte string: the header's fields when the
/// bytes begin with a well-formed TCP header (room for the fixed 20
/// bytes, data offset of at least five words and present in full),
/// nothing otherwise.
pub open spec fn spec_parse_tcp(s: Seq<u8>) -> Option<TcpHeader> {
    if s.len() < 20 {
        None
    } else {
        let doff = s[12] / 16;
        if doff < 5 || s.len() < 4 * doff {
            None
        } else {
            Some(
                TcpHeader {
                    src_port: be16(s, 0),
                    dst_port: be16(s, 2),
                    seq: be32(s, 4),
                    ack: be32(s, 8),
                    data_offset: doff as u8,
                    flags: s[13],
                    window: be16(s, 14),
                },
            )
        }
    }
}

/// The MSS announced by a well-formed header's options region, if any.
pub open spec fn spec_mss_of(s: Seq<u8>) -> Option<u16> {
    match spec_parse_tcp(s) {
        Some(h) => find_mss(s.subrange(20, h.spec_header_len()), 0),
        None => None,
    }
}

/// Decode a TCP header from the start of `b`; yields nothing on
/// malformed or truncated bytes.
pub fn parse_tcp(b: &[u8]) -> (r: Option<TcpHeader>)
    ensures
        r == spec_parse_tcp(b@),
{
    if b.len() < 20 {
        return None;
    }
    let doff = b[12] / 16;
    if doff < 5 || b.len() < 4 * (doff as usize) {
        return None;
    }
    Some(
        TcpHeader {
            src_port: read_be16(b, 0),
            dst_port: read_be16(b, 2),
            seq: read_be32(b, 4),
            ack: read_be32(b, 8),
            data_offset: doff,
            flags: b[13],
            window: read_be16(b, 14),
        },
    )
}

/// Scan a well-formed header's options region for the MSS option.
pub fn parse_mss(b: &[u8]) -> (r: Option<u16>)
    ensures
        r == spec_mss_of(b@),
{
    let h = match parse_tcp(b) {
        Some(h) => h,
        None => {
            return None;
        },
    };
    let hl = h.header_len();
    let ghost opts: Seq<u8> = b@.subrange(20, hl as int);
    let mut j: usize = 20;
    while j < hl
        invariant
            20 <= j <= hl,
            hl <= b@.len(),
            hl == 4 * h.data_offset,
            opts == b@.subrange(20, hl as int),
            find_mss(opts, 0) == find_mss(opts, j - 20),
            spec_parse_tcp(b@) == Some(h),
        decreases hl - j,
    {
        proof {
            assert(opts.len() == hl - 20);
        }
        let kind = b[j];
        proof {
            assert(opts[j - 20] == b@[j as int]);
        }
        if kind == TCP_OPT_END {
            return None;
        }
        if kind == TCP_OPT_NOP {
            j = j + 1;
            continue;
        }
        if j + 1 >= hl {
            return None;
        }
        let l = b[j + 1];
        proof {
            assert(opts[j - 20 + 1] == b@[j as int + 1]);
        }
        if l < 2 {
            return None;
        }
        if j + (l as usize) > hl {
            proof {
                assert(j - 20 + l > opts.len());
            }
            return None;
        }
        if kind == TCP_OPT_MSS && l == 4 {
            let v = read_be16(b, j + 2);
            proof {
                assert(opts[j - 20 + 2] == b@[j as int + 2]);
                assert(opts[j - 20 + 3] == b@[j as int + 3]);
                assert(be16(opts, j - 20 + 2) == be16(b@, j as int + 2));
                assert(find_mss(opts, j - 20) == Some(be16(opts, j - 20 + 2)));
            }
            return Some(v);
        }
        j = j + (l as usize);
    }
    proof {
        assert(find_mss(opts, j - 20) == None::<u16>);
    }
    None
}

} // verus!
