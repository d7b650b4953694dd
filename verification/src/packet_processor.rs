//! Per-frame dispatch: decode the link and IPv4 layers, reassemble
//! fragments, decode TCP, apply the segment to the connection table,
//! classify the traffic, decide whether a record is due, and run the
//! pruning sweep.  Malformed input is dropped silently; no per-frame
//! error reaches the caller.

use vstd::prelude::*;
use crate::ip_header::{be16, copy_range, parse_ipv4, read_be16, spec_parse_ipv4, Ipv4Header};
use crate::tcp_header::{parse_mss, parse_tcp, spec_mss_of, spec_parse_tcp, TcpHeader};
use crate::ip_reassembly::{frag_key_of, frag_offset_bytes, spec_ingest, IpReassembler};
use crate::stream_table::{
    spec_lookup_or_create, spec_prune, spec_table_set_mss, spec_table_update, stream_of,
    table_contains, ConnKey, StreamTable,
};
use crate::tcp_stream::{spec_update, StreamModel, TcpState, TCP_SYN};
use crate::protocol_identifier::{classify, spec_classify, ProtocolKind};

verus! {

/// The ethertype of IPv4, at bytes 12 and 13 of an Ethernet frame.
pub const ETHERTYPE_IPV4: u16 = 0x0800;

/// The IP protocol number of TCP.
pub const IPPROTO_TCP: u8 = 6;

/// How many leading payload bytes the classifier is shown.
pub const SAMPLE_LEN: usize = 16;

/// What is handed to the log sink for one noteworthy segment.
#[derive(Clone, Copy, Debug, PartialEq, Eq, Structural)]
pub struct Record {
    pub key: ConnKey,
    pub protocol: ProtocolKind,
    pub state: TcpState,
    pub timestamp: u64,
}

/// The IPv4 bytes carried by an Ethernet frame, if it carries any.
pub open spec fn link_payload(frame: Seq<u8>) -> Option<Seq<u8>> {
    if frame.len() >= 14 && be16(frame, 12) == ETHERTYPE_IPV4 {
        Some(frame.skip(14))
    } else {
        None
    }
}

/// The datagram payload behind a well-formed IPv4 header.
pub open spec fn ip_payload_of(s: Seq<u8>, h: Ipv4Header) -> Seq<u8> {
    s.subrange(h.spec_header_len(), h.total_len as int)
}

/// The segment payload behind a well-formed TCP header.
pub open spec fn tcp_payload_of(d: Seq<u8>, th: TcpHeader) -> Seq<u8> {
    d.subrange(th.spec_header_len(), d.len() as int)
}

/// One segment applied to its connection: the entry under `key` takes a
/// step, the sender's announced MSS is recorded if present, a record is
/// due exactly when the step changed the FSM state or accepted new
/// payload bytes, and the table is then pruned.
pub open spec fn spec_apply_segment(
    t1: Seq<(ConnKey, StreamModel)>,
    key: ConnKey,
    from_client: bool,
    th: TcpHeader,
    payload: Seq<u8>,
    mss: Option<u16>,
    now: u64,
) -> (Seq<(ConnKey, StreamModel)>, Option<Record>) {
    let before = stream_of(t1, key);
    let after = spec_update(before, from_client, th.seq, th.ack, th.flags, payload, th.window, now);
    let t2 = spec_table_update(t1, key, from_client, th.seq, th.ack, th.flags, payload, th.window, now);
    let t3 = match mss {
        Some(v) => spec_table_set_mss(t2, key, from_client, v),
        None => t2,
    };
    let accepted = th.seq == (if from_client { before.client_next_seq } else { before.server_next_seq });
    let emit = after.state != before.state || (accepted && payload.len() > 0);
    let buf = if from_client { after.client_data } else { after.server_data };
    let sample = buf.take(if SAMPLE_LEN <= buf.len() { SAMPLE_LEN as int } else { buf.len() as int });
    let rec = Record { key, protocol: spec_classify(key, sample), state: after.state, timestamp: now };
    (spec_prune(t3, now), if emit { Some(rec) } else { None })
}

/// The TCP stage of the pipeline: decode the header, resolve the
/// connection's direction (creating an entry on a bare SYN), and apply
/// the segment.  A segment that decodes badly, or belongs to no known
/// connection and opens none, only prunes the table.
pub open spec fn spec_tcp_stage(
    d: Seq<u8>,
    src: u32,
    dst: u32,
    t: Seq<(ConnKey, StreamModel)>,
    now: u64,
) -> (Seq<(ConnKey, StreamModel)>, Option<Record>) {
    match spec_parse_tcp(d) {
        None => (spec_prune(t, now), None),
        Some(th) => {
            let payload = tcp_payload_of(d, th);
            let mss = spec_mss_of(d);
            let key_fwd = ConnKey {
                client_addr: src,
                client_port: th.src_port,
                server_addr: dst,
                server_port: th.dst_port,
            };
            let key_rev = ConnKey {
                client_addr: dst,
                client_port: th.dst_port,
                server_addr: src,
                server_port: th.src_port,
            };
            if table_contains(t, key_fwd) {
                spec_apply_segment(t, key_fwd, true, th, payload, mss, now)
            } else if table_contains(t, key_rev) {
                spec_apply_segment(t, key_rev, false, th, payload, mss, now)
            } else if th.flags == TCP_SYN {
                spec_apply_segment(
                    spec_lookup_or_create(t, key_fwd, th.seq, 0, now),
                    key_fwd,
                    true,
                    th,
                    payload,
                    mss,
                    now,
                )
            } else {
                (spec_prune(t, now), None)
            }
        },
    }
}

/// The whole per-frame pipeline: non-IPv4 frames, malformed headers and
/// non-TCP datagrams are dropped (the table is still pruned); a
/// fragment goes through the reassembler and proceeds only when it
/// completes a datagram.
pub open spec fn spec_process(
    frame: Seq<u8>,
    t: Seq<(ConnKey, StreamModel)>,
    rs: Seq<(crate::ip_reassembly::FragKey, crate::ip_reassembly::SetModel)>,
    now: u64,
    timeout: u64,
) -> (
    Seq<(ConnKey, StreamModel)>,
    Seq<(crate::ip_reassembly::FragKey, crate::ip_reassembly::SetModel)>,
    Option<Record>,
) {
    match link_payload(frame) {
        None => (spec_prune(t, now), rs, None),
        Some(ip_bytes) => match spec_parse_ipv4(ip_bytes) {
            None => (spec_prune(t, now), rs, None),
            Some(h) => {
                if h.protocol != IPPROTO_TCP {
                    (spec_prune(t, now), rs, None)
                } else {
                    let pl = ip_payload_of(ip_bytes, h);
                    if h.spec_is_fragment() {
                        let step = spec_ingest(
                            rs,
                            frag_key_of(h),
                            frag_offset_bytes(h),
                            h.more_fragments,
                            pl,
                            now,
                            timeout,
                        );
                        match step.1 {
                            None => (spec_prune(t, now), step.0, None),
                            Some(d) => {
                                let stage = spec_tcp_stage(d, h.src, h.dst, t, now);
                                (stage.0, step.0, stage.1)
                            },
                        }
                    } else {
                        let stage = spec_tcp_stage(pl, h.src, h.dst, t, now);
                        (stage.0, rs, stage.1)
                    }
                }
            },
        },
    }
}

/// Run the TCP stage on one (possibly reassembled) datagram.
fn tcp_stage(d: &[u8], src: u32, dst: u32, table: &mut StreamTable, now: u64) -> (r: Option<Record>)
    requires
        old(table).wf(),
    ensures
        final(table).wf(),
        (final(table)@, r) == spec_tcp_stage(d@, src, dst, old(table)@, now),
{
    let th = match parse_tcp(d) {
        Some(th) => th,
        None => {
            table.prune(now);
            return None;
        },
    };
    let hl = th.header_len();
    let payload = copy_range(d, hl, d.len());
    let mss = parse_mss(d);
    let key_fwd = ConnKey {
        client_addr: src,
        client_port: th.src_port,
        server_addr: dst,
        server_port: th.dst_port,
    };
    let key_rev = ConnKey {
        client_addr: dst,
        client_port: th.dst_port,
        server_addr: src,
        server_port: th.src_port,
    };
    let (key, from_client) = if table.contains(key_fwd) {
        (key_fwd, true)
    } else if table.contains(key_rev) {
        (key_rev, false)
    } else if th.flags == TCP_SYN {
        table.lookup_or_create(key_fwd, th.seq, 0, now);
        (key_fwd, true)
    } else {
        table.prune(now);
        return None;
    };
    let ghost t1 = table@;
    let pre_state = match table.state_of(key) {
        Some(s) => s,
        None => {
            proof {
                assert(false);
            }
            TcpState::Closed
        },
    };
    let pre_next = match table.next_seq_of(key, from_client) {
        Some(v) => v,
        None => {
            proof {
                assert(false);
            }
            0
        },
    };
    table.update(key, from_client, th.seq, th.ack, th.flags, payload.as_slice(), th.window, now);
    if let Some(v) = mss {
        table.set_mss(key, from_client, v);
    }
    let post_state = match table.state_of(key) {
        Some(s) => s,
        None => {
            proof {
                assert(false);
            }
            TcpState::Closed
        },
    };
    let sample = table.payload_prefix(key, from_client, SAMPLE_LEN);
    let accepted = th.seq == pre_next;
    let emit = post_state != pre_state || (accepted && payload.len() > 0);
    let protocol = classify(key, sample.as_slice());
    table.prune(now);
    if emit {
        Some(Record { key, protocol, state: post_state, timestamp: now })
    } else {
        None
    }
}

/// Process one captured frame against the connection table and the
/// reassembly buffer, and say which record (if any) is due to the sink.
pub fn process_packet(
    frame: &[u8],
    table: &mut StreamTable,
    reasm: &mut IpReassembler,
    now: u64,
) -> (r: Option<Record>)
    requires
        old(table).wf(),
        old(reasm).wf(),
    ensures
        final(table).wf(),
        final(reasm).wf(),
        final(reasm).timeout_secs == old(reasm).timeout_secs,
        (final(table)@, final(reasm)@, r) == spec_process(
            frame@,
            old(table)@,
            old(reasm)@,
            now,
            old(reasm).timeout_secs,
        ),
{
    if frame.len() < 14 {
        table.prune(now);
        return None;
    }
    if read_be16(frame, 12) != ETHERTYPE_IPV4 {
        table.prune(now);
        return None;
    }
    let ip_bytes = copy_range(frame, 14, frame.len());
    proof {
        assert(ip_bytes@ =~= frame@.skip(14));
    }
    let h = match parse_ipv4(ip_bytes.as_slice()) {
        Some(h) => h,
        None => {
            table.prune(now);
            return None;
        },
    };
    if h.protocol != IPPROTO_TCP {
        table.prune(now);
        return None;
    }
    let hl = h.header_len();
    let pl = copy_range(ip_bytes.as_slice(), hl, h.total_len as usize);
    if h.is_fragment() {
        let completed = reasm.ingest_fragment(&h, pl.as_slice(), now);
        match completed {
            None => {
                table.prune(now);
                None
            },
            Some((_, d)) => tcp_stage(d.as_slice(), h.src, h.dst, table, now),
        }
    } else {
        tcp_stage(pl.as_slice(), h.src, h.dst, table, now)
    }
}

} // verus!
