use traffic_analyzer::ip_header::{parse_ipv4, Ipv4Header};
use traffic_analyzer::tcp_header::parse_tcp;
use traffic_analyzer::tcp_header::parse_mss;
use traffic_analyzer::ip_reassembly::IpReassembler;
use traffic_analyzer::protocol_identifier::{classify, ProtocolKind};
use traffic_analyzer::packet_processor::process_packet;
use traffic_analyzer::stream_table::{ConnKey, StreamTable};
use traffic_analyzer::tcp_stream::TcpState;

fn ipv4_bytes(
    total_len: u16,
    ident: u16,
    mf: bool,
    offset_units: u16,
    proto: u8,
    src: u32,
    dst: u32,
) -> Vec<u8> {
    let mut b = vec![0u8; 20];
    b[0] = 0x45;
    b[2] = (total_len >> 8) as u8;
    b[3] = (total_len & 0xff) as u8;
    b[4] = (ident >> 8) as u8;
    b[5] = (ident & 0xff) as u8;
    b[6] = (if mf { 0x20 } else { 0 }) | ((offset_units >> 8) as u8 & 0x1f);
    b[7] = (offset_units & 0xff) as u8;
    b[8] = 64;
    b[9] = proto;
    b[12..16].copy_from_slice(&src.to_be_bytes());
    b[16..20].copy_from_slice(&dst.to_be_bytes());
    b
}

fn tcp_bytes(
    sport: u16,
    dport: u16,
    seq: u32,
    ack: u32,
    flags: u8,
    window: u16,
    options: &[u8],
    payload: &[u8],
) -> Vec<u8> {
    assert!(options.len() % 4 == 0);
    let doff = 5 + options.len() / 4;
    let mut b = vec![0u8; 20];
    b[0] = (sport >> 8) as u8;
    b[1] = (sport & 0xff) as u8;
    b[2] = (dport >> 8) as u8;
    b[3] = (dport & 0xff) as u8;
    b[4..8].copy_from_slice(&seq.to_be_bytes());
    b[8..12].copy_from_slice(&ack.to_be_bytes());
    b[12] = (doff as u8) << 4;
    b[13] = flags;
    b[14] = (window >> 8) as u8;
    b[15] = (window & 0xff) as u8;
    b.extend_from_slice(options);
    b.extend_from_slice(payload);
    b
}

fn eth_frame(ip: &[u8]) -> Vec<u8> {
    let mut b = vec![0u8; 12];
    b.push(0x08);
    b.push(0x00);
    b.extend_from_slice(ip);
    b
}

fn header(ident: u16, mf: bool, offset_units: u16, total_len: u16) -> Ipv4Header {
    Ipv4Header {
        version: 4,
        ihl: 5,
        total_len,
        ident,
        dont_fragment: false,
        more_fragments: mf,
        frag_offset_units: offset_units,
        ttl: 64,
        protocol: 6,
        src: 0x0a000001,
        dst: 0x0a000002,
    }
}

#[test]
fn parse_ipv4_reads_all_fields() {
    let b = ipv4_bytes(20, 0x1234, true, 3, 6, 0x0a000001, 0xc0a80101);
    let h = parse_ipv4(&b).expect("well-formed header");
    assert_eq!(h.version, 4);
    assert_eq!(h.ihl, 5);
    assert_eq!(h.total_len, 20);
    assert_eq!(h.ident, 0x1234);
    assert!(h.more_fragments);
    assert!(!h.dont_fragment);
    assert_eq!(h.frag_offset_units, 3);
    assert_eq!(h.protocol, 6);
    assert_eq!(h.src, 0x0a000001);
    assert_eq!(h.dst, 0xc0a80101);
}

#[test]
fn parse_ipv4_rejects_truncated_and_bad_version() {
    assert_eq!(parse_ipv4(&[0u8; 10]), None);
    let mut b = ipv4_bytes(20, 1, false, 0, 6, 1, 2);
    b[0] = 0x65; // version 6
    assert_eq!(parse_ipv4(&b), None);
    let b = ipv4_bytes(200, 1, false, 0, 6, 1, 2); // total length beyond the bytes
    assert_eq!(parse_ipv4(&b), None);
}

#[test]
fn parse_tcp_reads_all_fields() {
    let b = tcp_bytes(40000, 80, 7, 9, 0x18, 512, &[], b"hi");
    let h = parse_tcp(&b).expect("well-formed header");
    assert_eq!(h.src_port, 40000);
    assert_eq!(h.dst_port, 80);
    assert_eq!(h.seq, 7);
    assert_eq!(h.ack, 9);
    assert_eq!(h.data_offset, 5);
    assert_eq!(h.flags, 0x18);
    assert_eq!(h.window, 512);
    assert_eq!(parse_tcp(&[0u8; 12]), None);
}

#[test]
fn parse_mss_finds_the_option() {
    let b = tcp_bytes(1, 2, 0, 0, 0x02, 100, &[2, 4, 0x05, 0xb4], b"");
    assert_eq!(parse_mss(&b), Some(1460));
    let b = tcp_bytes(1, 2, 0, 0, 0x02, 100, &[1, 1, 2, 4, 0x05, 0xb4, 1, 1], b"");
    assert_eq!(parse_mss(&b), Some(1460));
    let b = tcp_bytes(1, 2, 0, 0, 0x02, 100, &[], b"");
    assert_eq!(parse_mss(&b), None);
    // An end-of-options kind stops the scan before a later MSS.
    let b = tcp_bytes(1, 2, 0, 0, 0x02, 100, &[0, 0, 2, 4, 0x05, 0xb4, 0, 0], b"");
    assert_eq!(parse_mss(&b), None);
}

#[test]
fn unfragmented_datagram_passes_straight_through() {
    let mut r = IpReassembler::new(30);
    let h = header(7, false, 0, 24);
    let got = r.ingest_fragment(&h, b"data", 0);
    assert!(got.is_some());
    assert_eq!(got.unwrap().1, b"data".to_vec());
    assert!(r.sets.is_empty());
}

#[test]
fn two_fragments_reassemble_in_order() {
    let mut r = IpReassembler::new(30);
    let a = vec![1u8; 496];
    let b = vec![2u8; 404];
    assert!(r.ingest_fragment(&header(7, true, 0, 516), &a, 0).is_none());
    let got = r.ingest_fragment(&header(7, false, 62, 424), &b, 1).expect("complete");
    assert_eq!(got.1.len(), 900);
    assert!(got.1[..496].iter().all(|&x| x == 1));
    assert!(got.1[496..].iter().all(|&x| x == 2));
    assert!(r.sets.is_empty());
}

#[test]
fn two_fragments_reassemble_in_reverse_order() {
    let mut r = IpReassembler::new(30);
    let a = vec![1u8; 496];
    let b = vec![2u8; 404];
    assert!(r.ingest_fragment(&header(7, false, 62, 424), &b, 0).is_none());
    let got = r.ingest_fragment(&header(7, true, 0, 516), &a, 1).expect("complete");
    assert_eq!(got.1.len(), 900);
    assert!(got.1[..496].iter().all(|&x| x == 1));
    assert!(got.1[496..].iter().all(|&x| x == 2));
}

#[test]
fn duplicate_fragment_is_ignored_first_writer_wins() {
    let mut r = IpReassembler::new(30);
    let a = vec![1u8; 496];
    let a2 = vec![9u8; 496];
    let b = vec![2u8; 404];
    assert!(r.ingest_fragment(&header(7, true, 0, 516), &a, 0).is_none());
    assert!(r.ingest_fragment(&header(7, true, 0, 516), &a2, 1).is_none());
    let got = r.ingest_fragment(&header(7, false, 62, 424), &b, 2).expect("complete");
    assert!(got.1[..496].iter().all(|&x| x == 1));
}

#[test]
fn stale_set_is_discarded_and_late_fragment_starts_anew() {
    let mut r = IpReassembler::new(30);
    let a = vec![1u8; 496];
    let b = vec![2u8; 404];
    assert!(r.ingest_fragment(&header(7, true, 0, 516), &a, 0).is_none());
    // 31 seconds later the set is gone; the completing fragment opens a new set.
    let got = r.ingest_fragment(&header(7, false, 62, 424), &b, 31);
    assert!(got.is_none());
    assert_eq!(r.sets.len(), 1);
    assert_eq!(r.sets[0].1.frags.len(), 1);
    // Re-sending the first fragment now completes the new set.
    let got = r.ingest_fragment(&header(7, true, 0, 516), &a, 32).expect("complete");
    assert_eq!(got.1.len(), 900);
}

#[test]
fn overlapping_fragments_never_complete() {
    let mut r = IpReassembler::new(30);
    assert!(r.ingest_fragment(&header(7, true, 0, 516), &vec![1u8; 496], 0).is_none());
    // Overlaps [488, 900): no exact tiling, so the set stays incomplete.
    assert!(r.ingest_fragment(&header(7, false, 61, 432), &vec![2u8; 412], 1).is_none());
    assert_eq!(r.sets.len(), 1);
}

#[test]
fn classify_prefers_payload_signature_over_port() {
    let k = ConnKey { client_addr: 1, client_port: 9999, server_addr: 2, server_port: 9998 };
    assert_eq!(classify(k, b"GET / HTTP/1.1"), ProtocolKind::Http);
    assert_eq!(classify(k, b"SSH-2.0-OpenSSH"), ProtocolKind::Ssh);
    assert_eq!(classify(k, &[0x16, 0x03, 0x01]), ProtocolKind::Https);
    let k443 = ConnKey { client_addr: 1, client_port: 9999, server_addr: 2, server_port: 443 };
    assert_eq!(classify(k443, b""), ProtocolKind::Https);
    let k53 = ConnKey { client_addr: 1, client_port: 53, server_addr: 2, server_port: 9998 };
    assert_eq!(classify(k53, b""), ProtocolKind::Dns);
    assert_eq!(classify(k, b""), ProtocolKind::Unknown);
}

fn tcp_frame(sport: u16, dport: u16, seq: u32, ack: u32, flags: u8, payload: &[u8], from_client: bool) -> Vec<u8> {
    let t = tcp_bytes(sport, dport, seq, ack, flags, 1000, &[], payload);
    let (src, dst) = if from_client { (0x0a000001, 0x0a000002) } else { (0x0a000002, 0x0a000001) };
    let ip = ipv4_bytes(20 + t.len() as u16, 1, false, 0, 6, src, dst);
    let mut whole = ip;
    whole.extend_from_slice(&t);
    eth_frame(&whole)
}

#[test]
fn handshake_emits_record_on_state_change() {
    let mut table = StreamTable::new();
    let mut reasm = IpReassembler::new(30);
    // Client SYN: entry created, no transition taken, nothing emitted.
    let r = process_packet(&tcp_frame(40000, 80, 1000, 0, 0x02, b"", true), &mut table, &mut reasm, 0);
    assert!(r.is_none());
    assert_eq!(table.entries.len(), 1);
    // Server SYN+ACK: SynSent becomes Established, record emitted.
    let r = process_packet(&tcp_frame(80, 40000, 5000, 1001, 0x12, b"", false), &mut table, &mut reasm, 1);
    let rec = r.expect("record for the transition");
    assert_eq!(rec.state, TcpState::Established);
    assert_eq!(rec.protocol, ProtocolKind::Http);
    assert_eq!(rec.timestamp, 1);
    assert_eq!(rec.key.client_port, 40000);
    assert_eq!(rec.key.server_port, 80);
}

#[test]
fn accepted_payload_emits_record_with_classification() {
    let mut table = StreamTable::new();
    let mut reasm = IpReassembler::new(30);
    process_packet(&tcp_frame(40000, 9999, 1000, 0, 0x02, b"", true), &mut table, &mut reasm, 0);
    process_packet(&tcp_frame(9999, 40000, 5000, 1001, 0x12, b"", false), &mut table, &mut reasm, 1);
    // In-order payload from the client at its next expected sequence number.
    let r = process_packet(
        &tcp_frame(40000, 9999, 1001, 5001, 0x18, b"GET / HTTP/1.1", true),
        &mut table,
        &mut reasm,
        2,
    );
    let rec = r.expect("record for accepted payload");
    assert_eq!(rec.protocol, ProtocolKind::Http);
    // Out-of-order retransmission: same bytes again, nothing accepted, no record.
    let r = process_packet(
        &tcp_frame(40000, 9999, 1001, 5001, 0x18, b"GET / HTTP/1.1", true),
        &mut table,
        &mut reasm,
        3,
    );
    assert!(r.is_none());
}

#[test]
fn malformed_frames_are_dropped_silently() {
    let mut table = StreamTable::new();
    let mut reasm = IpReassembler::new(30);
    assert!(process_packet(b"", &mut table, &mut reasm, 0).is_none());
    assert!(process_packet(&[0u8; 14], &mut table, &mut reasm, 0).is_none());
    // Correct ethertype but truncated IP header.
    let mut f = vec![0u8; 12];
    f.push(0x08);
    f.push(0x00);
    f.extend_from_slice(&[0x45, 0]);
    assert!(process_packet(&f, &mut table, &mut reasm, 0).is_none());
    // Non-TCP protocol is ignored.
    let udp = ipv4_bytes(20, 1, false, 0, 17, 1, 2);
    assert!(process_packet(&eth_frame(&udp), &mut table, &mut reasm, 0).is_none());
    assert!(table.entries.is_empty());
}

#[test]
fn non_syn_segment_for_unknown_connection_is_dropped() {
    let mut table = StreamTable::new();
    let mut reasm = IpReassembler::new(30);
    let r = process_packet(&tcp_frame(40000, 80, 1000, 0, 0x10, b"x", true), &mut table, &mut reasm, 0);
    assert!(r.is_none());
    assert!(table.entries.is_empty());
}

#[test]
fn mss_option_is_recorded_from_syn() {
    let mut table = StreamTable::new();
    let mut reasm = IpReassembler::new(30);
    let t = tcp_bytes(40000, 80, 1000, 0, 0x02, 1000, &[2, 4, 0x05, 0x00], b"");
    let ip = ipv4_bytes(20 + t.len() as u16, 1, false, 0, 6, 0x0a000001, 0x0a000002);
    let mut whole = ip;
    whole.extend_from_slice(&t);
    process_packet(&eth_frame(&whole), &mut table, &mut reasm, 0);
    assert_eq!(table.entries.len(), 1);
    assert_eq!(table.entries[0].1.client_mss, 0x0500);
    assert_eq!(table.entries[0].1.server_mss, 1460);
}

#[test]
fn fragmented_tcp_segment_is_reassembled_then_tracked() {
    let mut table = StreamTable::new();
    let mut reasm = IpReassembler::new(30);
    let t = tcp_bytes(40000, 80, 1000, 0, 0x02, 1000, &[], b"");
    // Split the 20 TCP bytes into 16 + 4 across two IP fragments.
    let ip1 = ipv4_bytes(36, 9, true, 0, 6, 0x0a000001, 0x0a000002);
    let mut f1 = ip1;
    f1.extend_from_slice(&t[..16]);
    let ip2 = ipv4_bytes(24, 9, false, 2, 6, 0x0a000001, 0x0a000002);
    let mut f2 = ip2;
    f2.extend_from_slice(&t[16..]);
    let r = process_packet(&eth_frame(&f1), &mut table, &mut reasm, 0);
    assert!(r.is_none());
    assert!(table.entries.is_empty());
    let r = process_packet(&eth_frame(&f2), &mut table, &mut reasm, 1);
    assert!(r.is_none());
    // The SYN inside the reassembled datagram created the entry.
    assert_eq!(table.entries.len(), 1);
    assert!(reasm.sets.is_empty());
}
