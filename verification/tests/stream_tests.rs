use traffic_analyzer::tcp_stream::{TcpState, TcpStream, TCP_ACK, TCP_FIN, TCP_SYN};
use traffic_analyzer::stream_table::{ConnKey, StreamTable};

fn key() -> ConnKey {
    ConnKey { client_addr: 0x0a000001, client_port: 40000, server_addr: 0x0a000002, server_port: 80 }
}

#[test]
fn in_order_segments_accumulate_exactly() {
    let mut s = TcpStream::new(1000, 5000, 0);
    assert_eq!(s.client_next_seq, 1001);
    s.update(true, 1001, 0, 0, b"abc", 100, 1);
    s.update(true, 1004, 0, 0, b"de", 100, 2);
    assert_eq!(s.client_data, b"abcde".to_vec());
    assert_eq!(s.client_next_seq, 1006);
}

#[test]
fn next_seq_wraps_modulo_32_bits() {
    let mut s = TcpStream::new(u32::MAX - 1, 5000, 0);
    assert_eq!(s.client_next_seq, u32::MAX);
    s.update(true, u32::MAX, 0, 0, b"xy", 100, 1);
    assert_eq!(s.client_next_seq, 1);
    assert_eq!(s.client_data, b"xy".to_vec());
}

#[test]
fn out_of_order_segment_is_not_buffered() {
    let mut s = TcpStream::new(1000, 5000, 0);
    s.update(true, 2000, 0, 0, b"zz", 100, 1);
    assert!(s.client_data.is_empty());
    assert_eq!(s.client_next_seq, 1001);
}

#[test]
fn duplicate_segment_is_not_double_appended() {
    let mut s = TcpStream::new(1000, 5000, 0);
    s.update(true, 1001, 0, 0, b"abc", 100, 1);
    s.update(true, 1001, 0, 0, b"abc", 100, 2);
    assert_eq!(s.client_data, b"abc".to_vec());
    assert_eq!(s.client_next_seq, 1004);
}

#[test]
fn syn_then_syn_ack_reaches_established() {
    let mut t = StreamTable::new();
    t.lookup_or_create(key(), 1000, 5000, 0);
    t.update(key(), false, 5000, 1001, TCP_SYN | TCP_ACK, b"", 100, 1);
    assert_eq!(t.state_of(key()), Some(TcpState::Established));
}

#[test]
fn syn_ack_on_stream_directly_reaches_established() {
    let mut s = TcpStream::new(1000, 5000, 0);
    assert_eq!(s.state, TcpState::SynSent);
    s.update(false, 5000, 1001, TCP_SYN | TCP_ACK, b"", 100, 1);
    assert_eq!(s.state, TcpState::Established);
}

#[test]
fn extra_flags_do_not_match_a_transition() {
    // Flag matching is exact equality: SYN|ACK with FIN added matches nothing.
    let mut s = TcpStream::new(1000, 5000, 0);
    s.update(false, 5000, 1001, TCP_SYN | TCP_ACK | TCP_FIN, b"", 100, 1);
    assert_eq!(s.state, TcpState::SynSent);
}

#[test]
fn established_fin_walks_toward_time_wait() {
    let mut s = TcpStream::new(1000, 5000, 0);
    s.update(false, 5000, 1001, TCP_SYN | TCP_ACK, b"", 100, 1);
    s.update(true, 1001, 5001, TCP_FIN, b"", 100, 2);
    assert_eq!(s.state, TcpState::FinWait1);
    s.update(false, 5001, 1002, TCP_FIN | TCP_ACK, b"", 100, 3);
    assert_eq!(s.state, TcpState::FinWait2);
    s.update(true, 1002, 5002, TCP_ACK, b"", 100, 4);
    assert_eq!(s.state, TcpState::TimeWait);
}

#[test]
fn ack_updates_peer_next_expected_unconditionally() {
    let mut s = TcpStream::new(1000, 5000, 0);
    s.update(true, 9999, 7777, TCP_ACK, b"ignored", 100, 1);
    // Payload rejected (wrong seq), but the ACK still moves the server side.
    assert!(s.client_data.is_empty());
    assert_eq!(s.server_next_seq, 7777);
    assert_eq!(s.client_window, 100);
}

#[test]
fn set_mss_records_per_direction() {
    let mut s = TcpStream::new(1000, 5000, 0);
    assert_eq!(s.client_mss, 1460);
    assert_eq!(s.server_mss, 1460);
    s.set_mss(true, 1200);
    assert_eq!(s.client_mss, 1200);
    assert_eq!(s.server_mss, 1460);
    s.set_mss(false, 900);
    assert_eq!(s.server_mss, 900);
}

fn closed_stream(last_activity: u64) -> TcpStream {
    let mut s = TcpStream::new(1000, 5000, last_activity);
    s.state = TcpState::Closed;
    s.last_activity = last_activity;
    s
}

#[test]
fn prune_removes_old_closed_entry() {
    let mut t = StreamTable::new();
    t.entries.push((key(), closed_stream(0)));
    t.prune(301);
    assert!(t.entries.is_empty());
}

#[test]
fn prune_keeps_young_closed_entry() {
    let mut t = StreamTable::new();
    t.entries.push((key(), closed_stream(0)));
    t.prune(299);
    assert_eq!(t.entries.len(), 1);
}

#[test]
fn prune_keeps_old_established_entry() {
    let mut t = StreamTable::new();
    t.lookup_or_create(key(), 1000, 5000, 0);
    t.update(key(), false, 5000, 1001, TCP_SYN | TCP_ACK, b"", 100, 0);
    assert_eq!(t.state_of(key()), Some(TcpState::Established));
    t.prune(301);
    assert_eq!(t.entries.len(), 1);
}

#[test]
fn update_on_unknown_key_changes_nothing() {
    let mut t = StreamTable::new();
    let found = t.update(key(), true, 1, 2, 0, b"x", 10, 0);
    assert!(!found);
    assert!(t.entries.is_empty());
}

#[test]
fn lookup_or_create_is_idempotent() {
    let mut t = StreamTable::new();
    t.lookup_or_create(key(), 1000, 5000, 0);
    t.lookup_or_create(key(), 1234, 9999, 7);
    assert_eq!(t.entries.len(), 1);
    assert_eq!(t.entries[0].1.client_isn, 1000);
}
