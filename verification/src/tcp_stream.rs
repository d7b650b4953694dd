//! One TCP connection: finite-state machine, per-direction sequence
//! tracking, and strictly in-order payload accumulation.
//!
//! Payload bytes are appended to a direction's buffer only when the
//! segment's sequence number equals that direction's next-expected value;
//! out-of-order and retransmitted segments are dropped without buffering.
//! This strict in-order-only acceptance (no reorder buffer, no
//! retransmission handling) is a deliberate, documented design choice.

use vstd::prelude::*;
use vstd::arithmetic::div_mod::{
    lemma_add_mod_noop, lemma_add_mod_noop_right, lemma_mod_sub_multiples_vanish, lemma_small_mod,
};

verus! {

/// TCP flag bits as they appear in the header's flag byte.
pub const TCP_FIN: u8 = 0x01;
pub const TCP_SYN: u8 = 0x02;
pub const TCP_RST: u8 = 0x04;
pub const TCP_PSH: u8 = 0x08;
pub const TCP_ACK: u8 = 0x10;
pub const TCP_URG: u8 = 0x20;

/// Seconds a connection may sit in `TimeWait` before it is considered closed.
pub const TIME_WAIT_LIMIT_SECS: u64 = 120;

/// The connection's position in the TCP finite-state machine.
#[derive(Clone, Copy, Debug, PartialEq, Eq, Structural)]
pub enum TcpState {
    Listen,
    SynSent,
    SynReceived,
    Established,
    FinWait1,
    FinWait2,
    CloseWait,
    Closing,
    LastAck,
    TimeWait,
    Closed,
}

/// Mathematical image of a [`TcpStream`]: the same fields, with the byte
/// buffers abstracted to sequences.
#[verifier::ext_equal]
pub ghost struct StreamModel {
    pub state: TcpState,
    pub client_isn: u32,
    pub server_isn: u32,
    pub client_next_seq: u32,
    pub server_next_seq: u32,
    pub client_data: Seq<u8>,
    pub server_data: Seq<u8>,
    pub last_activity: u64,
    pub client_window: u16,
    pub server_window: u16,
    pub client_mss: u16,
    pub server_mss: u16,
}

/// State kept for one live TCP connection.
pub struct TcpStream {
    pub state: TcpState,
    pub client_isn: u32,
    pub server_isn: u32,
    pub client_next_seq: u32,
    pub server_next_seq: u32,
    pub client_data: Vec<u8>,
    pub server_data: Vec<u8>,
    /// Seconds-since-epoch timestamp of the last observed segment.
    pub last_activity: u64,
    pub client_window: u16,
    pub server_window: u16,
    pub client_mss: u16,
    pub server_mss: u16,
}

impl View for TcpStream {
    type V = StreamModel;

    open spec fn view(&self) -> StreamModel {
        StreamModel {
            state: self.state,
            client_isn: self.client_isn,
            server_isn: self.server_isn,
            client_next_seq: self.client_next_seq,
            server_next_seq: self.server_next_seq,
            client_data: self.client_data@,
            server_data: self.server_data@,
            last_activity: self.last_activity,
            client_window: self.client_window,
            server_window: self.server_window,
            client_mss: self.client_mss,
            server_mss: self.server_mss,
        }
    }
}

/// Advance a 32-bit sequence number by `n` bytes, wrapping modulo `2^32`.
pub open spec fn seq_add(a: u32, n: nat) -> u32 {
    (((a as nat) + n) % 0x1_0000_0000) as u32
}

/// The transition table of the state machine.  A pattern matches only when
/// the segment's flag byte equals it exactly: a segment carrying flags
/// beyond the pattern does not take the transition.  `timewait_expired`
/// reports whether more than [`TIME_WAIT_LIMIT_SECS`] have elapsed since
/// the entry's last activity at the moment the transition is evaluated.
pub open spec fn next_state(s: TcpState, flags: u8, timewait_expired: bool) -> TcpState {
    match s {
        TcpState::Listen => if flags == TCP_SYN { TcpState::SynReceived } else { s },
        TcpState::SynSent => if flags == (TCP_SYN | TCP_ACK) { TcpState::Established } else { s },
        TcpState::SynReceived => if flags == TCP_ACK { TcpState::Established } else { s },
        TcpState::Established => if flags == TCP_FIN { TcpState::FinWait1 } else { s },
        TcpState::FinWait1 => if flags == (TCP_FIN | TCP_ACK) { TcpState::FinWait2 } else { s },
        TcpState::FinWait2 => if flags == TCP_ACK { TcpState::TimeWait } else { s },
        TcpState::CloseWait => if flags == TCP_FIN { TcpState::LastAck } else { s },
        TcpState::LastAck => if flags == TCP_ACK { TcpState::Closed } else { s },
        TcpState::TimeWait => if timewait_expired { TcpState::Closed } else { s },
        TcpState::Closing => s,
        TcpState::Closed => s,
    }
}

/// The state a fresh entry starts in: created on the client's opening SYN,
/// so the client's next expected byte is one past its initial sequence
/// number, while the server side starts at the given initial value.
pub open spec fn spec_new(client_isn: u32, server_isn: u32, now: u64) -> StreamModel {
    StreamModel {
        state: TcpState::SynSent,
        client_isn: client_isn,
        server_isn: server_isn,
        client_next_seq: seq_add(client_isn, 1),
        server_next_seq: server_isn,
        client_data: Seq::empty(),
        server_data: Seq::empty(),
        last_activity: now,
        client_window: 0,
        server_window: 0,
        client_mss: 1460,
        server_mss: 1460,
    }
}

/// What one observed segment does to a connection's state.
///
/// The activity timestamp is refreshed to `now` before anything else, so
/// the `TimeWait` expiry guard of [`next_state`] compares `now` against
/// itself and can never fire from inside an update; it is kept in the
/// table because expiry is part of the machine's definition.
pub open spec fn spec_update(
    m: StreamModel,
    is_from_client: bool,
    seq: u32,
    ack: u32,
    flags: u8,
    data: Seq<u8>,
    window: u16,
    now: u64,
) -> StreamModel {
    let accepted = if is_from_client { seq == m.client_next_seq } else { seq == m.server_next_seq };
    let acked = flags & TCP_ACK != 0;
    StreamModel {
        state: next_state(m.state, flags, false),
        client_isn: m.client_isn,
        server_isn: m.server_isn,
        client_next_seq: if is_from_client {
            if accepted { seq_add(m.client_next_seq, data.len()) } else { m.client_next_seq }
        } else {
            if acked { ack } else { m.client_next_seq }
        },
        server_next_seq: if is_from_client {
            if acked { ack } else { m.server_next_seq }
        } else {
            if accepted { seq_add(m.server_next_seq, data.len()) } else { m.server_next_seq }
        },
        client_data: if is_from_client && accepted { m.client_data + data } else { m.client_data },
        server_data: if !is_from_client && accepted { m.server_data + data } else { m.server_data },
        last_activity: now,
        client_window: if is_from_client { window } else { m.client_window },
        server_window: if is_from_client { m.server_window } else { window },
        client_mss: m.client_mss,
        server_mss: m.server_mss,
    }
}

/// Recording a negotiated maximum segment size for one direction.
pub open spec fn spec_set_mss(m: StreamModel, is_client: bool, mss: u16) -> StreamModel {
    StreamModel {
        state: m.state,
        client_isn: m.client_isn,
        server_isn: m.server_isn,
        client_next_seq: m.client_next_seq,
        server_next_seq: m.server_next_seq,
        client_data: m.client_data,
        server_data: m.server_data,
        last_activity: m.last_activity,
        client_window: m.client_window,
        server_window: m.server_window,
        client_mss: if is_client { mss } else { m.client_mss },
        server_mss: if is_client { m.server_mss } else { mss },
    }
}

/// Append every byte of `src` to `dst`.
pub(crate) fn append_bytes(dst: &mut Vec<u8>, src: &[u8])
    ensures
        final(dst)@ == old(dst)@ + src@,
{
    let mut i: usize = 0;
    while i < src.len()
        invariant
            i <= src.len(),
            dst@ == old(dst)@ + src@.take(i as int),
        decreases src.len() - i,
    {
        let b: u8 = src[i];
        dst.push(b);
        proof {
            assert(old(dst)@ + src@.take(i as int) + seq![src@[i as int]]
                =~= old(dst)@ + src@.take(i as int + 1));
        }
        i = i + 1;
    }
    proof {
        assert(src@.take(src@.len() as int) =~= src@);
    }
}

/// Reduce a byte count to 32 bits, keeping its value modulo `2^32`.
fn truncate_to_u32(len: usize) -> (r: u32)
    ensures
        r == (len as nat % 0x1_0000_0000) as u32,
{
    let len64: u64 = len as u64;
    let r: u32 = #[verifier::truncate] (len64 as u32);
    proof {
        assert((len64 as u32) as u64 == len64 % 0x1_0000_0000) by (bit_vector);
    }
    r
}

/// Evaluate one step of the transition table.
fn transition(s: TcpState, flags: u8, timewait_expired: bool) -> (r: TcpState)
    ensures
        r == next_state(s, flags, timewait_expired),
{
    match s {
        TcpState::Listen => if flags == TCP_SYN { TcpState::SynReceived } else { s },
        TcpState::SynSent => if flags == (TCP_SYN | TCP_ACK) { TcpState::Established } else { s },
        TcpState::SynReceived => if flags == TCP_ACK { TcpState::Established } else { s },
        TcpState::Established => if flags == TCP_FIN { TcpState::FinWait1 } else { s },
        TcpState::FinWait1 => if flags == (TCP_FIN | TCP_ACK) { TcpState::FinWait2 } else { s },
        TcpState::FinWait2 => if flags == TCP_ACK { TcpState::TimeWait } else { s },
        TcpState::CloseWait => if flags == TCP_FIN { TcpState::LastAck } else { s },
        TcpState::LastAck => if flags == TCP_ACK { TcpState::Closed } else { s },
        TcpState::TimeWait => if timewait_expired { TcpState::Closed } else { s },
        TcpState::Closing => s,
        TcpState::Closed => s,
    }
}

impl TcpStream {
    /// A fresh connection entry, created on observing the client's SYN.
    pub fn new(client_isn: u32, server_isn: u32, now: u64) -> (s: TcpStream)
        ensures
            s@ == spec_new(client_isn, server_isn, now),
    {
        let s = TcpStream {
            state: TcpState::SynSent,
            client_isn,
            server_isn,
            client_next_seq: client_isn.wrapping_add(1),
            server_next_seq: server_isn,
            client_data: Vec::new(),
            server_data: Vec::new(),
            last_activity: now,
            client_window: 0,
            server_window: 0,
            client_mss: 1460,
            server_mss: 1460,
        };
        proof {
            lemma_small_mod(1, 0x1_0000_0000);
            lemma_wrapping_is_seq_add(client_isn, 1);
            assert(s@ =~= spec_new(client_isn, server_isn, now));
        }
        s
    }

    /// Apply one observed segment: refresh the activity timestamp, accept
    /// payload only at the exact next-expected sequence number, track the
    /// peer's acknowledgment unconditionally when the ACK bit is set,
    /// record the advertised window, and take one step of the transition
    /// table.
    pub fn update(
        &mut self,
        is_from_client: bool,
        seq: u32,
        ack: u32,
        flags: u8,
        data: &[u8],
        window: u16,
        now: u64,
    )
        ensures
            final(self)@ == spec_update(old(self)@, is_from_client, seq, ack, flags, data@, window, now),
    {
        self.last_activity = now;

        if is_from_client {
            if seq == self.client_next_seq {
                append_bytes(&mut self.client_data, data);
                let n: u32 = truncate_to_u32(data.len());
                proof {
                    lemma_wrapping_is_seq_add(self.client_next_seq, data@.len());
                }
                self.client_next_seq = self.client_next_seq.wrapping_add(n);
            }
            if flags & TCP_ACK != 0 {
                self.server_next_seq = ack;
            }
            self.client_window = window;
        } else {
            if seq == self.server_next_seq {
                append_bytes(&mut self.server_data, data);
                let n: u32 = truncate_to_u32(data.len());
                proof {
                    lemma_wrapping_is_seq_add(self.server_next_seq, data@.len());
                }
                self.server_next_seq = self.server_next_seq.wrapping_add(n);
            }
            if flags & TCP_ACK != 0 {
                self.client_next_seq = ack;
            }
            self.server_window = window;
        }

        // The timestamp was refreshed above, so this elapsed time is zero
        // and the TimeWait expiry arm of the table cannot be taken here.
        let elapsed: u64 = now - self.last_activity;
        let expired = elapsed > TIME_WAIT_LIMIT_SECS;
        self.state = transition(self.state, flags, expired);

        proof {
            assert(self@ =~= spec_update(old(self)@, is_from_client, seq, ack, flags, data@, window, now));
        }
    }

    /// Record a negotiated MSS for one direction; no state-machine effect.
    pub fn set_mss(&mut self, is_client: bool, mss: u16)
        ensures
            final(self)@ == spec_set_mss(old(self)@, is_client, mss),
    {
        if is_client {
            self.client_mss = mss;
        } else {
            self.server_mss = mss;
        }
        proof {
            assert(self@ =~= spec_set_mss(old(self)@, is_client, mss));
        }
    }
}

/// Truncating a length to 32 bits and wrapping-adding it equals advancing
/// the sequence number by the untruncated length modulo `2^32`.
proof fn lemma_wrapping_is_seq_add(a: u32, n: nat)
    ensures
        vstd::wrapping::u32_specs::wrapping_add(a, (n % 0x1_0000_0000) as u32) == seq_add(a, n),
{
    let m: int = 0x1_0000_0000;
    let t: int = (n % 0x1_0000_0000) as int;
    lemma_add_mod_noop_right(a as int, n as int, m);
    if a + t > u32::MAX {
        lemma_mod_sub_multiples_vanish(a + t, m);
        lemma_small_mod((a + t - m) as nat, m as nat);
    } else {
        lemma_small_mod((a + t) as nat, m as nat);
    }
}

/// One observed segment, as spec-level data: the fields of a TCP segment
/// that [`spec_update`] reads.
pub ghost struct Segment {
    pub seq: u32,
    pub ack: u32,
    pub flags: u8,
    pub data: Seq<u8>,
    pub window: u16,
    pub now: u64,
}

/// The result of applying each segment in turn, all from the same direction.
pub open spec fn apply_segments(m: StreamModel, is_from_client: bool, segs: Seq<Segment>) -> StreamModel
    decreases segs.len(),
{
    if segs.len() == 0 {
        m
    } else {
        let s = segs[0];
        apply_segments(
            spec_update(m, is_from_client, s.seq, s.ack, s.flags, s.data, s.window, s.now),
            is_from_client,
            segs.drop_first(),
        )
    }
}

/// Every segment starts exactly where the previous one ended: the first
/// at `next0`, each later one at the predecessor's sequence number plus
/// its payload length, modulo `2^32`.
pub open spec fn strictly_in_order(next0: u32, segs: Seq<Segment>) -> bool
    decreases segs.len(),
{
    if segs.len() == 0 {
        true
    } else {
        segs[0].seq == next0
            && strictly_in_order(seq_add(next0, segs[0].data.len()), segs.drop_first())
    }
}

/// The concatenation of the segments' payloads, in order.
pub open spec fn concat_data(segs: Seq<Segment>) -> Seq<u8>
    decreases segs.len(),
{
    if segs.len() == 0 {
        Seq::empty()
    } else {
        segs[0].data + concat_data(segs.drop_first())
    }
}

/// The total payload length of the segments.
pub open spec fn total_data_len(segs: Seq<Segment>) -> nat
    decreases segs.len(),
{
    if segs.len() == 0 {
        0
    } else {
        segs[0].data.len() + total_data_len(segs.drop_first())
    }
}

/// Advancing a sequence number by two amounts in turn is advancing it by
/// their sum.
proof fn lemma_seq_add_assoc(a: u32, x: nat, y: nat)
    ensures
        seq_add(seq_add(a, x), y) == seq_add(a, x + y),
{
    let m: int = 0x1_0000_0000;
    lemma_add_mod_noop((a + x) as int, y as int, m);
    lemma_add_mod_noop_right((seq_add(a, x)) as int, y as int, m);
    lemma_small_mod(seq_add(a, x) as nat, m as nat);
}

/// Law: a run of strictly in-order segments for one direction accumulates
/// exactly the concatenation of their payload bytes, and leaves the
/// direction's next-expected sequence number at its starting value plus
/// the total accepted byte count, modulo `2^32`.
pub proof fn lemma_in_order_accumulation(m: StreamModel, is_from_client: bool, segs: Seq<Segment>)
    requires
        is_from_client ==> strictly_in_order(m.client_next_seq, segs),
        !is_from_client ==> strictly_in_order(m.server_next_seq, segs),
    ensures
        is_from_client ==> apply_segments(m, is_from_client, segs).client_data
            == m.client_data + concat_data(segs),
        is_from_client ==> apply_segments(m, is_from_client, segs).client_next_seq
            == seq_add(m.client_next_seq, total_data_len(segs)),
        !is_from_client ==> apply_segments(m, is_from_client, segs).server_data
            == m.server_data + concat_data(segs),
        !is_from_client ==> apply_segments(m, is_from_client, segs).server_next_seq
            == seq_add(m.server_next_seq, total_data_len(segs)),
    decreases segs.len(),
{
    let next0: u32 = if is_from_client { m.client_next_seq } else { m.server_next_seq };
    if segs.len() == 0 {
        assert(m.client_data + concat_data(segs) =~= m.client_data);
        assert(m.server_data + concat_data(segs) =~= m.server_data);
        lemma_small_mod(next0 as nat, 0x1_0000_0000);
    } else {
        let s = segs[0];
        let m1 = spec_update(m, is_from_client, s.seq, s.ack, s.flags, s.data, s.window, s.now);
        lemma_in_order_accumulation(m1, is_from_client, segs.drop_first());
        lemma_seq_add_assoc(next0, s.data.len(), total_data_len(segs.drop_first()));
        if is_from_client {
            assert(m.client_data + s.data + concat_data(segs.drop_first())
                =~= m.client_data + concat_data(segs));
        } else {
            assert(m.server_data + s.data + concat_data(segs.drop_first())
                =~= m.server_data + concat_data(segs));
        }
    }
}

/// Law: a segment whose sequence number is not the direction's current
/// next-expected value is never appended, and leaves that direction's
/// buffer and next-expected sequence number unchanged.
pub proof fn lemma_out_of_order_rejected(
    m: StreamModel,
    is_from_client: bool,
    seq: u32,
    ack: u32,
    flags: u8,
    data: Seq<u8>,
    window: u16,
    now: u64,
)
    requires
        is_from_client ==> seq != m.client_next_seq,
        !is_from_client ==> seq != m.server_next_seq,
    ensures
        is_from_client ==> spec_update(m, is_from_client, seq, ack, flags, data, window, now).client_data
            == m.client_data,
        is_from_client ==> spec_update(m, is_from_client, seq, ack, flags, data, window, now).client_next_seq
            == m.client_next_seq,
        !is_from_client ==> spec_update(m, is_from_client, seq, ack, flags, data, window, now).server_data
            == m.server_data,
        !is_from_client ==> spec_update(m, is_from_client, seq, ack, flags, data, window, now).server_next_seq
            == m.server_next_seq,
{
}

/// Law: re-delivering the identical segment right after it was accepted
/// does not append its payload a second time.  A non-empty accepted
/// payload advances the next-expected value, so the duplicate's sequence
/// number no longer matches; an empty payload is re-accepted but appends
/// nothing.  The payload must be shorter than `2^32`, or the advance
/// would wrap all the way around.
pub proof fn lemma_duplicate_segment_ignored(
    m: StreamModel,
    is_from_client: bool,
    seq: u32,
    ack: u32,
    flags: u8,
    data: Seq<u8>,
    window: u16,
    now: u64,
    now2: u64,
)
    requires
        is_from_client ==> seq == m.client_next_seq,
        !is_from_client ==> seq == m.server_next_seq,
        data.len() < 0x1_0000_0000,
    ensures
        ({
            let m1 = spec_update(m, is_from_client, seq, ack, flags, data, window, now);
            let m2 = spec_update(m1, is_from_client, seq, ack, flags, data, window, now2);
            &&& (is_from_client ==> m2.client_data == m1.client_data
                && m2.client_next_seq == m1.client_next_seq)
            &&& (!is_from_client ==> m2.server_data == m1.server_data
                && m2.server_next_seq == m1.server_next_seq)
        }),
{
    let msize: int = 0x1_0000_0000;
    let n: nat = data.len();
    if n == 0 {
        lemma_small_mod(seq as nat, msize as nat);
        let m1 = spec_update(m, is_from_client, seq, ack, flags, data, window, now);
        assert(m1.client_data + data =~= m1.client_data);
        assert(m1.server_data + data =~= m1.server_data);
    } else {
        // seq_add(seq, n) != seq when 0 < n < 2^32.
        if seq + n < msize {
            lemma_small_mod((seq + n) as nat, msize as nat);
        } else {
            lemma_mod_sub_multiples_vanish((seq + n) as int, msize);
            lemma_small_mod((seq + n - msize) as nat, msize as nat);
        }
    }
}

} // verus!
