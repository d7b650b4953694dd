//! The table of live TCP connections: lookup-or-create keyed by the
//! direction-normalized connection 4-tuple, per-segment update, and the
//! pruning sweep.
//!
//! The pruning rule keeps an entry when it is young *or* not yet closed:
//! an entry is removed only when it is both idle beyond the inactivity
//! bound and in the `Closed` state.  A connection that never reaches
//! `Closed` is therefore retained indefinitely; this asymmetry is kept
//! deliberately and is a known memory-growth limitation.

use vstd::prelude::*;
use crate::tcp_stream::{spec_new, spec_set_mss, spec_update, StreamModel, TcpState, TcpStream};

verus! {

/// Seconds of inactivity after which a `Closed` entry is pruned.
pub const IDLE_LIMIT_SECS: u64 = 300;

/// A TCP connection's identity: addresses and ports, with the client
/// side being whoever sent the opening SYN.  Addresses are IPv4, as
/// 32-bit big-endian integers.
#[derive(Clone, Copy, Debug, PartialEq, Eq, Structural)]
pub struct ConnKey {
    pub client_addr: u32,
    pub client_port: u16,
    pub server_addr: u32,
    pub server_port: u16,
}

/// Whole seconds elapsed from `then` to `now`; zero if time ran backwards.
pub open spec fn elapsed_secs(now: u64, then: u64) -> int {
    if now >= then { now - then } else { 0 }
}

/// The retention rule of the pruning sweep: keep an entry that is either
/// recently active or not yet in the `Closed` state.
pub open spec fn retained(m: StreamModel, now: u64) -> bool {
    elapsed_secs(now, m.last_activity) < IDLE_LIMIT_SECS || m.state != TcpState::Closed
}

/// The retention rule as a predicate on table entries.
pub open spec fn prune_pred(now: u64) -> spec_fn((ConnKey, StreamModel)) -> bool {
    |e: (ConnKey, StreamModel)| retained(e.1, now)
}

/// The mathematical image of a table: its entries in order, each stream
/// abstracted to its model.
pub open spec fn table_view(s: Seq<(ConnKey, TcpStream)>) -> Seq<(ConnKey, StreamModel)> {
    s.map_values(|e: (ConnKey, TcpStream)| (e.0, e.1@))
}

/// Index of the first entry with the given key, `-1` if there is none.
pub open spec fn key_index(t: Seq<(ConnKey, StreamModel)>, k: ConnKey) -> int
    decreases t.len(),
{
    if t.len() == 0 {
        -1
    } else if t[0].0 == k {
        0
    } else if key_index(t.drop_first(), k) < 0 {
        -1
    } else {
        1 + key_index(t.drop_first(), k)
    }
}

/// Whether some entry has the given key.
pub open spec fn table_contains(t: Seq<(ConnKey, StreamModel)>, k: ConnKey) -> bool {
    key_index(t, k) >= 0
}

/// The stream model stored under the given key (the first match).
pub open spec fn stream_of(t: Seq<(ConnKey, StreamModel)>, k: ConnKey) -> StreamModel {
    t[key_index(t, k)].1
}

/// `key_index` finds the first match: if no entry before `i` has the key
/// and `i` is a match (or the end), `key_index` answers `i` (or `-1`).
proof fn lemma_key_index_at(t: Seq<(ConnKey, StreamModel)>, k: ConnKey, i: int)
    requires
        0 <= i <= t.len(),
        forall|j: int| 0 <= j < i ==> (#[trigger] t[j]).0 != k,
        i == t.len() || t[i].0 == k,
    ensures
        i < t.len() ==> key_index(t, k) == i,
        i == t.len() ==> key_index(t, k) == -1,
    decreases t.len(),
{
    if t.len() == 0 {
    } else if t[0].0 == k {
        assert(i == 0);
    } else {
        assert(i >= 1);
        lemma_key_index_at(t.drop_first(), k, i - 1);
    }
}

/// A found index is in range, carries the key, and is the first to do so.
proof fn lemma_key_index_props(t: Seq<(ConnKey, StreamModel)>, k: ConnKey)
    requires
        key_index(t, k) >= 0,
    ensures
        key_index(t, k) < t.len(),
        t[key_index(t, k)].0 == k,
        forall|j: int| 0 <= j < key_index(t, k) ==> (#[trigger] t[j]).0 != k,
    decreases t.len(),
{
    if t.len() == 0 {
    } else if t[0].0 == k {
    } else {
        lemma_key_index_props(t.drop_first(), k);
        assert forall|j: int| 0 <= j < key_index(t, k) implies (#[trigger] t[j]).0 != k by {
            if j > 0 {
                assert(t.drop_first()[j - 1].0 != k);
            }
        }
    }
}

/// The table after `lookup_or_create`: unchanged when the key is present,
/// else extended at the end with a fresh entry.
pub open spec fn spec_lookup_or_create(
    t: Seq<(ConnKey, StreamModel)>,
    k: ConnKey,
    client_isn: u32,
    server_isn: u32,
    now: u64,
) -> Seq<(ConnKey, StreamModel)> {
    if table_contains(t, k) {
        t
    } else {
        t.push((k, spec_new(client_isn, server_isn, now)))
    }
}

/// The table after `update`: the entry under the key takes one step of
/// [`spec_update`], everything else is unchanged.
pub open spec fn spec_table_update(
    t: Seq<(ConnKey, StreamModel)>,
    k: ConnKey,
    is_from_client: bool,
    seq: u32,
    ack: u32,
    flags: u8,
    data: Seq<u8>,
    window: u16,
    now: u64,
) -> Seq<(ConnKey, StreamModel)> {
    t.map_values(
        |e: (ConnKey, StreamModel)|
            if e.0 == k {
                (k, spec_update(e.1, is_from_client, seq, ack, flags, data, window, now))
            } else {
                e
            },
    )
}

/// The table after `set_mss`: only the matching entry's MSS field moves.
pub open spec fn spec_table_set_mss(
    t: Seq<(ConnKey, StreamModel)>,
    k: ConnKey,
    is_client: bool,
    mss: u16,
) -> Seq<(ConnKey, StreamModel)> {
    t.map_values(
        |e: (ConnKey, StreamModel)|
            if e.0 == k {
                (k, spec_set_mss(e.1, is_client, mss))
            } else {
                e
            },
    )
}

/// The table after the pruning sweep: exactly the retained entries, in order.
pub open spec fn spec_prune(t: Seq<(ConnKey, StreamModel)>, now: u64) -> Seq<(ConnKey, StreamModel)> {
    t.filter(prune_pred(now))
}

/// The table of live connections.
pub struct StreamTable {
    pub entries: Vec<(ConnKey, TcpStream)>,
}

impl View for StreamTable {
    type V = Seq<(ConnKey, StreamModel)>;

    open spec fn view(&self) -> Seq<(ConnKey, StreamModel)> {
        table_view(self.entries@)
    }
}

impl StreamTable {
    /// No two entries share a key.
    pub open spec fn wf(&self) -> bool {
        forall|i: int, j: int|
            #![trigger self@[i], self@[j]]
            0 <= i < j < self@.len() ==> self@[i].0 != self@[j].0
    }

    /// An empty table.
    pub fn new() -> (t: StreamTable)
        ensures
            t@ == Seq::<(ConnKey, StreamModel)>::empty(),
            t.wf(),
    {
        let t = StreamTable { entries: Vec::new() };
        proof {
            assert(t@ =~= Seq::<(ConnKey, StreamModel)>::empty());
        }
        t
    }

    /// Index of the first entry with this key, if any.
    fn find(&self, key: ConnKey) -> (r: Option<usize>)
        ensures
            match r {
                Some(i) => i as int == key_index(self@, key) && i < self.entries@.len(),
                None => key_index(self@, key) == -1,
            },
    {
        let n = self.entries.len();
        let mut i: usize = 0;
        while i < n
            invariant
                i <= n,
                n == self.entries@.len(),
                forall|j: int| 0 <= j < i ==> (#[trigger] self@[j]).0 != key,
            decreases n - i,
        {
            let e = &self.entries[i];
            if e.0.client_addr == key.client_addr && e.0.client_port == key.client_port
                && e.0.server_addr == key.server_addr && e.0.server_port == key.server_port {
                proof {
                    assert(self@[i as int].0 == key);
                    lemma_key_index_at(self@, key, i as int);
                }
                return Some(i);
            }
            proof {
                assert(self@[i as int].0 != key);
            }
            i = i + 1;
        }
        proof {
            lemma_key_index_at(self@, key, n as int);
        }
        None
    }

    /// Whether the table holds an entry for this key.
    pub fn contains(&self, key: ConnKey) -> (b: bool)
        ensures
            b == table_contains(self@, key),
    {
        match self.find(key) {
            Some(_) => true,
            None => false,
        }
    }

    /// Locate the entry for `key`, creating a fresh one (client's SYN
    /// observed, initial sequence numbers as given) when none exists.
    pub fn lookup_or_create(&mut self, key: ConnKey, client_isn: u32, server_isn: u32, now: u64)
        requires
            old(self).wf(),
        ensures
            final(self).wf(),
            final(self)@ == spec_lookup_or_create(old(self)@, key, client_isn, server_isn, now),
            table_contains(final(self)@, key),
            table_contains(old(self)@, key) ==> stream_of(final(self)@, key) == stream_of(old(self)@, key),
            !table_contains(old(self)@, key) ==> stream_of(final(self)@, key) == spec_new(client_isn, server_isn, now),
    {
        match self.find(key) {
            Some(_) => {
                proof {
                    assert(self@ =~= spec_lookup_or_create(self@, key, client_isn, server_isn, now));
                }
            }
            None => {
                let s = TcpStream::new(client_isn, server_isn, now);
                self.entries.push((key, s));
                proof {
                    assert(self@ =~= old(self)@.push((key, spec_new(client_isn, server_isn, now))));
                    assert forall|j: int| 0 <= j < old(self)@.len() implies (#[trigger] old(self)@[j]).0 != key by {
                        if old(self)@[j].0 == key {
                            lemma_key_index_at(old(self)@, key, j);
                        }
                    }
                    assert forall|j: int| 0 <= j < old(self)@.len() implies (#[trigger] self@[j]).0 != key by {
                        assert(self@[j] == old(self)@[j]);
                    }
                    lemma_key_index_at(self@, key, old(self)@.len() as int);
                }
            }
        }
    }

    /// Apply one observed segment to the entry under `key`; reports
    /// whether such an entry exists.  Absent keys leave the table as it is.
    pub fn update(
        &mut self,
        key: ConnKey,
        is_from_client: bool,
        seq: u32,
        ack: u32,
        flags: u8,
        data: &[u8],
        window: u16,
        now: u64,
    ) -> (found: bool)
        requires
            old(self).wf(),
        ensures
            final(self).wf(),
            found == table_contains(old(self)@, key),
            final(self)@ == spec_table_update(old(self)@, key, is_from_client, seq, ack, flags, data@, window, now),
            table_contains(final(self)@, key) == table_contains(old(self)@, key),
            table_contains(old(self)@, key) ==> stream_of(final(self)@, key) == spec_update(
                stream_of(old(self)@, key), is_from_client, seq, ack, flags, data@, window, now,
            ),
    {
        let r = self.find(key);
        match r {
            None => {
                proof {
                    assert forall|j: int| 0 <= j < self@.len() implies (#[trigger] self@[j]).0 != key by {
                        if self@[j].0 == key {
                            lemma_key_index_at(self@, key, j);
                        }
                    }
                    assert(self@ =~= spec_table_update(self@, key, is_from_client, seq, ack, flags, data@, window, now));
                }
                false
            }
            Some(i) => {
                let (k, mut s) = self.entries.remove(i);
                s.update(is_from_client, seq, ack, flags, data, window, now);
                self.entries.insert(i, (k, s));
                proof {
                    let t0 = old(self)@;
                    let ii = i as int;
                    lemma_key_index_props(t0, key);
                    assert(self.entries@ =~= old(self).entries@.update(ii, (k, s)));
                    assert forall|j: int| 0 <= j < t0.len() && j != ii implies (#[trigger] t0[j]).0 != key by {
                        if t0[j].0 == key {
                            if j < ii {
                                assert(t0[j].0 != t0[ii].0);
                            } else {
                                assert(t0[ii].0 != t0[j].0);
                            }
                        }
                    }
                    assert(self@ =~= spec_table_update(t0, key, is_from_client, seq, ack, flags, data@, window, now));
                    assert forall|j: int| 0 <= j < ii implies (#[trigger] self@[j]).0 != key by {
                        assert(t0[j].0 != key);
                        assert(self@[j].0 == t0[j].0);
                    }
                    assert(self@[ii].0 == key);
                    lemma_key_index_at(self@, key, ii);
                    assert(stream_of(self@, key) == self@[ii].1);
                }
                true
            }
        }
    }

    /// Record a negotiated MSS on the entry under `key`, if present.
    pub fn set_mss(&mut self, key: ConnKey, is_client: bool, mss: u16)
        requires
            old(self).wf(),
        ensures
            final(self).wf(),
            final(self)@ == spec_table_set_mss(old(self)@, key, is_client, mss),
            table_contains(final(self)@, key) == table_contains(old(self)@, key),
            table_contains(old(self)@, key) ==> stream_of(final(self)@, key) == spec_set_mss(
                stream_of(old(self)@, key), is_client, mss,
            ),
    {
        let r = self.find(key);
        match r {
            None => {
                proof {
                    assert forall|j: int| 0 <= j < self@.len() implies (#[trigger] self@[j]).0 != key by {
                        if self@[j].0 == key {
                            lemma_key_index_at(self@, key, j);
                        }
                    }
                    assert(self@ =~= spec_table_set_mss(self@, key, is_client, mss));
                }
            }
            Some(i) => {
                let (k, mut s) = self.entries.remove(i);
                s.set_mss(is_client, mss);
                self.entries.insert(i, (k, s));
                proof {
                    let t0 = old(self)@;
                    let ii = i as int;
                    lemma_key_index_props(t0, key);
                    assert(self.entries@ =~= old(self).entries@.update(ii, (k, s)));
                    assert forall|j: int| 0 <= j < t0.len() && j != ii implies (#[trigger] t0[j]).0 != key by {
                        if t0[j].0 == key {
                            if j < ii {
                                assert(t0[j].0 != t0[ii].0);
                            } else {
                                assert(t0[ii].0 != t0[j].0);
                            }
                        }
                    }
                    assert(self@ =~= spec_table_set_mss(t0, key, is_client, mss));
                    assert forall|j: int| 0 <= j < ii implies (#[trigger] self@[j]).0 != key by {
                        assert(t0[j].0 != key);
                        assert(self@[j].0 == t0[j].0);
                    }
                    assert(self@[ii].0 == key);
                    lemma_key_index_at(self@, key, ii);
                    assert(stream_of(self@, key) == self@[ii].1);
                }
            }
        }
    }

    /// The pruning sweep: drop every entry that is both idle beyond
    /// [`IDLE_LIMIT_SECS`] and in the `Closed` state; keep all others.
    pub fn prune(&mut self, now: u64)
        requires
            old(self).wf(),
        ensures
            final(self).wf(),
            final(self)@ == spec_prune(old(self)@, now),
    {
        let ghost orig: Seq<(ConnKey, TcpStream)> = self.entries@;
        proof {
            assert forall|a: int, b: int|
                0 <= a < b < orig.len() implies (#[trigger] orig[a]).0 != (#[trigger] orig[b]).0 by {
                assert(old(self)@[a].0 == orig[a].0);
                assert(old(self)@[b].0 == orig[b].0);
            }
        }
        let n = self.entries.len();
        let mut kept: Vec<(ConnKey, TcpStream)> = Vec::new();
        let mut i: usize = 0;
        while i < n
            invariant
                i <= n,
                n == orig.len(),
                self.entries@ =~= orig.skip(i as int),
                table_view(kept@) =~= table_view(orig.take(i as int)).filter(prune_pred(now)),
                forall|a: int, b: int|
                    #![trigger orig[a], orig[b]]
                    0 <= a < b < orig.len() ==> orig[a].0 != orig[b].0,
                forall|a: int|
                    0 <= a < kept@.len() ==> exists|j: int|
                        0 <= j < i && orig[j].0 == (#[trigger] kept@[a]).0,
                forall|a: int, b: int|
                    #![trigger kept@[a], kept@[b]]
                    0 <= a < b < kept@.len() ==> kept@[a].0 != kept@[b].0,
            decreases n - i,
        {
            let (k, s) = self.entries.remove(0);
            proof {
                assert(orig.skip(i as int)[0] == orig[i as int]);
                assert(orig.skip(i as int).remove(0) =~= orig.skip(i as int + 1));
            }
            let ela: u64 = if now >= s.last_activity { now - s.last_activity } else { 0 };
            let keep = ela < IDLE_LIMIT_SECS || s.state != TcpState::Closed;
            let ghost prev_kept = kept@;
            proof {
                reveal_with_fuel(Seq::<_>::filter, 2);
                let pred = prune_pred(now);
                let prev = table_view(orig.take(i as int));
                let cur = table_view(orig.take(i as int + 1));
                assert(cur =~= prev.push((k, s@)));
                assert(cur.drop_last() =~= prev);
                assert(cur.last() == (k, s@));
                assert(keep == pred((k, s@)));
                assert(cur.filter(pred) == if pred((k, s@)) {
                    prev.filter(pred).push((k, s@))
                } else {
                    prev.filter(pred)
                });
                assert forall|a: int| 0 <= a < kept@.len() implies (#[trigger] kept@[a]).0 != k by {
                    let j = choose|j: int| 0 <= j < i && orig[j].0 == kept@[a].0;
                    assert(orig[j].0 != orig[i as int].0);
                }
            }
            if keep {
                kept.push((k, s));
                proof {
                    assert(table_view(kept@) =~= table_view(prev_kept).push((k, s@)));
                    assert(orig[i as int].0 == k);
                }
            }
            i = i + 1;
        }
        proof {
            assert(orig.take(n as int) =~= orig);
        }
        self.entries = kept;
    }

    /// The FSM state of the entry under `key`, if present.
    pub fn state_of(&self, key: ConnKey) -> (r: Option<TcpState>)
        ensures
            table_contains(self@, key) ==> r == Some(stream_of(self@, key).state),
            !table_contains(self@, key) ==> r == None::<TcpState>,
    {
        match self.find(key) {
            None => None,
            Some(i) => {
                proof {
                    lemma_key_index_props(self@, key);
                }
                let e = &self.entries[i];
                Some(e.1.state)
            }
        }
    }

    /// The direction's next-expected sequence number, if the key is present.
    pub fn next_seq_of(&self, key: ConnKey, from_client: bool) -> (r: Option<u32>)
        ensures
            table_contains(self@, key) ==> r == Some(
                if from_client { stream_of(self@, key).client_next_seq } else { stream_of(self@, key).server_next_seq },
            ),
            !table_contains(self@, key) ==> r == None::<u32>,
    {
        match self.find(key) {
            None => None,
            Some(i) => {
                proof {
                    lemma_key_index_props(self@, key);
                }
                let e = &self.entries[i];
                if from_client {
                    Some(e.1.client_next_seq)
                } else {
                    Some(e.1.server_next_seq)
                }
            }
        }
    }

    /// A copy of the leading bytes (at most `max`) of one direction's
    /// accumulated payload; empty when the key is absent.
    pub fn payload_prefix(&self, key: ConnKey, from_client: bool, max: usize) -> (v: Vec<u8>)
        ensures
            table_contains(self@, key) ==> v@ == ({
                let buf = if from_client { stream_of(self@, key).client_data } else { stream_of(self@, key).server_data };
                buf.take(if max <= buf.len() { max as int } else { buf.len() as int })
            }),
            !table_contains(self@, key) ==> v@ == Seq::<u8>::empty(),
    {
        let mut v: Vec<u8> = Vec::new();
        match self.find(key) {
            None => {
                proof {
                    assert(v@ =~= Seq::<u8>::empty());
                }
                v
            }
            Some(i) => {
                proof {
                    lemma_key_index_props(self@, key);
                }
                let e = &self.entries[i];
                let buf = if from_client { &e.1.client_data } else { &e.1.server_data };
                let end = if max <= buf.len() { max } else { buf.len() };
                let mut j: usize = 0;
                while j < end
                    invariant
                        j <= end,
                        end <= buf@.len(),
                        v@ =~= buf@.take(j as int),
                    decreases end - j,
                {
                    let b: u8 = buf[j];
                    v.push(b);
                    proof {
                        assert(buf@.take(j as int).push(buf@[j as int]) =~= buf@.take(j as int + 1));
                    }
                    j = j + 1;
                }
                v
            }
        }
    }
}

} // verus!
