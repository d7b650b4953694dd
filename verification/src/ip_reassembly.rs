//! IPv4 fragment reassembly: fragment sets keyed by the datagram's
//! identity, completed by exact tiling of the byte range, and discarded
//! after a timeout.
//!
//! Chosen overlap policy (the underlying behaviour is undefined and had
//! to be fixed deterministically): a fragment whose offset is already
//! present is ignored outright (first writer wins), and a set completes
//! only when its fragments tile the range from zero exactly, so
//! partially overlapping fragments keep a set incomplete until it times
//! out.  A fragment that would end past the largest possible datagram
//! (65535 bytes) is dropped.

use vstd::prelude::*;
use crate::ip_header::Ipv4Header;
use crate::stream_table::elapsed_secs;
use crate::tcp_stream::append_bytes;

verus! {

/// Largest byte length an IPv4 datagram can have.
pub const MAX_DATAGRAM_LEN: u32 = 65535;

/// Identity of the datagram a fragment belongs to.
#[derive(Clone, Copy, Debug, PartialEq, Eq, Structural)]
pub struct FragKey {
    pub src: u32,
    pub dst: u32,
    pub protocol: u8,
    pub ident: u16,
}

/// The datagram identity carried by an IPv4 header.
pub open spec fn frag_key_of(h: Ipv4Header) -> FragKey {
    FragKey { src: h.src, dst: h.dst, protocol: h.protocol, ident: h.ident }
}

/// A fragment's byte offset within the whole datagram.
pub open spec fn frag_offset_bytes(h: Ipv4Header) -> u32 {
    (h.frag_offset_units * 8) as u32
}

/// One received fragment.
pub struct Fragment {
    /// Byte offset within the whole datagram.
    pub offset: u32,
    /// The more-fragments flag: clear only on the final fragment.
    pub more: bool,
    pub payload: Vec<u8>,
}

/// Mathematical image of a [`Fragment`].
#[verifier::ext_equal]
pub ghost struct FragModel {
    pub offset: u32,
    pub more: bool,
    pub payload: Seq<u8>,
}

impl View for Fragment {
    type V = FragModel;

    open spec fn view(&self) -> FragModel {
        FragModel { offset: self.offset, more: self.more, payload: self.payload@ }
    }
}

/// One datagram in the middle of reassembly.
pub struct FragSet {
    /// When the first fragment of this set was seen.
    pub first_seen: u64,
    pub frags: Vec<Fragment>,
}

/// Mathematical image of a [`FragSet`].
#[verifier::ext_equal]
pub ghost struct SetModel {
    pub first_seen: u64,
    pub frags: Seq<FragModel>,
}

impl View for FragSet {
    type V = SetModel;

    open spec fn view(&self) -> SetModel {
        SetModel { first_seen: self.first_seen, frags: self.frags@.map_values(|f: Fragment| f@) }
    }
}

/// Fragments held in strictly increasing offset order.
pub open spec fn sorted(frags: Seq<FragModel>) -> bool {
    forall|a: int, b: int|
        #![trigger frags[a], frags[b]]
        0 <= a < b < frags.len() ==> frags[a].offset < frags[b].offset
}

/// Every fragment ends within the largest possible datagram.
pub open spec fn bounded(frags: Seq<FragModel>) -> bool {
    forall|a: int|
        0 <= a < frags.len() ==> (#[trigger] frags[a]).offset + frags[a].payload.len()
            <= MAX_DATAGRAM_LEN
}

/// A set is complete exactly when its fragments tile the datagram: the
/// first starts at offset zero, each further one starts where its
/// predecessor ended, and the last carries a clear more-fragments flag.
pub open spec fn complete(frags: Seq<FragModel>) -> bool {
    &&& frags.len() > 0
    &&& frags[0].offset == 0
    &&& forall|a: int|
        0 <= a < frags.len() - 1 ==> (#[trigger] frags[a + 1]).offset == frags[a].offset
            + frags[a].payload.len()
    &&& !frags[frags.len() - 1].more
}

/// The fragments' payload bytes, concatenated in order.
pub open spec fn concat_payloads(frags: Seq<FragModel>) -> Seq<u8>
    decreases frags.len(),
{
    if frags.len() == 0 {
        Seq::empty()
    } else {
        concat_payloads(frags.drop_last()) + frags.last().payload
    }
}

/// Insert a fragment at its offset-sorted position; a fragment whose
/// offset is already present leaves the set unchanged (first writer
/// wins).
pub open spec fn insert_frag(frags: Seq<FragModel>, f: FragModel) -> Seq<FragModel>
    decreases frags.len(),
{
    if frags.len() == 0 {
        seq![f]
    } else if f.offset < frags[0].offset {
        seq![f] + frags
    } else if f.offset == frags[0].offset {
        frags
    } else {
        seq![frags[0]] + insert_frag(frags.drop_first(), f)
    }
}

/// Index of the first set with the given key, `-1` if there is none.
pub open spec fn set_index(t: Seq<(FragKey, SetModel)>, k: FragKey) -> int
    decreases t.len(),
{
    if t.len() == 0 {
        -1
    } else if t[0].0 == k {
        0
    } else if set_index(t.drop_first(), k) < 0 {
        -1
    } else {
        1 + set_index(t.drop_first(), k)
    }
}

/// The retention rule of the sweep: a set is kept while its age does not
/// exceed the reassembly timeout.
pub open spec fn sweep_pred(now: u64, timeout: u64) -> spec_fn((FragKey, SetModel)) -> bool {
    |e: (FragKey, SetModel)| elapsed_secs(now, e.1.first_seen) <= timeout
}

/// The sets after a sweep: exactly the young-enough ones, in order.
pub open spec fn spec_sweep(t: Seq<(FragKey, SetModel)>, now: u64, timeout: u64) -> Seq<
    (FragKey, SetModel),
> {
    t.filter(sweep_pred(now, timeout))
}

/// What ingesting one fragment does, after the sweep: an unfragmented
/// datagram passes straight through; an oversized fragment is dropped;
/// otherwise the fragment joins its set (created if absent), and when
/// the set becomes complete it is removed and its bytes are the result.
pub open spec fn spec_ingest(
    t: Seq<(FragKey, SetModel)>,
    key: FragKey,
    offset: u32,
    more: bool,
    payload: Seq<u8>,
    now: u64,
    timeout: u64,
) -> (Seq<(FragKey, SetModel)>, Option<Seq<u8>>) {
    let s = spec_sweep(t, now, timeout);
    if offset == 0 && !more {
        (s, Some(payload))
    } else if offset + payload.len() > MAX_DATAGRAM_LEN {
        (s, None)
    } else {
        let f = FragModel { offset, more, payload };
        let i = set_index(s, key);
        if i < 0 {
            (s.push((key, SetModel { first_seen: now, frags: seq![f] })), None)
        } else {
            let nf = insert_frag(s[i].1.frags, f);
            if complete(nf) {
                (s.remove(i), Some(concat_payloads(nf)))
            } else {
                (s.update(i, (key, SetModel { first_seen: s[i].1.first_seen, frags: nf })), None)
            }
        }
    }
}

/// `set_index` finds the first match: if no entry before `i` has the key
/// and `i` is a match (or the end), `set_index` answers `i` (or `-1`).
proof fn lemma_set_index_at(t: Seq<(FragKey, SetModel)>, k: FragKey, i: int)
    requires
        0 <= i <= t.len(),
        forall|j: int| 0 <= j < i ==> (#[trigger] t[j]).0 != k,
        i == t.len() || t[i].0 == k,
    ensures
        i < t.len() ==> set_index(t, k) == i,
        i == t.len() ==> set_index(t, k) == -1,
    decreases t.len(),
{
    if t.len() == 0 {
    } else if t[0].0 == k {
        assert(i == 0);
    } else {
        assert(i >= 1);
        lemma_set_index_at(t.drop_first(), k, i - 1);
    }
}

/// A found index is in range and carries the key.
proof fn lemma_set_index_props(t: Seq<(FragKey, SetModel)>, k: FragKey)
    requires
        set_index(t, k) >= 0,
    ensures
        set_index(t, k) < t.len(),
        t[set_index(t, k)].0 == k,
    decreases t.len(),
{
    if t.len() == 0 {
    } else if t[0].0 == k {
    } else {
        lemma_set_index_props(t.drop_first(), k);
    }
}

/// Inserting at the scanned position realizes [`insert_frag`]: with all
/// offsets before `p` smaller and the one at `p` (if any) not smaller,
/// the result is the set unchanged on an offset already present, else
/// the sequence with the fragment placed at `p`.
proof fn lemma_insert_frag_at(frags: Seq<FragModel>, f: FragModel, p: int)
    requires
        sorted(frags),
        0 <= p <= frags.len(),
        forall|a: int| 0 <= a < p ==> (#[trigger] frags[a]).offset < f.offset,
        p < frags.len() ==> frags[p].offset >= f.offset,
    ensures
        p < frags.len() && frags[p].offset == f.offset ==> insert_frag(frags, f) == frags,
        !(p < frags.len() && frags[p].offset == f.offset) ==> insert_frag(frags, f) == frags.insert(
            p,
            f,
        ),
    decreases frags.len(),
{
    if frags.len() == 0 {
        assert(insert_frag(frags, f) =~= frags.insert(0, f));
    } else if f.offset < frags[0].offset {
        assert(p == 0);
        assert(insert_frag(frags, f) =~= frags.insert(0, f));
    } else if f.offset == frags[0].offset {
        assert(p == 0);
    } else {
        assert(p >= 1);
        let rest = frags.drop_first();
        assert forall|a: int, b: int|
            0 <= a < b < rest.len() implies (#[trigger] rest[a]).offset < (#[trigger] rest[b]).offset by {
            assert(frags[a + 1].offset < frags[b + 1].offset);
        }
        assert forall|a: int| 0 <= a < p - 1 implies (#[trigger] rest[a]).offset < f.offset by {
            assert(frags[a + 1].offset < f.offset);
        }
        lemma_insert_frag_at(rest, f, p - 1);
        if p - 1 < rest.len() && rest[p - 1].offset == f.offset {
            assert(seq![frags[0]] + rest =~= frags);
        } else {
            assert(seq![frags[0]] + rest.insert(p - 1, f) =~= frags.insert(p, f));
        }
    }
}

/// Place one fragment at its offset-sorted position, realizing
/// [`insert_frag`]: a fragment at an offset already present is ignored.
fn insert_sorted(frags: &mut Vec<Fragment>, offset: u32, more: bool, payload: &[u8])
    requires
        sorted(old(frags)@.map_values(|f: Fragment| f@)),
        bounded(old(frags)@.map_values(|f: Fragment| f@)),
        offset + payload@.len() <= MAX_DATAGRAM_LEN,
    ensures
        final(frags)@.map_values(|f: Fragment| f@) == insert_frag(
            old(frags)@.map_values(|f: Fragment| f@),
            (FragModel { offset, more, payload: payload@ }),
        ),
        sorted(final(frags)@.map_values(|f: Fragment| f@)),
        bounded(final(frags)@.map_values(|f: Fragment| f@)),
        final(frags)@.len() > 0,
{
    let ghost oldfrags = frags@.map_values(|f: Fragment| f@);
    let ghost f = FragModel { offset, more, payload: payload@ };
    let m = frags.len();
    let mut p: usize = 0;
    while p < m && frags[p].offset < offset
        invariant
            p <= m,
            m == frags@.len(),
            oldfrags == frags@.map_values(|f: Fragment| f@),
            forall|a: int| 0 <= a < p ==> (#[trigger] oldfrags[a]).offset < offset,
        decreases m - p,
    {
        proof {
            assert(oldfrags[p as int].offset < offset);
        }
        p = p + 1;
    }
    let duplicate = p < m && frags[p].offset == offset;
    proof {
        assert(p < m ==> oldfrags[p as int].offset >= offset);
        lemma_insert_frag_at(oldfrags, f, p as int);
    }
    if !duplicate {
        let frag = Fragment {
            offset,
            more,
            payload: crate::ip_header::copy_range(payload, 0, payload.len()),
        };
        proof {
            assert(payload@.subrange(0, payload@.len() as int) =~= payload@);
            assert(frag@ == f);
        }
        frags.insert(p, frag);
        proof {
            let nf = insert_frag(oldfrags, f);
            assert(frags@.map_values(|fr: Fragment| fr@) =~= oldfrags.insert(p as int, f));
            oldfrags.insert_ensures(p as int, f);
            assert(p < m ==> oldfrags[p as int].offset > offset);
            assert forall|a: int, b: int|
                0 <= a < b < nf.len() implies (#[trigger] nf[a]).offset < (#[trigger] nf[b]).offset by {
                if b < p {
                } else if a < p && b == p {
                } else if a < p && b > p {
                    assert(nf[b] == oldfrags[b - 1]);
                } else if a == p {
                    assert(nf[b] == oldfrags[b - 1]);
                    assert(oldfrags[b - 1].offset >= oldfrags[p as int].offset);
                } else {
                    assert(nf[a] == oldfrags[a - 1]);
                    assert(nf[b] == oldfrags[b - 1]);
                }
            }
        }
    }
}

/// Check whether a fragment set tiles its datagram completely.
fn is_complete(frags: &Vec<Fragment>) -> (r: bool)
    requires
        bounded(frags@.map_values(|f: Fragment| f@)),
    ensures
        r == complete(frags@.map_values(|f: Fragment| f@)),
{
    let ghost m = frags@.map_values(|f: Fragment| f@);
    let n = frags.len();
    if n == 0 {
        return false;
    }
    if frags[0].offset != 0 {
        return false;
    }
    let mut a: usize = 0;
    while a < n - 1
        invariant
            0 <= a <= n - 1,
            n == frags@.len(),
            n > 0,
            m == frags@.map_values(|f: Fragment| f@),
            bounded(m),
            forall|b: int|
                0 <= b < a ==> (#[trigger] m[b + 1]).offset == m[b].offset + m[b].payload.len(),
        decreases n - 1 - a,
    {
        let prev = &frags[a];
        proof {
            assert(m[a as int].offset + m[a as int].payload.len() <= MAX_DATAGRAM_LEN);
            assert(m[a as int] == prev@);
        }
        let end: u32 = prev.offset + (prev.payload.len() as u32);
        if frags[a + 1].offset != end {
            proof {
                assert(m[a as int + 1] == frags@[a as int + 1]@);
                assert(m[a as int + 1].offset != m[a as int].offset + m[a as int].payload.len());
            }
            return false;
        }
        a = a + 1;
    }
    !frags[n - 1].more
}

/// Concatenate the fragments' payloads in order.
fn assemble(frags: &Vec<Fragment>) -> (out: Vec<u8>)
    ensures
        out@ == concat_payloads(frags@.map_values(|f: Fragment| f@)),
{
    let ghost m = frags@.map_values(|f: Fragment| f@);
    let mut out: Vec<u8> = Vec::new();
    let n = frags.len();
    let mut i: usize = 0;
    while i < n
        invariant
            i <= n,
            n == frags@.len(),
            m == frags@.map_values(|f: Fragment| f@),
            out@ == concat_payloads(m.take(i as int)),
        decreases n - i,
    {
        let fr = &frags[i];
        append_bytes(&mut out, fr.payload.as_slice());
        proof {
            assert(m.take(i as int + 1).drop_last() =~= m.take(i as int));
            assert(m.take(i as int + 1).last() == m[i as int]);
        }
        i = i + 1;
    }
    proof {
        assert(m.take(n as int) =~= m);
    }
    out
}

/// The reassembly buffer: one entry per datagram currently in flight.
pub struct IpReassembler {
    pub sets: Vec<(FragKey, FragSet)>,
    /// Seconds a set may wait for completion before it is discarded.
    pub timeout_secs: u64,
}

/// The mathematical image of the reassembly buffer's entries.
pub open spec fn reasm_view(s: Seq<(FragKey, FragSet)>) -> Seq<(FragKey, SetModel)> {
    s.map_values(|e: (FragKey, FragSet)| (e.0, e.1@))
}

impl View for IpReassembler {
    type V = Seq<(FragKey, SetModel)>;

    open spec fn view(&self) -> Seq<(FragKey, SetModel)> {
        reasm_view(self.sets@)
    }
}

impl IpReassembler {
    /// Keys are unique and every set is non-empty, offset-sorted and
    /// within datagram bounds.
    pub open spec fn wf(&self) -> bool {
        &&& forall|i: int, j: int|
            #![trigger self@[i], self@[j]]
            0 <= i < j < self@.len() ==> self@[i].0 != self@[j].0
        &&& forall|i: int|
            0 <= i < self@.len() ==> (#[trigger] self@[i]).1.frags.len() > 0
                && sorted(self@[i].1.frags) && bounded(self@[i].1.frags)
    }

    /// An empty buffer with the given reassembly timeout.
    pub fn new(timeout_secs: u64) -> (r: IpReassembler)
        ensures
            r@ == Seq::<(FragKey, SetModel)>::empty(),
            r.timeout_secs == timeout_secs,
            r.wf(),
    {
        let r = IpReassembler { sets: Vec::new(), timeout_secs };
        proof {
            assert(r@ =~= Seq::<(FragKey, SetModel)>::empty());
        }
        r
    }

    /// Index of the first set with this key, if any.
    fn find(&self, key: FragKey) -> (r: Option<usize>)
        ensures
            match r {
                Some(i) => i as int == set_index(self@, key) && i < self.sets@.len(),
                None => set_index(self@, key) == -1,
            },
    {
        let n = self.sets.len();
        let mut i: usize = 0;
        while i < n
            invariant
                i <= n,
                n == self.sets@.len(),
                forall|j: int| 0 <= j < i ==> (#[trigger] self@[j]).0 != key,
            decreases n - i,
        {
            let e = &self.sets[i];
            if e.0.src == key.src && e.0.dst == key.dst && e.0.protocol == key.protocol
                && e.0.ident == key.ident {
                proof {
                    assert(self@[i as int].0 == key);
                    lemma_set_index_at(self@, key, i as int);
                }
                return Some(i);
            }
            proof {
                assert(self@[i as int].0 != key);
            }
            i = i + 1;
        }
        proof {
            lemma_set_index_at(self@, key, n as int);
        }
        None
    }

    /// Discard every set older than the reassembly timeout.  The discard
    /// is silent: a datagram that never completed is simply forgotten.
    pub fn sweep(&mut self, now: u64)
        requires
            old(self).wf(),
        ensures
            final(self).wf(),
            final(self)@ == spec_sweep(old(self)@, now, old(self).timeout_secs),
            final(self).timeout_secs == old(self).timeout_secs,
    {
        let ghost orig: Seq<(FragKey, FragSet)> = self.sets@;
        proof {
            assert forall|a: int, b: int|
                0 <= a < b < orig.len() implies (#[trigger] orig[a]).0 != (#[trigger] orig[b]).0 by {
                assert(old(self)@[a].0 == orig[a].0);
                assert(old(self)@[b].0 == orig[b].0);
            }
        }
        let n = self.sets.len();
        let timeout = self.timeout_secs;
        let mut kept: Vec<(FragKey, FragSet)> = Vec::new();
        let mut i: usize = 0;
        while i < n
            invariant
                i <= n,
                n == orig.len(),
                timeout == self.timeout_secs,
                self.sets@ =~= orig.skip(i as int),
                reasm_view(kept@) =~= reasm_view(orig.take(i as int)).filter(sweep_pred(now, timeout)),
                forall|a: int, b: int|
                    #![trigger orig[a], orig[b]]
                    0 <= a < b < orig.len() ==> orig[a].0 != orig[b].0,
                forall|a: int|
                    0 <= a < kept@.len() ==> exists|j: int|
                        0 <= j < i && #[trigger] kept@[a] == orig[j],
                forall|a: int, b: int|
                    #![trigger kept@[a], kept@[b]]
                    0 <= a < b < kept@.len() ==> kept@[a].0 != kept@[b].0,
                old(self).wf(),
                orig == old(self).sets@,
            decreases n - i,
        {
            let (k, s) = self.sets.remove(0);
            proof {
                assert(orig.skip(i as int)[0] == orig[i as int]);
                assert(orig.skip(i as int).remove(0) =~= orig.skip(i as int + 1));
            }
            let ela: u64 = if now >= s.first_seen { now - s.first_seen } else { 0 };
            let keep = ela <= timeout;
            let ghost prev_kept = kept@;
            proof {
                reveal_with_fuel(Seq::<_>::filter, 2);
                let pred = sweep_pred(now, timeout);
                let prev = reasm_view(orig.take(i as int));
                let cur = reasm_view(orig.take(i as int + 1));
                assert(cur =~= prev.push((k, s@)));
                assert(cur.drop_last() =~= prev);
                assert(cur.last() == (k, s@));
                assert(keep == pred((k, s@)));
                assert(cur.filter(pred) == if pred((k, s@)) {
                    prev.filter(pred).push((k, s@))
                } else {
                    prev.filter(pred)
                });
                assert forall|a: int| 0 <= a < kept@.len() implies (#[trigger] kept@[a]).0 != k by {
                    let j = choose|j: int| 0 <= j < i && kept@[a] == orig[j];
                    assert(orig[j].0 != orig[i as int].0);
                }
            }
            if keep {
                kept.push((k, s));
                proof {
                    assert(reasm_view(kept@) =~= reasm_view(prev_kept).push((k, s@)));
                    assert(orig[i as int].0 == k);
                }
            }
            i = i + 1;
        }
        proof {
            assert(orig.take(n as int) =~= orig);
        }
        self.sets = kept;
        proof {
            assert forall|a: int|
                0 <= a < self@.len() implies (#[trigger] self@[a]).1.frags.len() > 0
                && sorted(self@[a].1.frags) && bounded(self@[a].1.frags) by {
                let j = choose|j: int| 0 <= j < n && kept@[a] == orig[j];
                assert(old(self)@[j] == (orig[j].0, orig[j].1@));
                assert(self@[a] == old(self)@[j]);
            }
        }
    }

    /// Take in one fragment (or a whole unfragmented datagram) and yield
    /// the reassembled datagram when this completes one.  Stale sets are
    /// swept first.
    #[verifier::rlimit(100)]
    pub fn ingest_fragment(&mut self, header: &Ipv4Header, payload: &[u8], now: u64) -> (r: Option<
        (FragKey, Vec<u8>),
    >)
        requires
            old(self).wf(),
        ensures
            final(self).wf(),
            final(self).timeout_secs == old(self).timeout_secs,
            ({
                let (t2, out) = spec_ingest(
                    old(self)@,
                    frag_key_of(*header),
                    frag_offset_bytes(*header),
                    header.more_fragments,
                    payload@,
                    now,
                    old(self).timeout_secs,
                );
                final(self)@ == t2 && (match r {
                    Some(p) => out == Some(p.1@) && p.0 == frag_key_of(*header),
                    None => out is None,
                })
            }),
    {
        self.sweep(now);
        let key = FragKey {
            src: header.src,
            dst: header.dst,
            protocol: header.protocol,
            ident: header.ident,
        };
        let offset: u32 = (header.frag_offset_units as u32) * 8;
        if offset == 0 && !header.more_fragments {
            let out = crate::ip_header::copy_range(payload, 0, payload.len());
            proof {
                assert(payload@.subrange(0, payload@.len() as int) =~= payload@);
            }
            return Some((key, out));
        }
        if payload.len() > MAX_DATAGRAM_LEN as usize
            || offset as u64 + payload.len() as u64 > MAX_DATAGRAM_LEN as u64 {
            return None;
        }
        let ghost f = FragModel { offset, more: header.more_fragments, payload: payload@ };
        let ghost swept = self@;
        match self.find(key) {
            None => {
                let frag = Fragment {
                    offset,
                    more: header.more_fragments,
                    payload: crate::ip_header::copy_range(payload, 0, payload.len()),
                };
                proof {
                    assert(payload@.subrange(0, payload@.len() as int) =~= payload@);
                    assert(frag@ == f);
                }
                let set = FragSet { first_seen: now, frags: vec![frag] };
                proof {
                    assert(set@.frags =~= seq![f]);
                }
                self.sets.push((key, set));
                proof {
                    assert(self@ =~= swept.push((key, SetModel { first_seen: now, frags: seq![f] })));
                    assert forall|j: int| 0 <= j < swept.len() implies (#[trigger] swept[j]).0 != key by {
                        if swept[j].0 == key {
                            lemma_set_index_at(swept, key, j);
                        }
                    }
                }
                None
            }
            Some(i) => {
                proof {
                    lemma_set_index_props(swept, key);
                }
                let (k, mut fs) = self.sets.remove(i);
                let ghost oldfrags = fs@.frags;
                proof {
                    assert(sorted(oldfrags));
                    assert(bounded(oldfrags));
                }
                insert_sorted(&mut fs.frags, offset, header.more_fragments, payload);
                let ghost nf = insert_frag(oldfrags, f);
                proof {
                    assert(fs@.frags == nf);
                }
                if is_complete(&fs.frags) {
                    let out = assemble(&fs.frags);
                    proof {
                        assert(self@ =~= swept.remove(i as int));
                        swept.remove_ensures(i as int);
                        assert forall|a: int, b: int|
                            0 <= a < b < self@.len() implies (#[trigger] self@[a]).0 != (
                        #[trigger] self@[b]).0 by {
                            let a0: int = if a < i { a } else { a + 1 };
                            let b0: int = if b < i { b } else { b + 1 };
                            assert(self@[a] == swept[a0]);
                            assert(self@[b] == swept[b0]);
                        }
                        assert forall|a: int|
                            0 <= a < self@.len() implies (#[trigger] self@[a]).1.frags.len() > 0
                            && sorted(self@[a].1.frags) && bounded(self@[a].1.frags) by {
                            let a0: int = if a < i { a } else { a + 1 };
                            assert(self@[a] == swept[a0]);
                        }
                    }
                    Some((k, out))
                } else {
                    self.sets.insert(i, (k, fs));
                    proof {
                        assert(self@ =~= swept.update(
                            i as int,
                            (key, SetModel { first_seen: swept[i as int].1.first_seen, frags: nf }),
                        ));
                        assert forall|a: int, b: int|
                            0 <= a < b < self@.len() implies (#[trigger] self@[a]).0 != (
                        #[trigger] self@[b]).0 by {
                            assert(self@[a].0 == swept[a].0);
                            assert(self@[b].0 == swept[b].0);
                        }
                        assert forall|a: int|
                            0 <= a < self@.len() implies (#[trigger] self@[a]).1.frags.len() > 0
                            && sorted(self@[a].1.frags) && bounded(self@[a].1.frags) by {
                            if a != i {
                                assert(self@[a] == swept[a]);
                            }
                        }
                    }
                    None
                }
            }
        }
    }
}

} // verus!
