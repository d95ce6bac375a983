//! Discovery traces: the query of each search and the tools it surfaced. They are kept in a
//! bounded ring (newest first on read) and replayed from the discovery log with stable ids.
//! Query text lives only here, never in the metadata-only call records.

use vstd::prelude::*;
use std::collections::VecDeque;
use crate::text::string_of;
use crate::history::{history_id, history_ids};
use crate::gateway::count_of;
use crate::calls::ring_after;

verus! {

/// One returned tool in a discovery trace: its namespaced name and its relevance score, held
/// as the bit pattern of the `f32` score (`f32::to_bits`).
#[derive(Debug, Clone, PartialEq)]
pub struct DiscoveryHit {
    pub name: String,
    pub score_bits: u32,
}

impl DiscoveryHit {
    /// A field-for-field copy.
    pub fn duplicate(&self) -> (r: DiscoveryHit)
        ensures
            r == *self,
    {
        DiscoveryHit { name: self.name.clone(), score_bits: self.score_bits }
    }
}

/// A copy of a list of hits.
fn copy_hits(hits: &Vec<DiscoveryHit>) -> (r: Vec<DiscoveryHit>)
    ensures
        r@ == hits@,
{
    let mut r: Vec<DiscoveryHit> = Vec::new();
    let mut i: usize = 0;
    while i < hits.len()
        invariant
            i <= hits@.len(),
            r@ == hits@.take(i as int),
        decreases hits@.len() - i,
    {
        r.push(hits[i].duplicate());
        proof {
            assert(r@ =~= hits@.take(i + 1));
        }
        i = i + 1;
    }
    proof {
        assert(hits@.take(hits@.len() as int) =~= hits@);
    }
    r
}

/// One search: the raw query and the tools it surfaced.
#[derive(Debug, Clone, PartialEq)]
pub struct DiscoveryRecord {
    pub ts_unix_ms: u64,
    pub query: String,
    pub top_k: usize,
    pub results: Vec<DiscoveryHit>,
    pub latency_ms: u64,
}

/// The mathematical content of a `DiscoveryRecord`.
pub struct TraceView {
    pub ts_unix_ms: u64,
    pub query: Seq<char>,
    pub top_k: usize,
    pub results: Seq<DiscoveryHit>,
    pub latency_ms: u64,
}

impl View for DiscoveryRecord {
    type V = TraceView;

    open spec fn view(&self) -> TraceView {
        TraceView {
            ts_unix_ms: self.ts_unix_ms,
            query: self.query@,
            top_k: self.top_k,
            results: self.results@,
            latency_ms: self.latency_ms,
        }
    }
}

impl DiscoveryRecord {
    /// A field-for-field copy.
    pub fn duplicate(&self) -> (r: DiscoveryRecord)
        ensures
            r@ == self@,
    {
        DiscoveryRecord {
            ts_unix_ms: self.ts_unix_ms,
            query: self.query.clone(),
            top_k: self.top_k,
            results: copy_hits(&self.results),
            latency_ms: self.latency_ms,
        }
    }
}

/// Fan-out target for discovery traces.
pub trait DiscoverySink {
    fn record(&self, rec: &DiscoveryRecord);
}

/// The views of a run of records.
pub open spec fn trace_views(rs: Seq<DiscoveryRecord>) -> Seq<TraceView> {
    rs.map_values(|r: DiscoveryRecord| r@)
}

/// The newest `limit` of `entries` (held oldest first), newest first.
pub open spec fn newest_first(entries: Seq<TraceView>, limit: nat) -> Seq<TraceView> {
    let rev = entries.reverse();
    if limit < rev.len() {
        rev.take(limit as int)
    } else {
        rev
    }
}

/// Bounded in-memory ring of recent discovery traces. When full, recording evicts the
/// oldest trace.
pub struct DiscoveryRingSink {
    cap: usize,
    ring: VecDeque<DiscoveryRecord>,
}

impl DiscoveryRingSink {
    #[verifier::type_invariant]
    spec fn bounded(&self) -> bool {
        1 <= self.cap && self.ring@.len() <= self.cap
    }

    /// The resident traces, oldest first.
    pub closed spec fn entries(&self) -> Seq<TraceView> {
        trace_views(self.ring@)
    }

    /// The most traces the ring holds.
    pub closed spec fn capacity(&self) -> nat {
        self.cap as nat
    }

    /// An empty ring holding at most `max(cap, 1)` traces.
    pub fn new(cap: usize) -> (r: DiscoveryRingSink)
        ensures
            r.entries() == Seq::<TraceView>::empty(),
            r.capacity() == (if cap == 0 { 1 } else { cap as nat }),
    {
        let cap = if cap == 0 { 1 } else { cap };
        let reserve = if cap < 1024 { cap } else { 1024 };
        let r = DiscoveryRingSink { cap, ring: VecDeque::with_capacity(reserve) };
        proof {
            assert(trace_views(r.ring@) =~= Seq::<TraceView>::empty());
        }
        r
    }

    /// Stores one trace, evicting the oldest when full.
    pub fn push(&mut self, rec: &DiscoveryRecord)
        ensures
            final(self).capacity() == old(self).capacity(),
            final(self).entries().len() <= final(self).capacity(),
            final(self).entries() == ring_after(old(self).entries(), old(self).capacity(), rec@),
    {
        proof {
            use_type_invariant(&*self);
        }
        let ghost before = self.ring@;
        let mut ring: VecDeque<DiscoveryRecord> = VecDeque::new();
        std::mem::swap(&mut ring, &mut self.ring);
        if ring.len() == self.cap {
            let _ = ring.pop_front();
        }
        ring.push_back(rec.duplicate());
        self.ring = ring;
        proof {
            let kept = if before.len() == self.cap {
                before.subrange(1, before.len() as int)
            } else {
                before
            };
            assert(self.ring@ == kept.push(self.ring@.last()));
            assert(trace_views(self.ring@) =~= trace_views(kept).push(rec@));
            if before.len() == self.cap {
                assert(trace_views(kept) =~= trace_views(before).subrange(1, before.len() as int));
            }
        }
    }

    /// The most recent traces, newest first, at most `limit` of them.
    pub fn recent(&self, limit: usize) -> (r: Vec<DiscoveryRecord>)
        ensures
            trace_views(r@) == newest_first(self.entries(), limit as nat),
    {
        let n = self.ring.len();
        let mut r: Vec<DiscoveryRecord> = Vec::new();
        let mut k: usize = 0;
        while k < n && k < limit
            invariant
                n == self.ring@.len(),
                k <= n,
                k <= limit,
                trace_views(r@) == trace_views(self.ring@).reverse().take(k as int),
            decreases n - k,
        {
            let rec = self.ring[n - 1 - k].duplicate();
            let ghost before = r@;
            r.push(rec);
            proof {
                let rev = trace_views(self.ring@).reverse();
                assert(rev[k as int] == self.ring@[n - 1 - k]@);
                assert(trace_views(r@) =~= trace_views(before).push(rec@));
                assert(trace_views(r@) =~= rev.take(k + 1));
            }
            k = k + 1;
        }
        proof {
            let rev = trace_views(self.ring@).reverse();
            assert(rev.len() == n);
            if !(limit < rev.len()) {
                assert(rev.take(k as int) =~= rev);
            }
        }
        r
    }
}

/// One trace replayed from the discovery log, under its stable id.
#[derive(Debug, Clone, PartialEq)]
pub struct TraceItem {
    pub id: String,
    pub ts_unix_ms: u64,
    pub query: String,
    pub top_k: usize,
    pub results: Vec<DiscoveryHit>,
    pub latency_ms: u64,
}

/// The timestamps of a run of records.
pub open spec fn trace_times(rs: Seq<DiscoveryRecord>) -> Seq<u64> {
    rs.map_values(|r: DiscoveryRecord| r.ts_unix_ms)
}

/// `it` is record `k` of `rs` under its stable id `h{ts}-{n}`, `n` counting the earlier
/// records with the same timestamp.
pub open spec fn replayed_trace(it: TraceItem, rs: Seq<DiscoveryRecord>, k: int) -> bool {
    let rec = rs[k];
    &&& it.id@ == history_id(rec.ts_unix_ms, count_of(trace_times(rs).take(k), rec.ts_unix_ms))
    &&& it.ts_unix_ms == rec.ts_unix_ms
    &&& it.query@ == rec.query@
    &&& it.top_k == rec.top_k
    &&& it.results@ == rec.results@
    &&& it.latency_ms == rec.latency_ms
}

/// The traces replayed from the discovery records (oldest first, as in the file), newest
/// first, each under its stable id.
pub fn replay_traces(records: Vec<DiscoveryRecord>) -> (r: Vec<TraceItem>)
    ensures
        r@.len() == records@.len(),
        forall|j: int| 0 <= j < r@.len() ==> replayed_trace(#[trigger] r@[j], records@, records@.len() - 1 - j),
{
    let n = records.len();
    let mut ts: Vec<u64> = Vec::new();
    let mut i: usize = 0;
    while i < n
        invariant
            n == records@.len(),
            i <= n,
            ts@ == trace_times(records@).take(i as int),
        decreases n - i,
    {
        ts.push(records[i].ts_unix_ms);
        proof {
            assert(ts@ =~= trace_times(records@).take(i + 1));
        }
        i = i + 1;
    }
    proof {
        assert(ts@ =~= trace_times(records@));
    }
    let ids = history_ids(&ts);
    let mut r: Vec<TraceItem> = Vec::new();
    let mut j: usize = 0;
    while j < n
        invariant
            n == records@.len(),
            j <= n,
            ts@ == trace_times(records@),
            ids@.len() == n,
            forall|k: int| 0 <= k < n ==> (#[trigger] ids@[k])@ == history_id(ts@[k], count_of(ts@.take(k), ts@[k])),
            r@.len() == j,
            forall|m: int| 0 <= m < j ==> replayed_trace(#[trigger] r@[m], records@, n - 1 - m),
        decreases n - j,
    {
        let k = n - 1 - j;
        let rec = &records[k];
        let item = TraceItem {
            id: ids[k].clone(),
            ts_unix_ms: rec.ts_unix_ms,
            query: rec.query.clone(),
            top_k: rec.top_k,
            results: copy_hits(&rec.results),
            latency_ms: rec.latency_ms,
        };
        r.push(item);
        proof {
            assert forall|m: int| 0 <= m < j + 1 implies replayed_trace(#[trigger] r@[m], records@, n - 1 - m) by {
                if m < j {
                    assert(r@[m] == r@.drop_last()[m]);
                }
            }
        }
        j = j + 1;
    }
    r
}

/// The traces response: where they came from, whether the history could be read, and the
/// traces, newest first.
pub struct TracesResponse {
    pub source: String,
    pub history_unavailable: bool,
    pub traces: Vec<DiscoveryRecord>,
}

/// The live traces response: the ring's newest `limit` traces, newest first; none when
/// tracing is off.
pub fn traces_live(ring: Option<&DiscoveryRingSink>, limit: usize) -> (r: TracesResponse)
    ensures
        r.source@ == "live"@,
        !r.history_unavailable,
        match ring {
            None => r.traces@.len() == 0,
            Some(g) => trace_views(r.traces@) == newest_first(g.entries(), limit as nat),
        },
{
    let traces = match ring {
        None => Vec::new(),
        Some(g) => g.recent(limit),
    };
    TracesResponse { source: string_of("live"), history_unavailable: false, traces }
}

/// The history traces response: `None` when no discovery log is configured; otherwise the
/// replayed traces (newest first) and whether the log could be read.
pub fn traces_history(replayed: Option<(Vec<DiscoveryRecord>, bool)>) -> (r: TracesResponse)
    ensures
        r.source@ == "history"@,
        match replayed {
            None => r.history_unavailable && r.traces@.len() == 0,
            Some((t, ok)) => r.history_unavailable == !ok && r.traces@ == t@,
        },
{
    match replayed {
        None => TracesResponse { source: string_of("history"), history_unavailable: true, traces: Vec::new() },
        Some((traces, ok)) => TracesResponse { source: string_of("history"), history_unavailable: !ok, traces },
    }
}

} // verus!
