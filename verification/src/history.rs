//! Replaying the JSONL logs: the bounded tail of lines that is read, the stable ids of
//! replayed entries (`h{ts}-{n}`, `n` counting earlier entries with the same timestamp), the
//! calls list rebuilt from audit entries, and the audit metrics per time bucket. Reading the
//! file and parsing each line happen at the edge.

use vstd::prelude::*;
use std::collections::VecDeque;
use crate::text::{decimal, push_char, push_str, string_of, str_eq};
use crate::observe::{push_decimal, clone_opt_string, opt_view};
use crate::calls::{CallItem, CallFilter, ItemView, FilterView, filter_holds};
use crate::gateway::count_of;

verus! {

/// The last `limit` lines pushed (at least one is kept), oldest first; memory stays bounded
/// by the limit however many lines are pushed.
pub struct TailBuffer {
    limit: usize,
    lines: VecDeque<String>,
}

impl TailBuffer {
    #[verifier::type_invariant]
    spec fn bounded(&self) -> bool {
        self.limit >= 1 && self.lines@.len() <= self.limit
    }

    /// How many lines are kept at most.
    pub closed spec fn capacity(&self) -> nat {
        self.limit as nat
    }

    /// The kept lines, oldest first.
    pub closed spec fn kept(&self) -> Seq<String> {
        self.lines@
    }

    /// A buffer keeping the last `max(limit, 1)` lines.
    pub fn new(limit: usize) -> (r: TailBuffer)
        ensures
            r.capacity() == if limit == 0 { 1 } else { limit as nat },
            r.kept() == Seq::<String>::empty(),
    {
        TailBuffer { limit: if limit == 0 { 1 } else { limit }, lines: VecDeque::new() }
    }

    /// Adds a line, dropping the oldest when full.
    pub fn push(&mut self, line: String)
        ensures
            final(self).capacity() == old(self).capacity(),
            final(self).kept() == if old(self).kept().len() == old(self).capacity() {
                old(self).kept().drop_first().push(line)
            } else {
                old(self).kept().push(line)
            },
    {
        proof {
            use_type_invariant(&*self);
        }
        let mut lines: VecDeque<String> = VecDeque::new();
        std::mem::swap(&mut lines, &mut self.lines);
        if lines.len() == self.limit {
            lines.pop_front();
        }
        lines.push_back(line);
        std::mem::swap(&mut lines, &mut self.lines);
    }

    /// The kept lines, oldest first.
    pub fn into_lines(self) -> (r: Vec<String>)
        ensures
            r@ == self.kept(),
    {
        let mut lines = self.lines;
        let mut r: Vec<String> = Vec::new();
        let ghost all = lines@;
        while lines.len() > 0
            invariant
                r@ + lines@ == all,
            decreases lines@.len(),
        {
            let ghost before = lines@;
            let x = lines.pop_front().unwrap();
            proof {
                assert(before == seq![x] + lines@);
                assert(r@.push(x) + lines@ =~= all);
            }
            r.push(x);
        }
        assert(r@ + lines@ =~= r@);
        r
    }
}

/// The id of a replayed entry: `h{ts}-{n}`.
pub open spec fn history_id(ts: u64, n: nat) -> Seq<char> {
    "h"@ + decimal(ts as nat) + "-"@ + decimal(n)
}

/// Is `id` a replayed entry's id (it starts with `h`) rather than a live sequence number.
pub fn is_history_id(id: &str) -> (r: bool)
    ensures
        r == (id@.len() > 0 && id@[0] == 'h'),
{
    crate::text::starts_with_char(id, 'h')
}

/// `h{ts}-{n}` as a string.
pub fn make_history_id(ts: u64, n: u64) -> (r: String)
    ensures
        r@ == history_id(ts, n as nat),
{
    let mut s = string_of("h");
    push_decimal(&mut s, ts);
    push_char(&mut s, '-');
    push_decimal(&mut s, n);
    proof {
        reveal_strlit("-");
        assert(s@ =~= history_id(ts, n as nat));
    }
    s
}

/// The position of `x` in the strictly ascending `keys`, or where it would be inserted.
fn lower_bound(keys: &Vec<u64>, x: u64) -> (p: usize)
    requires
        forall|i: int, j: int| 0 <= i < j < keys@.len() ==> keys@[i] < keys@[j],
    ensures
        p <= keys@.len(),
        forall|i: int| 0 <= i < p ==> keys@[i] < x,
        forall|i: int| p <= i < keys@.len() ==> keys@[i] >= x,
{
    let mut lo: usize = 0;
    let mut hi: usize = keys.len();
    while lo < hi
        invariant
            lo <= hi <= keys@.len(),
            forall|i: int, j: int| 0 <= i < j < keys@.len() ==> keys@[i] < keys@[j],
            forall|i: int| 0 <= i < lo ==> keys@[i] < x,
            forall|i: int| hi <= i < keys@.len() ==> keys@[i] >= x,
        decreases hi - lo,
    {
        let mid = lo + (hi - lo) / 2;
        if keys[mid] < x {
            lo = mid + 1;
        } else {
            hi = mid;
        }
    }
    lo
}

/// The ids of entries with timestamps `ts`, in order: entry `j` is numbered by the entries
/// before it with the same timestamp.
pub fn history_ids(ts: &Vec<u64>) -> (r: Vec<String>)
    ensures
        r@.len() == ts@.len(),
        forall|j: int| 0 <= j < ts@.len() ==> (#[trigger] r@[j])@ == history_id(ts@[j], count_of(ts@.take(j), ts@[j])),
{
    // Timestamps seen so far (ascending) with how often each was seen.
    let mut keys: Vec<u64> = Vec::new();
    let mut seen: Vec<u64> = Vec::new();
    let mut r: Vec<String> = Vec::new();
    let mut j: usize = 0;
    while j < ts.len()
        invariant
            j <= ts@.len(),
            r@.len() == j,
            keys@.len() == seen@.len(),
            forall|a: int, b: int| 0 <= a < b < keys@.len() ==> keys@[a] < keys@[b],
            forall|a: int| 0 <= a < keys@.len() ==> #[trigger] seen@[a] == count_of(ts@.take(j as int), keys@[a]),
            forall|t: u64| #[trigger] count_of(ts@.take(j as int), t) > 0 ==> keys@.contains(t),
            forall|k: int| 0 <= k < j ==> (#[trigger] r@[k])@ == history_id(ts@[k], count_of(ts@.take(k), ts@[k])),
            forall|t: u64| #[trigger] count_of(ts@.take(j as int), t) <= j,
        decreases ts@.len() - j,
    {
        let t = ts[j];
        let ghost pre = ts@.take(j as int);
        let ghost post = ts@.take(j + 1);
        proof {
            assert(post.drop_last() =~= pre);
            assert(post.last() == t);
        }
        let p = lower_bound(&keys, t);
        if p < keys.len() && keys[p] == t {
            let n = seen[p];
            r.push(make_history_id(t, n));
            seen.set(p, n + 1);
            proof {
                assert forall|a: int| 0 <= a < keys@.len() implies #[trigger] seen@[a] == count_of(post, keys@[a]) by {
                    if a != p {
                        assert(keys@[a] != t);
                    }
                }
                assert forall|u: u64| #[trigger] count_of(post, u) > 0 implies keys@.contains(u) by {
                    if u == t {
                        assert(keys@[p as int] == u);
                    } else {
                        assert(count_of(pre, u) > 0);
                    }
                }
            }
        } else {
            proof {
                if count_of(pre, t) > 0 {
                    assert(keys@.contains(t));
                    let a = choose|a: int| 0 <= a < keys@.len() && keys@[a] == t;
                }
            }
            r.push(make_history_id(t, 0));
            let ghost old_keys = keys@;
            let ghost old_seen = seen@;
            keys.insert(p, t);
            seen.insert(p, 1);
            proof {
                assert forall|a: int, b: int| 0 <= a < b < keys@.len() implies keys@[a] < keys@[b] by {
                    if b < p {
                    } else if a < p && b == p {
                    } else if a < p {
                        assert(old_keys[a] < old_keys[b - 1]);
                    } else if a == p {
                    } else {
                        assert(old_keys[a - 1] < old_keys[b - 1]);
                    }
                }
                assert forall|a: int| 0 <= a < keys@.len() implies #[trigger] seen@[a] == count_of(post, keys@[a]) by {
                    if a < p {
                        assert(seen@[a] == old_seen[a]);
                        assert(old_keys[a] != t);
                    } else if a > p {
                        assert(seen@[a] == old_seen[a - 1]);
                        assert(old_keys[a - 1] != t);
                    }
                }
                assert forall|u: u64| #[trigger] count_of(post, u) > 0 implies keys@.contains(u) by {
                    if u == t {
                        assert(keys@[p as int] == u);
                    } else {
                        assert(count_of(pre, u) > 0);
                        assert(old_keys.contains(u));
                        let a = choose|a: int| 0 <= a < old_keys.len() && old_keys[a] == u;
                        if a < p {
                            assert(keys@[a] == u);
                        } else {
                            assert(keys@[a + 1] == u);
                        }
                    }
                }
            }
        }
        proof {
            assert forall|u: u64| #[trigger] count_of(post, u) <= j + 1 by {
                assert(count_of(pre, u) <= j);
            }
            assert(r@[j as int]@ == history_id(ts@[j as int], count_of(ts@.take(j as int), ts@[j as int])));
        }
        j = j + 1;
    }
    r
}

/// One parsed audit line: a call's metadata.
pub struct AuditEntry {
    pub ts_unix_ms: u64,
    pub meta_tool: String,
    pub target_tool: Option<String>,
    pub upstream: Option<String>,
    pub latency_ms: u64,
    pub outcome: String,
    pub error_kind: Option<String>,
    pub arg_bytes: usize,
    pub result_bytes: usize,
}

/// The timestamps of a run of entries.
pub open spec fn entry_times(es: Seq<AuditEntry>) -> Seq<u64> {
    es.map_values(|e: AuditEntry| e.ts_unix_ms)
}

/// The item replayed from entry `e` under `id`; replayed items carry no content.
pub open spec fn replayed_view(e: AuditEntry, id: Seq<char>) -> ItemView {
    ItemView {
        id,
        ts_unix_ms: e.ts_unix_ms,
        meta_tool: e.meta_tool@,
        target_tool: opt_view(e.target_tool),
        upstream: opt_view(e.upstream),
        latency_ms: e.latency_ms,
        outcome: e.outcome@,
        error_kind: opt_view(e.error_kind),
        arg_bytes: e.arg_bytes,
        result_bytes: e.result_bytes,
        args: None,
        args_truncated: false,
        result: None,
        result_truncated: false,
    }
}

/// The item of entry `k` of `es`, under its stable id.
pub open spec fn replayed_at(es: Seq<AuditEntry>, k: int) -> ItemView {
    replayed_view(es[k], history_id(es[k].ts_unix_ms, count_of(entry_times(es).take(k), es[k].ts_unix_ms)))
}

/// The items of `es` (oldest first) that pass `f`, oldest first. Ids are assigned before
/// filtering, so a filter never shifts an id.
pub open spec fn replayed_oldest_first(es: Seq<AuditEntry>, f: FilterView) -> Seq<ItemView>
    decreases es.len(),
{
    if es.len() == 0 {
        Seq::empty()
    } else {
        let rest = replayed_oldest_first(es.drop_last(), f);
        let it = replayed_at(es, es.len() - 1);
        if filter_holds(f, it) {
            rest.push(it)
        } else {
            rest
        }
    }
}

proof fn lemma_replayed_prefix(es: Seq<AuditEntry>, k: int)
    requires
        0 <= k < es.len(),
    ensures
        replayed_at(es.take(k + 1), k) == replayed_at(es, k),
{
    assert(entry_times(es.take(k + 1)).take(k) =~= entry_times(es).take(k));
}

/// The calls list replayed from the audit entries (oldest first, as in the file): each entry
/// gets its stable id, the filter is applied, and the list is newest first.
pub fn replay_calls(entries: Vec<AuditEntry>, filter: &CallFilter) -> (r: Vec<CallItem>)
    ensures
        r@.map_values(|c: CallItem| c@) == replayed_oldest_first(entries@, filter@).reverse(),
{
    let ghost es = entries@;
    let mut ts: Vec<u64> = Vec::new();
    let mut i: usize = 0;
    while i < entries.len()
        invariant
            i <= entries@.len(),
            ts@ == entry_times(entries@).take(i as int),
        decreases entries@.len() - i,
    {
        ts.push(entries[i].ts_unix_ms);
        proof {
            assert(ts@ =~= entry_times(entries@).take(i + 1));
        }
        i = i + 1;
    }
    proof {
        assert(ts@ =~= entry_times(entries@));
    }
    let ids = history_ids(&ts);
    let mut kept: Vec<CallItem> = Vec::new();
    let mut k: usize = 0;
    while k < entries.len()
        invariant
            k <= es.len(),
            es == entries@,
            ts@ == entry_times(es),
            ids@.len() == ts@.len(),
            forall|j: int| 0 <= j < ts@.len() ==> (#[trigger] ids@[j])@ == history_id(ts@[j], count_of(ts@.take(j), ts@[j])),
            kept@.map_values(|c: CallItem| c@) == replayed_oldest_first(es.take(k as int), filter@),
        decreases es.len() - k,
    {
        let e = &entries[k];
        let item = CallItem {
            id: ids[k].clone(),
            ts_unix_ms: e.ts_unix_ms,
            meta_tool: e.meta_tool.clone(),
            target_tool: clone_opt_string(&e.target_tool),
            upstream: clone_opt_string(&e.upstream),
            latency_ms: e.latency_ms,
            outcome: e.outcome.clone(),
            error_kind: clone_opt_string(&e.error_kind),
            arg_bytes: e.arg_bytes,
            result_bytes: e.result_bytes,
            args: None,
            args_truncated: false,
            result: None,
            result_truncated: false,
        };
        proof {
            let pre = es.take(k as int);
            let post = es.take(k + 1);
            assert(post.drop_last() =~= pre);
            lemma_replayed_prefix(es, k as int);
            assert(item@ == replayed_at(es, k as int));
        }
        let ghost before = kept@;
        if filter.matches(&item) {
            kept.push(item);
            proof {
                assert(kept@.map_values(|c: CallItem| c@) =~= before.map_values(|c: CallItem| c@).push(
                    replayed_at(es.take(k + 1), k as int),
                ));
            }
        }
        k = k + 1;
    }
    proof {
        assert(es.take(es.len() as int) =~= es);
    }
    let ghost fwd = kept@;
    let mut r: Vec<CallItem> = Vec::new();
    while kept.len() > 0
        invariant
            r@.map_values(|c: CallItem| c@) + kept@.map_values(|c: CallItem| c@).reverse()
                == fwd.map_values(|c: CallItem| c@).reverse(),
        decreases kept@.len(),
    {
        let ghost before = kept@;
        let x = kept.pop().unwrap();
        proof {
            assert(before == kept@.push(x));
            assert(before.map_values(|c: CallItem| c@).reverse() =~= seq![x@] + kept@.map_values(
                |c: CallItem| c@,
            ).reverse());
        }
        r.push(x);
        proof {
            assert(r@.map_values(|c: CallItem| c@) =~= r@.drop_last().map_values(|c: CallItem| c@).push(x@));
        }
    }
    proof {
        assert(kept@.map_values(|c: CallItem| c@).reverse() =~= Seq::<ItemView>::empty());
        assert(r@.map_values(|c: CallItem| c@) + Seq::<ItemView>::empty() =~= r@.map_values(|c: CallItem| c@));
    }
    r
}

/// Which of a call id's sources to look it up in.
pub enum CallIdRoute {
    /// A replayed entry's id: look it up in the audit history.
    History,
    /// A live ring sequence number.
    Live(u64),
    /// Neither: nothing can match.
    Invalid,
}

/// Routes a call id: `h…` to the history, a decimal number to the live ring.
pub fn route_call_id(id: &str) -> (r: CallIdRoute)
    ensures
        (id@.len() > 0 && id@[0] == 'h') ==> r is History,
        !(id@.len() > 0 && id@[0] == 'h') ==> match crate::text::parse_unsigned(id@, u64::MAX as nat) {
            Some(n) => r == CallIdRoute::Live(n as u64),
            None => r is Invalid,
        },
{
    if is_history_id(id) {
        CallIdRoute::History
    } else {
        match crate::text::parse_u64(id) {
            Some(n) => CallIdRoute::Live(n),
            None => CallIdRoute::Invalid,
        }
    }
}

/// The first item of `items` with id `id`.
pub fn find_by_id(items: Vec<CallItem>, id: &str) -> (r: Option<CallItem>)
    ensures
        match r {
            Some(c) => c@.id == id@ && exists|k: int|
                0 <= k < items@.len() && items@[k]@ == c@ && forall|j: int| 0 <= j < k ==> (#[trigger] items@[j])@.id != id@,
            None => forall|k: int| 0 <= k < items@.len() ==> (#[trigger] items@[k])@.id != id@,
        },
{
    let ghost all = items@;
    let mut i: usize = 0;
    while i < items.len()
        invariant
            i <= items@.len(),
            items@ == all,
            forall|j: int| 0 <= j < i ==> (#[trigger] all[j])@.id != id@,
        decreases items@.len() - i,
    {
        if str_eq(items[i].id.as_str(), id) {
            let mut items = items;
            let c = items.swap_remove(i);
            proof {
                assert(c == all[i as int]);
            }
            return Some(c);
        }
        i = i + 1;
    }
    None
}

/// One fixed-width time bucket of replayed audit metrics.
#[derive(Debug, Clone, PartialEq)]
pub struct MetricBucket {
    pub bucket_start_ms: u64,
    pub calls: u64,
    pub errors: u64,
}

/// The start of the bucket of width `width` holding time `ts`.
pub open spec fn bucket_start(ts: u64, width: u64) -> u64 {
    (ts - ts % width) as u64
}

/// How many points fall in the bucket starting at `b`.
pub open spec fn calls_in(points: Seq<(u64, String)>, width: u64, b: u64) -> nat
    decreases points.len(),
{
    if points.len() == 0 {
        0
    } else {
        calls_in(points.drop_last(), width, b) + if bucket_start(points.last().0, width) == b {
            1nat
        } else {
            0nat
        }
    }
}

/// How many points with an outcome other than `"ok"` fall in the bucket starting at `b`.
pub open spec fn errors_in(points: Seq<(u64, String)>, width: u64, b: u64) -> nat
    decreases points.len(),
{
    if points.len() == 0 {
        0
    } else {
        errors_in(points.drop_last(), width, b) + if bucket_start(points.last().0, width) == b
            && points.last().1@ != "ok"@ {
            1nat
        } else {
            0nat
        }
    }
}

proof fn lemma_point_counts(points: Seq<(u64, String)>, width: u64, b: u64)
    ensures
        errors_in(points, width, b) <= calls_in(points, width, b),
        calls_in(points, width, b) <= points.len(),
    decreases points.len(),
{
    if points.len() > 0 {
        lemma_point_counts(points.drop_last(), width, b);
    }
}

/// Audit metrics per time bucket of `max(bucket_ms, 1)` ms, from `(timestamp, outcome)`
/// points: one bucket per occupied start, ascending, with its calls and its errors (any
/// outcome but `"ok"`).
#[verifier::rlimit(50)]
#[verifier::spinoff_prover]
pub fn metric_buckets(points: &Vec<(u64, String)>, bucket_ms: u64) -> (r: Vec<MetricBucket>)
    ensures
        forall|i: int, j: int| 0 <= i < j < r@.len() ==> (#[trigger] r@[i]).bucket_start_ms < (#[trigger] r@[j]).bucket_start_ms,
        forall|i: int|
            0 <= i < r@.len() ==> {
                let w = if bucket_ms == 0 { 1 } else { bucket_ms };
                &&& (#[trigger] r@[i]).calls == calls_in(points@, w, r@[i].bucket_start_ms)
                &&& r@[i].errors == errors_in(points@, w, r@[i].bucket_start_ms)
                &&& r@[i].calls > 0
            },
        forall|k: int|
            0 <= k < points@.len() ==> exists|i: int|
                0 <= i < r@.len() && (#[trigger] r@[i]).bucket_start_ms == bucket_start(
                    (#[trigger] points@[k]).0,
                    if bucket_ms == 0 { 1 } else { bucket_ms },
                ),
{
    let w: u64 = if bucket_ms == 0 { 1 } else { bucket_ms };
    let ghost ps = points@;
    let mut keys: Vec<u64> = Vec::new();
    let mut out: Vec<MetricBucket> = Vec::new();
    let mut i: usize = 0;
    while i < points.len()
        invariant
            i <= ps.len(),
            ps == points@,
            w >= 1,
            w == if bucket_ms == 0 { 1 } else { bucket_ms },
            keys@.len() == out@.len(),
            forall|a: int| 0 <= a < keys@.len() ==> keys@[a] == (#[trigger] out@[a]).bucket_start_ms,
            forall|a: int, b: int| 0 <= a < b < keys@.len() ==> keys@[a] < keys@[b],
            forall|a: int|
                0 <= a < out@.len() ==> (#[trigger] out@[a]).calls == calls_in(ps.take(i as int), w, out@[a].bucket_start_ms)
                    && out@[a].errors == errors_in(ps.take(i as int), w, out@[a].bucket_start_ms)
                    && out@[a].calls > 0,
            forall|k: int|
                0 <= k < i ==> exists|a: int|
                    0 <= a < out@.len() && (#[trigger] out@[a]).bucket_start_ms == bucket_start((#[trigger] ps[k]).0, w),
            forall|b: u64| #[trigger] calls_in(ps.take(i as int), w, b) > 0 ==> keys@.contains(b),
        decreases ps.len() - i,
    {
        let ts = points[i].0;
        assert(ts % w <= ts) by (nonlinear_arith)
            requires
                w >= 1,
        ;
        let start: u64 = ts - ts % w;
        let failed = !str_eq(points[i].1.as_str(), "ok");
        let ghost pre = ps.take(i as int);
        let ghost post = ps.take(i + 1);
        proof {
            assert(post.drop_last() =~= pre);
            assert(post.last() == ps[i as int]);
            assert(start == bucket_start(ts, w));
            assert forall|b: u64| #[trigger] calls_in(pre, w, b) <= i by {
                lemma_point_counts(pre, w, b);
            }
            assert forall|b: u64| #[trigger] errors_in(pre, w, b) <= calls_in(pre, w, b) by {
                lemma_point_counts(pre, w, b);
            }
        }
        let p = lower_bound(&keys, start);
        let ghost old_out = out@;
        let ghost old_keys = keys@;
        if p < keys.len() && keys[p] == start {
            let b = out[p].bucket_start_ms;
            let c = out[p].calls;
            let e = out[p].errors;
            out.set(p, MetricBucket { bucket_start_ms: b, calls: c + 1, errors: if failed { e + 1 } else { e } });
            proof {
                assert forall|a: int|
                    0 <= a < out@.len() implies (#[trigger] out@[a]).calls == calls_in(post, w, out@[a].bucket_start_ms)
                        && out@[a].errors == errors_in(post, w, out@[a].bucket_start_ms)
                        && out@[a].calls > 0 by {
                    if a != p {
                        assert(old_keys[a] != start);
                    }
                }
                assert forall|k: int| 0 <= k < i + 1 implies exists|a: int|
                    0 <= a < out@.len() && (#[trigger] out@[a]).bucket_start_ms == bucket_start((#[trigger] ps[k]).0, w) by {
                    if k == i {
                        assert(out@[p as int].bucket_start_ms == start);
                    } else {
                        let a = choose|a: int| 0 <= a < old_out.len() && (#[trigger] old_out[a]).bucket_start_ms == bucket_start(ps[k].0, w);
                        assert(out@[a].bucket_start_ms == old_out[a].bucket_start_ms);
                    }
                }
                assert forall|b: u64| #[trigger] calls_in(post, w, b) > 0 implies keys@.contains(b) by {
                    if b != start {
                        assert(calls_in(pre, w, b) > 0);
                    } else {
                        assert(keys@[p as int] == b);
                    }
                }
            }
        } else {
            proof {
                if calls_in(pre, w, start) > 0 {
                    assert(keys@.contains(start));
                    let a = choose|a: int| 0 <= a < keys@.len() && keys@[a] == start;
                }
            }
            keys.insert(p, start);
            out.insert(p, MetricBucket { bucket_start_ms: start, calls: 1, errors: if failed { 1 } else { 0 } });
            proof {
                assert forall|a: int, b: int| 0 <= a < b < keys@.len() implies keys@[a] < keys@[b] by {
                    if b < p {
                    } else if a < p && b == p {
                    } else if a < p {
                        assert(old_keys[a] < old_keys[b - 1]);
                    } else if a == p {
                    } else {
                        assert(old_keys[a - 1] < old_keys[b - 1]);
                    }
                }
                assert forall|a: int| 0 <= a < keys@.len() implies keys@[a] == (#[trigger] out@[a]).bucket_start_ms by {
                    if a < p {
                        assert(old_keys[a] == old_out[a].bucket_start_ms);
                    } else if a > p {
                        assert(old_keys[a - 1] == old_out[a - 1].bucket_start_ms);
                    }
                }
                assert forall|a: int|
                    0 <= a < out@.len() implies (#[trigger] out@[a]).calls == calls_in(post, w, out@[a].bucket_start_ms)
                        && out@[a].errors == errors_in(post, w, out@[a].bucket_start_ms)
                        && out@[a].calls > 0 by {
                    if a < p {
                        assert(out@[a] == old_out[a]);
                        assert(old_keys[a] != start);
                    } else if a > p {
                        assert(out@[a] == old_out[a - 1]);
                        assert(old_keys[a - 1] != start);
                    } else {
                        assert(calls_in(pre, w, start) == 0);
                        lemma_point_counts(pre, w, start);
                    }
                }
                assert forall|k: int| 0 <= k < i + 1 implies exists|a: int|
                    0 <= a < out@.len() && (#[trigger] out@[a]).bucket_start_ms == bucket_start((#[trigger] ps[k]).0, w) by {
                    if k == i {
                        assert(out@[p as int].bucket_start_ms == start);
                    } else {
                        let a = choose|a: int| 0 <= a < old_out.len() && (#[trigger] old_out[a]).bucket_start_ms == bucket_start(ps[k].0, w);
                        if a < p {
                            assert(out@[a] == old_out[a]);
                        } else {
                            assert(out@[a + 1] == old_out[a]);
                        }
                    }
                }
                assert forall|b: u64| #[trigger] calls_in(post, w, b) > 0 implies keys@.contains(b) by {
                    if b != start {
                        assert(calls_in(pre, w, b) > 0);
                        let a = choose|a: int| 0 <= a < old_keys.len() && old_keys[a] == b;
                        if a < p {
                            assert(keys@[a] == b);
                        } else {
                            assert(keys@[a + 1] == b);
                        }
                    } else {
                        assert(keys@[p as int] == b);
                    }
                }
            }
        }
        i = i + 1;
    }
    proof {
        assert(ps.take(ps.len() as int) =~= ps);
        assert forall|a: int, b: int| 0 <= a < b < out@.len() implies (#[trigger] out@[a]).bucket_start_ms < (#[trigger] out@[b]).bucket_start_ms by {
            assert(keys@[a] < keys@[b]);
        }
    }
    out
}

proof fn lemma_decimal_digits(n: nat)
    ensures
        decimal(n).len() >= 1,
        n >= 10 ==> decimal(n).len() >= 2,
        forall|i: int| 0 <= i < decimal(n).len() ==> '0' <= #[trigger] decimal(n)[i] <= '9',
    decreases n,
{
    if n >= 10 {
        lemma_decimal_digits(n / 10);
    }
}

proof fn lemma_digit_char_value(d: nat)
    requires
        d < 10,
    ensures
        crate::text::digit_char(d) as u32 == d + 48,
{
}

proof fn lemma_decimal_injective(a: nat, b: nat)
    requires
        decimal(a) == decimal(b),
    ensures
        a == b,
    decreases a,
{
    lemma_decimal_digits(a);
    lemma_decimal_digits(b);
    if a >= 10 && b >= 10 {
        assert(decimal(a).drop_last() == decimal(a / 10));
        assert(decimal(b).drop_last() == decimal(b / 10));
        lemma_decimal_injective(a / 10, b / 10);
        assert(decimal(a).last() == crate::text::digit_char(a % 10));
        assert(decimal(b).last() == crate::text::digit_char(b % 10));
        lemma_digit_char_value(a % 10);
        lemma_digit_char_value(b % 10);
        assert(a % 10 == b % 10);
        assert(a == 10 * (a / 10) + a % 10) by (nonlinear_arith);
        assert(b == 10 * (b / 10) + b % 10) by (nonlinear_arith);
    } else if a < 10 && b < 10 {
        assert(decimal(a)[0] == crate::text::digit_char(a));
        assert(decimal(b)[0] == crate::text::digit_char(b));
        lemma_digit_char_value(a);
        lemma_digit_char_value(b);
    }
}

proof fn lemma_history_id_injective(t1: u64, n1: nat, t2: u64, n2: nat)
    requires
        history_id(t1, n1) == history_id(t2, n2),
    ensures
        t1 == t2 && n1 == n2,
{
    reveal_strlit("h");
    reveal_strlit("-");
    let d1 = decimal(t1 as nat);
    let d2 = decimal(t2 as nat);
    let e1 = decimal(n1);
    let e2 = decimal(n2);
    lemma_decimal_digits(t1 as nat);
    lemma_decimal_digits(t2 as nat);
    let x = history_id(t1, n1);
    assert(x =~= seq!['h'] + d1 + seq!['-'] + e1);
    assert(x =~= seq!['h'] + d2 + seq!['-'] + e2);
    if d1.len() < d2.len() {
        assert(x[1 + d1.len() as int] == '-');
        assert(x[1 + d1.len() as int] == d2[d1.len() as int]);
    } else if d2.len() < d1.len() {
        assert(x[1 + d2.len() as int] == '-');
        assert(x[1 + d2.len() as int] == d1[d2.len() as int]);
    }
    assert(d1 =~= x.subrange(1, 1 + d1.len() as int));
    assert(d2 =~= x.subrange(1, 1 + d2.len() as int));
    lemma_decimal_injective(t1 as nat, t2 as nat);
    assert(e1 =~= x.subrange(2 + d1.len() as int, x.len() as int));
    assert(e2 =~= x.subrange(2 + d2.len() as int, x.len() as int));
    lemma_decimal_injective(n1, n2);
}

proof fn lemma_count_prefix_grows(s: Seq<u64>, i: int, j: int)
    requires
        0 <= i < j <= s.len(),
    ensures
        count_of(s.take(j), s[i]) >= count_of(s.take(i), s[i]) + 1,
    decreases j - i,
{
    assert(s.take(j).drop_last() =~= s.take(j - 1));
    if j - 1 > i {
        lemma_count_prefix_grows(s, i, j - 1);
    } else {
        assert(s.take(j).last() == s[i]);
    }
}

/// Replayed entries have distinct ids, so an id found in a list always names one entry.
pub proof fn lemma_replay_ids_unique(es: Seq<AuditEntry>, k1: int, k2: int)
    requires
        0 <= k1 < k2 < es.len(),
    ensures
        replayed_at(es, k1).id != replayed_at(es, k2).id,
{
    let times = entry_times(es);
    if replayed_at(es, k1).id == replayed_at(es, k2).id {
        lemma_history_id_injective(
            es[k1].ts_unix_ms,
            count_of(times.take(k1), es[k1].ts_unix_ms),
            es[k2].ts_unix_ms,
            count_of(times.take(k2), es[k2].ts_unix_ms),
        );
        assert(times[k1] == es[k1].ts_unix_ms);
        lemma_count_prefix_grows(times, k1, k2);
    }
}

/// Filtering never renumbers: every replayed item, under any filter, is the entry's item
/// under its filter-independent id.
pub proof fn lemma_replay_keeps_ids(es: Seq<AuditEntry>, f: FilterView)
    ensures
        forall|i: int| 0 <= i < replayed_oldest_first(es, f).len() ==> exists|k: int|
            0 <= k < es.len() && #[trigger] replayed_oldest_first(es, f)[i] == replayed_at(es, k),
    decreases es.len(),
{
    if es.len() > 0 {
        let rest = es.drop_last();
        lemma_replay_keeps_ids(rest, f);
        let r = replayed_oldest_first(rest, f);
        assert forall|i: int| 0 <= i < replayed_oldest_first(es, f).len() implies exists|k: int|
            0 <= k < es.len() && #[trigger] replayed_oldest_first(es, f)[i] == replayed_at(es, k) by {
            if i < r.len() {
                let k = choose|k: int| 0 <= k < rest.len() && #[trigger] r[i] == replayed_at(rest, k);
                assert(entry_times(rest).take(k) =~= entry_times(es).take(k));
                assert(replayed_at(rest, k) == replayed_at(es, k));
            } else {
                assert(replayed_oldest_first(es, f)[i] == replayed_at(es, es.len() - 1));
            }
        }
    }
}

} // verus!
