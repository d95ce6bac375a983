//! The dashboard API's shapes and its decisions: query parameters, the calls list and its
//! pagination, an upstream's status from the last rebuild, the tools filter, and the local
//! `Host` check. Serving them over HTTP happens at the edge.

use vstd::prelude::*;
use crate::calls::{
    CallFilter, CallItem, CallRingSink, ItemView, StoredCall, newest_matches, page_of, stored_view, ring_after,
    consecutive, ring_of, min_nat, lemma_ring_keeps_last,
};
use crate::observe::{CallRecord, CallContent};
use crate::gateway::RebuildSummary;
use crate::metrics::{MetricsSnapshot, UpstreamMetrics};
use crate::retrieval::{ToolDef, first_tool, get_tool_details, qualified};
use crate::history::{MetricBucket, CallIdRoute, route_call_id, find_by_id};
use crate::text::{
    str_eq, string_of, parse_u64, parse_usize, parse_unsigned, to_lowercase, lowercase,
    str_contains, is_substring, chars_of, string_of_range, eq_ignore_ascii_case, ascii_lower,
    lower_ascii,
};
use crate::observe::opt_view;

verus! {

/// Audit lines scanned both for the history calls list and for resolving one history id, so
/// an id the list assigns always resolves in the detail view (same scan window).
pub const CALL_HISTORY_SCAN: usize = 50_000;

/// Upper clamp on a client-supplied history `limit`.
pub const MAX_HISTORY_LIMIT: usize = 50_000;

/// One configured upstream's static identity.
#[derive(Debug, Clone, PartialEq)]
pub struct UpstreamInfo {
    pub name: String,
    pub transport: String,
}

/// The configuration file as the admin endpoint shows it: its path and its text.
pub struct ConfigView {
    pub path: String,
    pub content: String,
}

pub struct Overview {
    pub uptime_secs: u64,
    pub strategy: String,
    pub upstreams_total: usize,
    pub upstreams_connected: usize,
    pub tools_total: usize,
    pub total_calls: u64,
    pub last_rebuild_skipped: usize,
}

pub struct UpstreamView {
    pub name: String,
    pub transport: String,
    /// `"connected"`, `"skipped"` or `"unknown"`.
    pub status: &'static str,
    pub reason: Option<String>,
    pub tools: usize,
    pub calls: u64,
    pub errors: u64,
}

pub struct UpstreamDetail {
    pub name: String,
    pub transport: String,
    pub status: &'static str,
    pub reason: Option<String>,
    pub tools_count: usize,
    pub calls: u64,
    pub errors: u64,
    pub tools: Vec<ToolView>,
}

pub struct ToolView {
    pub name: String,
    pub description: String,
}

/// One tool's full definition as the dashboard shows it.
pub struct ToolDetail {
    pub name: String,
    pub server: String,
    pub description: String,
    /// The JSON input schema, as text.
    pub input_schema: String,
}

pub struct HistoryResponse {
    pub history_unavailable: bool,
    pub buckets: Vec<MetricBucket>,
}

pub struct CallsResponse {
    pub source: String,
    pub history_unavailable: bool,
    pub total: usize,
    pub items: Vec<CallItem>,
}

/// The value of query parameter `key` (the last one given).
pub open spec fn query_value(q: Seq<(String, String)>, key: Seq<char>) -> Option<Seq<char>>
    decreases q.len(),
{
    if q.len() == 0 {
        None
    } else if q.last().0@ == key {
        Some(q.last().1@)
    } else {
        query_value(q.drop_last(), key)
    }
}

/// The value of query parameter `key` (the last one given).
pub fn query_get(q: &Vec<(String, String)>, key: &str) -> (r: Option<String>)
    ensures
        opt_view(r) == query_value(q@, key@),
{
    let mut i: usize = q.len();
    proof {
        assert(q@.take(q@.len() as int) =~= q@);
    }
    while i > 0
        invariant
            i <= q@.len(),
            query_value(q@, key@) == query_value(q@.take(i as int), key@),
        decreases i,
    {
        proof {
            assert(q@.take(i as int).drop_last() =~= q@.take(i - 1));
        }
        if str_eq(q[i - 1].0.as_str(), key) {
            return Some(q[i - 1].1.clone());
        }
        i = i - 1;
    }
    None
}

/// A query parameter read as an unsigned number, when it is one.
pub open spec fn query_number(q: Seq<(String, String)>, key: Seq<char>, max: nat) -> Option<nat> {
    match query_value(q, key) {
        Some(v) => parse_unsigned(v, max),
        None => None,
    }
}

/// A `usize` query parameter, or `default` when absent or not a number.
pub fn qparam_usize(q: &Vec<(String, String)>, key: &str, default: usize) -> (r: usize)
    ensures
        r == match query_number(q@, key@, usize::MAX as nat) {
            Some(n) => n as usize,
            None => default,
        },
{
    match query_get(q, key) {
        Some(v) => match parse_usize(v.as_str()) {
            Some(n) => n,
            None => default,
        },
        None => default,
    }
}

/// A `u64` query parameter, when present and a number.
pub fn qparam_u64(q: &Vec<(String, String)>, key: &str) -> (r: Option<u64>)
    ensures
        r == match query_number(q@, key@, u64::MAX as nat) {
            Some(n) => Some(n as u64),
            None => None,
        },
{
    match query_get(q, key) {
        Some(v) => parse_u64(v.as_str()),
        None => None,
    }
}

/// The calls filter a query describes: `meta`, `upstream`, `tool`, `outcome`, `q`, `arg_key`,
/// `arg_val` as given; `since` and `until` when they are numbers.
pub fn call_filter_from_query(q: &Vec<(String, String)>) -> (f: CallFilter)
    ensures
        f@.meta_tool == query_value(q@, "meta"@),
        f@.upstream == query_value(q@, "upstream"@),
        f@.target_tool == query_value(q@, "tool"@),
        f@.outcome == query_value(q@, "outcome"@),
        f@.since_ms == match query_number(q@, "since"@, u64::MAX as nat) {
            Some(n) => Some(n as u64),
            None => None,
        },
        f@.until_ms == match query_number(q@, "until"@, u64::MAX as nat) {
            Some(n) => Some(n as u64),
            None => None,
        },
        f@.q == query_value(q@, "q"@),
        f@.arg_key == query_value(q@, "arg_key"@),
        f@.arg_val == query_value(q@, "arg_val"@),
{
    CallFilter {
        meta_tool: query_get(q, "meta"),
        upstream: query_get(q, "upstream"),
        target_tool: query_get(q, "tool"),
        outcome: query_get(q, "outcome"),
        since_ms: qparam_u64(q, "since"),
        until_ms: qparam_u64(q, "until"),
        q: query_get(q, "q"),
        arg_key: query_get(q, "arg_key"),
        arg_val: query_get(q, "arg_val"),
    }
}

/// Does the client ask for the history source (anything else reads the live ring).
pub fn is_history_source(source: &str) -> (r: bool)
    ensures
        r == (source@ == "history"@),
{
    str_eq(source, "history")
}

/// The page of `items` after skipping `offset` and keeping at most `limit`.
pub fn page(items: Vec<CallItem>, offset: usize, limit: usize) -> (r: Vec<CallItem>)
    ensures
        r@.map_values(|c: CallItem| c@) == page_of(items@.map_values(|c: CallItem| c@), offset as nat, limit as nat),
{
    let n = items.len();
    let lo = if offset <= n { offset } else { n };
    let hi = if limit <= n - lo { lo + limit } else { n };
    let ghost all = items@;
    let mut items = items;
    let mut rest: Vec<CallItem> = items.split_off(lo);
    rest.truncate(hi - lo);
    proof {
        assert(rest@ =~= all.subrange(lo as int, hi as int));
        assert(all.map_values(|c: CallItem| c@).subrange(lo as int, hi as int) =~= rest@.map_values(
            |c: CallItem| c@,
        ));
    }
    rest
}

/// The history calls response: `None` when no audit log is configured; otherwise the items
/// replayed (newest first) and whether the log could be read.
pub fn calls_history(replayed: Option<(Vec<CallItem>, bool)>, limit: usize, offset: usize) -> (r: CallsResponse)
    ensures
        r.source@ == "history"@,
        match replayed {
            None => r.history_unavailable && r.total == 0 && r.items@.len() == 0,
            Some((items, ok)) => r.history_unavailable == !ok && r.total == items@.len()
                && r.items@.map_values(|c: CallItem| c@) == page_of(
                items@.map_values(|c: CallItem| c@),
                offset as nat,
                limit as nat,
            ),
        },
{
    match replayed {
        None => CallsResponse {
            source: string_of("history"),
            history_unavailable: true,
            total: 0,
            items: Vec::new(),
        },
        Some((items, ok)) => {
            let total = items.len();
            CallsResponse {
                source: string_of("history"),
                history_unavailable: !ok,
                total,
                items: page(items, offset, limit),
            }
        },
    }
}

/// The live calls response: the ring's newest-first page of the calls passing `filter` and the
/// count of all of them; empty when there is no ring.
pub fn calls_live(ring: Option<&CallRingSink>, filter: &CallFilter, limit: usize, offset: usize) -> (r: CallsResponse)
    ensures
        r.source@ == "live"@,
        !r.history_unavailable,
        match ring {
            None => r.total == 0 && r.items@.len() == 0,
            Some(g) => r.items@.map_values(|c: CallItem| c@) == page_of(
                newest_matches(g.entries(), filter@),
                offset as nat,
                limit as nat,
            ) && r.total == newest_matches(g.entries(), filter@).len(),
        },
{
    match ring {
        None => CallsResponse { source: string_of("live"), history_unavailable: false, total: 0, items: Vec::new() },
        Some(g) => {
            let (items, total) = g.query(filter, limit, offset);
            CallsResponse { source: string_of("live"), history_unavailable: false, total, items }
        },
    }
}

/// The metrics history response: `None` when no audit log is configured; otherwise the
/// replayed buckets and whether the log could be read.
pub fn metrics_history(replayed: Option<(Vec<MetricBucket>, bool)>) -> (r: HistoryResponse)
    ensures
        match replayed {
            None => r.history_unavailable && r.buckets@.len() == 0,
            Some((b, ok)) => r.history_unavailable == !ok && r.buckets == b,
        },
{
    match replayed {
        None => HistoryResponse { history_unavailable: true, buckets: Vec::new() },
        Some((buckets, ok)) => HistoryResponse { history_unavailable: !ok, buckets },
    }
}

/// Some entry of `v` has text `n`.
pub open spec fn lists(v: Seq<String>, n: Seq<char>) -> bool {
    exists|i: int| 0 <= i < v.len() && (#[trigger] v[i])@ == n
}

/// The first skipped entry for `n`, if any.
pub open spec fn first_skip(v: Seq<(String, String)>, n: Seq<char>) -> Option<Seq<char>>
    decreases v.len(),
{
    if v.len() == 0 {
        None
    } else if v[0].0@ == n {
        Some(v[0].1@)
    } else {
        first_skip(v.subrange(1, v.len() as int), n)
    }
}

/// An upstream's status from the last rebuild: ingested -> connected; skipped -> skipped with
/// the reason; otherwise (including before the first rebuild) unknown.
pub open spec fn status_of(summary: Option<RebuildSummary>, n: Seq<char>) -> (Seq<char>, Option<Seq<char>>) {
    match summary {
        None => ("unknown"@, None),
        Some(s) => if lists(s.ingested@, n) {
            ("connected"@, None)
        } else {
            match first_skip(s.skipped@, n) {
                Some(why) => ("skipped"@, Some(why)),
                None => ("unknown"@, None),
            }
        },
    }
}

fn text_listed(v: &Vec<String>, n: &str) -> (r: bool)
    ensures
        r == lists(v@, n@),
{
    let mut i: usize = 0;
    while i < v.len()
        invariant
            i <= v@.len(),
            forall|j: int| 0 <= j < i ==> (#[trigger] v@[j])@ != n@,
        decreases v@.len() - i,
    {
        if str_eq(v[i].as_str(), n) {
            return true;
        }
        i = i + 1;
    }
    false
}

/// An upstream's connection status from the last rebuild summary.
pub fn resolve_status(summary: Option<&RebuildSummary>, name: &str) -> (r: (&'static str, Option<String>))
    ensures
        (r.0@, opt_view(r.1)) == status_of(
            match summary {
                Some(s) => Some(*s),
                None => None,
            },
            name@,
        ),
{
    match summary {
        None => ("unknown", None),
        Some(s) => {
            if text_listed(&s.ingested, name) {
                return ("connected", None);
            }
            let ghost v = s.skipped@;
            let mut i: usize = 0;
            assert(v.subrange(0, v.len() as int) =~= v);
            while i < s.skipped.len()
                invariant
                    i <= v.len(),
                    v == s.skipped@,
                    summary == Some(s),
                    !lists(s.ingested@, name@),
                    first_skip(v, name@) == first_skip(v.subrange(i as int, v.len() as int), name@),
                decreases v.len() - i,
            {
                proof {
                    let sub = v.subrange(i as int, v.len() as int);
                    assert(sub.subrange(1, sub.len() as int) =~= v.subrange(i + 1, v.len() as int));
                }
                if str_eq(s.skipped[i].0.as_str(), name) {
                    return ("skipped", Some(s.skipped[i].1.clone()));
                }
                i = i + 1;
            }
            ("unknown", None)
        },
    }
}

/// How many views report `"connected"`.
pub open spec fn connected_in(v: Seq<UpstreamView>) -> nat
    decreases v.len(),
{
    if v.len() == 0 {
        0
    } else {
        connected_in(v.drop_last()) + if v.last().status@ == "connected"@ {
            1nat
        } else {
            0nat
        }
    }
}

/// How many upstreams are connected.
pub fn count_connected(v: &Vec<UpstreamView>) -> (r: usize)
    ensures
        r == connected_in(v@),
{
    let mut n: usize = 0;
    let mut i: usize = 0;
    while i < v.len()
        invariant
            i <= v@.len(),
            n == connected_in(v@.take(i as int)),
            n <= i,
        decreases v@.len() - i,
    {
        proof {
            assert(v@.take(i + 1).drop_last() =~= v@.take(i as int));
        }
        if str_eq(v[i].status, "connected") {
            n = n + 1;
        }
        i = i + 1;
    }
    proof {
        assert(v@.take(v@.len() as int) =~= v@);
    }
    n
}

/// The first metrics row of upstream `n`, if any.
pub open spec fn row_of(rows: Seq<UpstreamMetrics>, n: Seq<char>) -> Option<UpstreamMetrics>
    decreases rows.len(),
{
    if rows.len() == 0 {
        None
    } else if rows[0].upstream@ == n {
        Some(rows[0])
    } else {
        row_of(rows.subrange(1, rows.len() as int), n)
    }
}

/// An upstream's `(calls, errors)` from the metrics rows (zero when it has none).
pub fn upstream_counts(rows: &Vec<UpstreamMetrics>, name: &str) -> (r: (u64, u64))
    ensures
        r == match row_of(rows@, name@) {
            Some(m) => (m.calls, m.errors),
            None => (0u64, 0u64),
        },
{
    let ghost v = rows@;
    let mut i: usize = 0;
    assert(v.subrange(0, v.len() as int) =~= v);
    while i < rows.len()
        invariant
            i <= v.len(),
            v == rows@,
            row_of(v, name@) == row_of(v.subrange(i as int, v.len() as int), name@),
        decreases v.len() - i,
    {
        proof {
            let sub = v.subrange(i as int, v.len() as int);
            assert(sub.subrange(1, sub.len() as int) =~= v.subrange(i + 1, v.len() as int));
        }
        if str_eq(rows[i].upstream.as_str(), name) {
            return (rows[i].calls, rows[i].errors);
        }
        i = i + 1;
    }
    (0, 0)
}

/// One upstream's dashboard row: its identity, status from the last rebuild, tool count and
/// call counts.
pub fn upstream_view(info: &UpstreamInfo, summary: Option<&RebuildSummary>, tools: usize, rows: &Vec<UpstreamMetrics>) -> (v: UpstreamView)
    ensures
        v.name@ == info.name@,
        v.transport@ == info.transport@,
        (v.status@, opt_view(v.reason)) == status_of(
            match summary {
                Some(s) => Some(*s),
                None => None,
            },
            info.name@,
        ),
        v.tools == tools,
        (v.calls, v.errors) == match row_of(rows@, info.name@) {
            Some(m) => (m.calls, m.errors),
            None => (0u64, 0u64),
        },
{
    let (status, reason) = resolve_status(summary, info.name.as_str());
    let (calls, errors) = upstream_counts(rows, info.name.as_str());
    UpstreamView {
        name: info.name.clone(),
        transport: info.transport.clone(),
        status,
        reason,
        tools,
        calls,
        errors,
    }
}

/// The tools filter: with a non-empty needle, the tool's qualified name or description must
/// contain it, compared in lowercase; without one every tool passes.
pub open spec fn tool_passes(needle: Option<Seq<char>>, qualified: Seq<char>, description: Seq<char>) -> bool {
    match needle {
        Some(n) => n.len() == 0 || is_substring(lowercase(qualified), lowercase(n)) || is_substring(
            lowercase(description),
            lowercase(n),
        ),
        None => true,
    }
}

/// Does a tool pass the tools list's search box.
pub fn tool_matches(needle: Option<&str>, qualified: &str, description: &str) -> (r: bool)
    ensures
        r == tool_passes(
            match needle {
                Some(n) => Some(n@),
                None => None,
            },
            qualified@,
            description@,
        ),
{
    match needle {
        None => true,
        Some(n) => {
            let ncs = chars_of(n);
            if ncs.len() == 0 {
                return true;
            }
            let ln = to_lowercase(n);
            let lq = to_lowercase(qualified);
            if str_contains(lq.as_str(), ln.as_str()) {
                return true;
            }
            let ld = to_lowercase(description);
            str_contains(ld.as_str(), ln.as_str())
        },
    }
}

/// The host part of a `Host` header value, as the local-host check reads it: `None` for a
/// value holding `@` or an unterminated `[`; a bracketed IPv6 host without its brackets;
/// otherwise the text before the last `:` (the whole value when there is none).
pub open spec fn host_part(raw: Seq<char>) -> Option<Seq<char>> {
    if exists|i: int| 0 <= i < raw.len() && raw[i] == '@' {
        None
    } else if raw.len() > 0 && raw[0] == '[' {
        let rest = raw.skip(1);
        if exists|i: int| 0 <= i < rest.len() && rest[i] == ']' {
            Some(rest.take(choose|i: int| 0 <= i < rest.len() && rest[i] == ']' && forall|j: int| 0 <= j < i ==> rest[j] != ']'))
        } else {
            None
        }
    } else if exists|i: int| 0 <= i < raw.len() && raw[i] == ':' {
        Some(raw.take(choose|i: int| 0 <= i < raw.len() && raw[i] == ':' && forall|j: int| i < j < raw.len() ==> raw[j] != ':'))
    } else {
        Some(raw)
    }
}

/// The host part of a `Host` header value (see `host_part`).
pub fn host_of(raw: &str) -> (r: Option<String>)
    ensures
        opt_view(r) == host_part(raw@),
{
    let cs = chars_of(raw);
    let n = cs.len();
    let mut i: usize = 0;
    while i < n
        invariant
            i <= n,
            n == cs@.len(),
            cs@ == raw@,
            forall|j: int| 0 <= j < i ==> cs@[j] != '@',
        decreases n - i,
    {
        if cs[i] == '@' {
            return None;
        }
        i = i + 1;
    }
    if n > 0 && cs[0] == '[' {
        let ghost rest = raw@.skip(1);
        let mut k: usize = 1;
        while k < n && cs[k] != ']'
            invariant
                1 <= k <= n,
                n == cs@.len(),
                cs@ == raw@,
                rest == raw@.skip(1),
                forall|j: int| 0 <= j < k - 1 ==> rest[j] != ']',
            decreases n - k,
        {
            k = k + 1;
        }
        if k == n {
            return None;
        }
        proof {
            let w = choose|i: int| 0 <= i < rest.len() && rest[i] == ']' && forall|j: int| 0 <= j < i ==> rest[j] != ']';
            assert(rest[k - 1] == ']');
            assert(w == k - 1) by {
                if w < k - 1 {
                } else if w > k - 1 {
                }
            }
        }
        let h = string_of_range(&cs, 1, k);
        proof {
            assert(h@ =~= rest.take(k - 1));
        }
        return Some(h);
    }
    let mut k: usize = n;
    while k > 0 && cs[k - 1] != ':'
        invariant
            k <= n,
            n == cs@.len(),
            cs@ == raw@,
            forall|j: int| k <= j < n ==> cs@[j] != ':',
        decreases k,
    {
        k = k - 1;
    }
    if k == 0 {
        return Some(string_of_range(&cs, 0, n));
    }
    proof {
        let w = choose|i: int| 0 <= i < raw@.len() && raw@[i] == ':' && forall|j: int| i < j < raw@.len() ==> raw@[j] != ':';
        assert(raw@[k - 1] == ':');
        assert(w == k - 1) by {
            if w < k - 1 {
            } else if w > k - 1 {
            }
        }
    }
    Some(string_of_range(&cs, 0, k - 1))
}

/// Is a `Host` header value a local host: its host part (see `host_part`) is `localhost` in
/// any ASCII case, or an IP address that is loopback. `ip_loopback` is whether that host part,
/// read as an IP address, is a loopback address (`None` when it is not an IP address); a
/// missing header is not local.
pub fn host_is_local(host: Option<&str>, ip_loopback: Option<bool>) -> (r: bool)
    ensures
        r == match host {
            None => false,
            Some(raw) => match host_part(raw@) {
                None => false,
                Some(h) => eq_ignore_ascii_case(h, "localhost"@) || ip_loopback == Some(true),
            },
        },
{
    match host {
        None => false,
        Some(raw) => match host_of(raw) {
            None => false,
            Some(h) => {
                if is_localhost_name(h.as_str()) {
                    return true;
                }
                match ip_loopback {
                    Some(l) => l,
                    None => false,
                }
            },
        },
    }
}

/// Is a host the literal `localhost` (any ASCII case).
pub fn is_localhost_name(host: &str) -> (r: bool)
    ensures
        r == eq_ignore_ascii_case(host@, "localhost"@),
{
    let a = chars_of(host);
    let b = chars_of("localhost");
    if a.len() != b.len() {
        return false;
    }
    let mut i: usize = 0;
    while i < a.len()
        invariant
            i <= a@.len(),
            a@.len() == b@.len(),
            a@ == host@,
            b@ == "localhost"@,
            forall|j: int| 0 <= j < i ==> ascii_lower(#[trigger] a@[j]) == ascii_lower(b@[j]),
        decreases a@.len() - i,
    {
        if lower_ascii(a[i]) != lower_ascii(b[i]) {
            return false;
        }
        i = i + 1;
    }
    true
}

/// How many tools of `catalog` belong to upstream `name`.
pub open spec fn tools_of(catalog: Seq<ToolDef>, name: Seq<char>) -> nat
    decreases catalog.len(),
{
    if catalog.len() == 0 {
        0
    } else {
        tools_of(catalog.drop_last(), name) + if catalog.last().server@ == name {
            1nat
        } else {
            0nat
        }
    }
}

/// The `(qualified name, description)` of each tool of `catalog` that `keep` holds of, in
/// order.
pub open spec fn listed(catalog: Seq<ToolDef>, keep: spec_fn(ToolDef) -> bool) -> Seq<(Seq<char>, Seq<char>)>
    decreases catalog.len(),
{
    if catalog.len() == 0 {
        Seq::empty()
    } else {
        let rest = listed(catalog.drop_last(), keep);
        if keep(catalog.last()) {
            rest.push((qualified(catalog.last()), catalog.last().description@))
        } else {
            rest
        }
    }
}

/// The `(name, description)` of each view.
pub open spec fn views_of(v: Seq<ToolView>) -> Seq<(Seq<char>, Seq<char>)> {
    v.map_values(|t: ToolView| (t.name@, t.description@))
}

/// The tools passing the search box `needle` (see `tool_passes`).
pub open spec fn passes(needle: Option<Seq<char>>) -> spec_fn(ToolDef) -> bool {
    |t: ToolDef| tool_passes(needle, qualified(t), t.description@)
}

/// The tools of upstream `name`.
pub open spec fn served_by(name: Seq<char>) -> spec_fn(ToolDef) -> bool {
    |t: ToolDef| t.server@ == name
}

fn count_tools_of(catalog: &Vec<ToolDef>, name: &str) -> (r: usize)
    ensures
        r == tools_of(catalog@, name@),
{
    let mut n: usize = 0;
    let mut i: usize = 0;
    while i < catalog.len()
        invariant
            i <= catalog@.len(),
            n == tools_of(catalog@.take(i as int), name@),
            n <= i,
        decreases catalog@.len() - i,
    {
        proof {
            assert(catalog@.take(i + 1).drop_last() =~= catalog@.take(i as int));
        }
        if str_eq(catalog[i].server.as_str(), name) {
            n = n + 1;
        }
        i = i + 1;
    }
    proof {
        assert(catalog@.take(catalog@.len() as int) =~= catalog@);
    }
    n
}

/// The tools list: every tool passing the search box `q`, as its qualified name and
/// description, in catalog order.
pub fn tools(catalog: &Vec<ToolDef>, q: Option<&str>) -> (r: Vec<ToolView>)
    ensures
        views_of(r@) == listed(catalog@, passes(match q {
            Some(n) => Some(n@),
            None => None,
        })),
{
    let ghost keep = passes(match q {
        Some(n) => Some(n@),
        None => None,
    });
    let mut r: Vec<ToolView> = Vec::new();
    let mut i: usize = 0;
    while i < catalog.len()
        invariant
            i <= catalog@.len(),
            keep == passes(match q {
                Some(n) => Some(n@),
                None => None,
            }),
            views_of(r@) == listed(catalog@.take(i as int), keep),
        decreases catalog@.len() - i,
    {
        proof {
            assert(catalog@.take(i + 1).drop_last() =~= catalog@.take(i as int));
        }
        let t = &catalog[i];
        let name = t.qualified_name();
        if tool_matches(q, name.as_str(), t.description.as_str()) {
            let ghost before = r@;
            r.push(ToolView { name, description: t.description.clone() });
            proof {
                assert(views_of(r@) =~= views_of(before).push((qualified(catalog@[i as int]), catalog@[i as int].description@)));
            }
        }
        i = i + 1;
    }
    proof {
        assert(catalog@.take(catalog@.len() as int) =~= catalog@);
    }
    r
}

/// The tools of upstream `name`, in catalog order.
fn tools_served_by(catalog: &Vec<ToolDef>, name: &str) -> (r: Vec<ToolView>)
    ensures
        views_of(r@) == listed(catalog@, served_by(name@)),
{
    let ghost keep = served_by(name@);
    let mut r: Vec<ToolView> = Vec::new();
    let mut i: usize = 0;
    while i < catalog.len()
        invariant
            i <= catalog@.len(),
            keep == served_by(name@),
            views_of(r@) == listed(catalog@.take(i as int), keep),
        decreases catalog@.len() - i,
    {
        proof {
            assert(catalog@.take(i + 1).drop_last() =~= catalog@.take(i as int));
        }
        let t = &catalog[i];
        if str_eq(t.server.as_str(), name) {
            let ghost before = r@;
            r.push(ToolView { name: t.qualified_name(), description: t.description.clone() });
            proof {
                assert(views_of(r@) =~= views_of(before).push((qualified(catalog@[i as int]), catalog@[i as int].description@)));
            }
        }
        i = i + 1;
    }
    proof {
        assert(catalog@.take(catalog@.len() as int) =~= catalog@);
    }
    r
}

/// The summary, if there is one, as a value.
pub open spec fn summary_value(summary: Option<&RebuildSummary>) -> Option<RebuildSummary> {
    match summary {
        Some(s) => Some(*s),
        None => None,
    }
}

/// View `v` is the dashboard row of upstream `info`.
pub open spec fn row_for(
    v: UpstreamView,
    info: UpstreamInfo,
    summary: Option<RebuildSummary>,
    catalog: Seq<ToolDef>,
    rows: Seq<UpstreamMetrics>,
) -> bool {
    &&& v.name@ == info.name@
    &&& v.transport@ == info.transport@
    &&& (v.status@, opt_view(v.reason)) == status_of(summary, info.name@)
    &&& v.tools == tools_of(catalog, info.name@)
    &&& (v.calls, v.errors) == match row_of(rows, info.name@) {
        Some(m) => (m.calls, m.errors),
        None => (0u64, 0u64),
    }
}

/// The upstreams list: one row per configured upstream, in order.
pub fn upstreams(
    infos: &Vec<UpstreamInfo>,
    summary: Option<&RebuildSummary>,
    catalog: &Vec<ToolDef>,
    rows: &Vec<UpstreamMetrics>,
) -> (r: Vec<UpstreamView>)
    ensures
        r@.len() == infos@.len(),
        forall|i: int| 0 <= i < infos@.len() ==> row_for(#[trigger] r@[i], infos@[i], summary_value(summary), catalog@, rows@),
{
    let mut r: Vec<UpstreamView> = Vec::new();
    let mut i: usize = 0;
    while i < infos.len()
        invariant
            i <= infos@.len(),
            r@.len() == i,
            forall|j: int| 0 <= j < i ==> row_for(#[trigger] r@[j], infos@[j], summary_value(summary), catalog@, rows@),
        decreases infos@.len() - i,
    {
        let n = count_tools_of(catalog, infos[i].name.as_str());
        r.push(upstream_view(&infos[i], summary, n, rows));
        i = i + 1;
    }
    r
}

/// How many of `infos` the summary reports connected.
pub open spec fn connected_count(infos: Seq<UpstreamInfo>, summary: Option<RebuildSummary>) -> nat
    decreases infos.len(),
{
    if infos.len() == 0 {
        0
    } else {
        connected_count(infos.drop_last(), summary) + if status_of(summary, infos.last().name@).0 == "connected"@ {
            1nat
        } else {
            0nat
        }
    }
}

proof fn lemma_connected_rows(
    v: Seq<UpstreamView>,
    infos: Seq<UpstreamInfo>,
    summary: Option<RebuildSummary>,
    catalog: Seq<ToolDef>,
    rows: Seq<UpstreamMetrics>,
)
    requires
        v.len() == infos.len(),
        forall|i: int| 0 <= i < infos.len() ==> row_for(#[trigger] v[i], infos[i], summary, catalog, rows),
    ensures
        connected_in(v) == connected_count(infos, summary),
    decreases v.len(),
{
    if v.len() > 0 {
        assert forall|i: int| 0 <= i < infos.drop_last().len() implies row_for(#[trigger] v.drop_last()[i], infos.drop_last()[i], summary, catalog, rows) by {
            assert(v.drop_last()[i] == v[i]);
            assert(infos.drop_last()[i] == infos[i]);
        }
        lemma_connected_rows(v.drop_last(), infos.drop_last(), summary, catalog, rows);
        assert(row_for(v[v.len() - 1], infos[infos.len() - 1], summary, catalog, rows));
    }
}

/// The dashboard overview: uptime, strategy, upstream and tool counts, total calls, and how
/// many upstreams the last rebuild skipped.
pub fn overview(
    uptime_secs: u64,
    strategy: &str,
    infos: &Vec<UpstreamInfo>,
    summary: Option<&RebuildSummary>,
    catalog: &Vec<ToolDef>,
    metrics: &MetricsSnapshot,
) -> (r: Overview)
    ensures
        r.uptime_secs == uptime_secs,
        r.strategy@ == strategy@,
        r.upstreams_total == infos@.len(),
        r.upstreams_connected == connected_count(infos@, summary_value(summary)),
        r.tools_total == catalog@.len(),
        r.total_calls == metrics.total_calls,
        r.last_rebuild_skipped == match summary {
            Some(s) => s.skipped@.len(),
            None => 0,
        },
{
    let views = upstreams(infos, summary, catalog, &metrics.per_upstream);
    let connected = count_connected(&views);
    proof {
        lemma_connected_rows(views@, infos@, summary_value(summary), catalog@, metrics.per_upstream@);
    }
    Overview {
        uptime_secs,
        strategy: string_of(strategy),
        upstreams_total: infos.len(),
        upstreams_connected: connected,
        tools_total: catalog.len(),
        total_calls: metrics.total_calls,
        last_rebuild_skipped: match summary {
            Some(s) => s.skipped.len(),
            None => 0,
        },
    }
}

/// The first configured upstream named `name`.
pub open spec fn first_info(infos: Seq<UpstreamInfo>, name: Seq<char>) -> Option<int> {
    if exists|i: int| 0 <= i < infos.len() && (#[trigger] infos[i]).name@ == name {
        Some(choose|i: int| 0 <= i < infos.len() && (#[trigger] infos[i]).name@ == name && forall|j: int| 0 <= j < i ==> (#[trigger] infos[j]).name@ != name)
    } else {
        None
    }
}

/// One upstream's detail: its dashboard row and the tools it exposes; `None` when `name` is
/// not a configured upstream.
pub fn upstream_detail(
    infos: &Vec<UpstreamInfo>,
    name: &str,
    summary: Option<&RebuildSummary>,
    catalog: &Vec<ToolDef>,
    rows: &Vec<UpstreamMetrics>,
) -> (r: Option<UpstreamDetail>)
    ensures
        match first_info(infos@, name@) {
            None => r is None,
            Some(i) => r matches Some(d) && {
                let info = infos@[i];
                &&& d.name@ == info.name@
                &&& d.transport@ == info.transport@
                &&& (d.status@, opt_view(d.reason)) == status_of(summary_value(summary), info.name@)
                &&& views_of(d.tools@) == listed(catalog@, served_by(info.name@))
                &&& d.tools_count == d.tools@.len()
                &&& (d.calls, d.errors) == match row_of(rows@, info.name@) {
                    Some(m) => (m.calls, m.errors),
                    None => (0u64, 0u64),
                }
            },
        },
{
    let mut i: usize = 0;
    while i < infos.len()
        invariant
            i <= infos@.len(),
            forall|j: int| 0 <= j < i ==> (#[trigger] infos@[j]).name@ != name@,
        decreases infos@.len() - i,
    {
        if str_eq(infos[i].name.as_str(), name) {
            proof {
                let w = choose|w: int| 0 <= w < infos@.len() && (#[trigger] infos@[w]).name@ == name@ && forall|j: int| 0 <= j < w ==> (#[trigger] infos@[j]).name@ != name@;
                if w > i {
                    assert(infos@[i as int].name@ != name@);
                }
            }
            let info = &infos[i];
            let (status, reason) = resolve_status(summary, info.name.as_str());
            let (calls, errors) = upstream_counts(rows, info.name.as_str());
            let tools = tools_served_by(catalog, info.name.as_str());
            return Some(UpstreamDetail {
                name: info.name.clone(),
                transport: info.transport.clone(),
                status,
                reason,
                tools_count: tools.len(),
                calls,
                errors,
                tools,
            });
        }
        i = i + 1;
    }
    None
}

/// One tool's detail, looked up by qualified name; `None` when the catalog has no such tool.
pub fn tool_detail(catalog: &Vec<ToolDef>, name: &str) -> (r: Option<ToolDetail>)
    ensures
        match first_tool(catalog@, name@) {
            None => r is None,
            Some(i) => r matches Some(d) && {
                let t = catalog@[i];
                &&& d.name@ == qualified(t)
                &&& d.server@ == t.server@
                &&& d.description@ == t.description@
                &&& d.input_schema@ == t.input_schema@
            },
        },
{
    match get_tool_details(catalog, name) {
        None => None,
        Some(t) => Some(ToolDetail {
            name: t.qualified_name(),
            server: t.server.clone(),
            description: t.description.clone(),
            input_schema: t.input_schema.clone(),
        }),
    }
}

/// The calls list from `source`: the history (replayed from the audit log, `None` when none is
/// configured) when it is `"history"`, the live ring otherwise.
pub fn calls(
    source: &str,
    ring: Option<&CallRingSink>,
    replayed: Option<(Vec<CallItem>, bool)>,
    filter: &CallFilter,
    limit: usize,
    offset: usize,
) -> (r: CallsResponse)
    ensures
        source@ == "history"@ ==> r.source@ == "history"@ && match replayed {
            None => r.history_unavailable && r.total == 0 && r.items@.len() == 0,
            Some((items, ok)) => r.history_unavailable == !ok && r.total == items@.len()
                && r.items@.map_values(|c: CallItem| c@) == page_of(
                items@.map_values(|c: CallItem| c@),
                offset as nat,
                limit as nat,
            ),
        },
        source@ != "history"@ ==> r.source@ == "live"@ && !r.history_unavailable && match ring {
            None => r.total == 0 && r.items@.len() == 0,
            Some(g) => r.items@.map_values(|c: CallItem| c@) == page_of(
                newest_matches(g.entries(), filter@),
                offset as nat,
                limit as nat,
            ) && r.total == newest_matches(g.entries(), filter@).len(),
        },
{
    if is_history_source(source) {
        calls_history(replayed, limit, offset)
    } else {
        calls_live(ring, filter, limit, offset)
    }
}

/// The first item of `items` with id `id`.
pub open spec fn item_with_id(items: Seq<CallItem>, id: Seq<char>) -> Option<ItemView> {
    if exists|k: int| 0 <= k < items.len() && (#[trigger] items[k])@.id == id {
        Some(items[choose|k: int| 0 <= k < items.len() && (#[trigger] items[k])@.id == id && forall|j: int| 0 <= j < k ==> (#[trigger] items[j])@.id != id]@)
    } else {
        None
    }
}

/// The first resident entry with sequence number `seq`, with its content.
pub open spec fn entry_with_seq(entries: Seq<StoredCall>, seq: u64) -> Option<ItemView> {
    if exists|i: int| 0 <= i < entries.len() && (#[trigger] entries[i]).seq == seq {
        Some(stored_view(entries[choose|i: int| 0 <= i < entries.len() && (#[trigger] entries[i]).seq == seq && forall|j: int| 0 <= j < i ==> (#[trigger] entries[j]).seq != seq], true))
    } else {
        None
    }
}

/// What call id `id` resolves to: an `h…` id among the replayed history items (nothing when
/// there is no audit log or it could not be read), a decimal id in the live ring, anything
/// else to nothing.
pub open spec fn resolved_call(
    id: Seq<char>,
    entries: Option<Seq<StoredCall>>,
    history: Option<(Seq<CallItem>, bool)>,
) -> Option<ItemView> {
    if id.len() > 0 && id[0] == 'h' {
        match history {
            Some((items, true)) => item_with_id(items, id),
            _ => None,
        }
    } else {
        match crate::text::parse_unsigned(id, u64::MAX as nat) {
            Some(n) => match entries {
                Some(e) => entry_with_seq(e, n as u64),
                None => None,
            },
            None => None,
        }
    }
}

/// One call's detail by id (see `resolved_call`). `history` is the replayed audit log (`None`
/// when none is configured) with whether it could be read.
pub fn call_detail(id: &str, ring: Option<&CallRingSink>, history: Option<(Vec<CallItem>, bool)>) -> (r: Option<CallItem>)
    ensures
        match r {
            Some(c) => Some(c@),
            None => None,
        } == resolved_call(
            id@,
            match ring {
                Some(g) => Some(g.entries()),
                None => None,
            },
            match history {
                Some((items, ok)) => Some((items@, ok)),
                None => None,
            },
        ),
{
    match route_call_id(id) {
        CallIdRoute::History => match history {
            Some((items, ok)) => {
                if !ok {
                    return None;
                }
                let ghost all = items@;
                let r = find_by_id(items, id);
                proof {
                    match &r {
                        Some(c) => {
                            let k = choose|k: int| 0 <= k < all.len() && all[k]@ == c@ && forall|j: int| 0 <= j < k ==> (#[trigger] all[j])@.id != id@;
                            assert(all[k]@.id == id@);
                            let w = choose|w: int| 0 <= w < all.len() && (#[trigger] all[w])@.id == id@ && forall|j: int| 0 <= j < w ==> (#[trigger] all[j])@.id != id@;
                            if w < k {
                            } else if k < w {
                                assert(all[k]@.id != id@);
                            }
                        },
                        None => {},
                    }
                }
                r
            },
            None => None,
        },
        CallIdRoute::Live(seq) => match ring {
            Some(g) => {
                let r = g.get(seq);
                proof {
                    match &r {
                        Some(it) => {
                            let e = g.entries();
                            let i = choose|i: int| 0 <= i < e.len() && #[trigger] e[i].seq == seq && (forall|j: int| 0 <= j < i ==> e[j].seq != seq) && it@ == stored_view(e[i], true);
                            let w = choose|w: int| 0 <= w < e.len() && (#[trigger] e[w]).seq == seq && forall|j: int| 0 <= j < w ==> (#[trigger] e[j]).seq != seq;
                            if w < i {
                            } else if i < w {
                                assert(e[i].seq != seq);
                            }
                        },
                        None => {},
                    }
                }
                r
            },
            None => None,
        },
        CallIdRoute::Invalid => None,
    }
}

/// A call just recorded resolves by its id: with the ring in sequence order (see
/// `lemma_ring_in_seq_order`), the entry carrying the new sequence number is the new call,
/// with its content.
pub proof fn lemma_recorded_call_resolves(
    entries: Seq<StoredCall>,
    cap: nat,
    next: u64,
    record: CallRecord,
    content: CallContent,
)
    requires
        consecutive(entries, next),
        1 <= cap,
        entries.len() <= cap,
    ensures
        entry_with_seq(ring_after(entries, cap, StoredCall { seq: next, record, content }), next) == Some(
            stored_view(StoredCall { seq: next, record, content }, true),
        ),
{
    let s = StoredCall { seq: next, record, content };
    let after = ring_after(entries, cap, s);
    let last = after.len() - 1;
    assert(after[last] == s);
    assert forall|j: int| 0 <= j < last implies (#[trigger] after[j]).seq != next by {
        if entries.len() == cap {
            assert(after[j] == entries[j + 1]);
        } else {
            assert(after[j] == entries[j]);
        }
    }
    let w = choose|i: int| 0 <= i < after.len() && (#[trigger] after[i]).seq == next && forall|j: int| 0 <= j < i ==> (#[trigger] after[j]).seq != next;
    if w < last {
        assert(after[w].seq != next);
    } else if w > last {
    }
}

/// A fresh ring numbers its calls `0, 1, 2, ...`; after `n` of them, a live id resolves to its
/// call exactly when that call is among the last `min(n, cap)` kept, and to nothing otherwise.
pub proof fn lemma_ring_get_finds_kept(cap: nat, ss: Seq<StoredCall>, seq: u64)
    requires
        cap >= 1,
        forall|i: int| 0 <= i < ss.len() ==> (#[trigger] ss[i]).seq == i,
    ensures
        entry_with_seq(ring_of(cap, ss), seq) == (if ss.len() - min_nat(ss.len(), cap) <= seq < ss.len() {
            Some(stored_view(ss[seq as int], true))
        } else {
            None
        }),
{
    lemma_ring_keeps_last(cap, ss);
    let lo = ss.len() - min_nat(ss.len(), cap);
    let e = ring_of(cap, ss);
    assert forall|i: int| 0 <= i < e.len() implies (#[trigger] e[i]).seq == lo + i by {
        assert(e[i] == ss[lo + i]);
    }
    if lo <= seq < ss.len() {
        let k = seq - lo;
        assert(e[k].seq == seq);
        let w = choose|i: int| 0 <= i < e.len() && (#[trigger] e[i]).seq == seq && forall|j: int| 0 <= j < i ==> (#[trigger] e[j]).seq != seq;
        assert(w == k);
        assert(e[k] == ss[seq as int]);
    } else {
        assert(!exists|i: int| 0 <= i < e.len() && (#[trigger] e[i]).seq == seq);
    }
}

} // verus!
