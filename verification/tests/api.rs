use mcpgw::api::{
    call_detail, calls, host_is_local, overview, tool_detail, tools, upstream_detail, upstreams,
    call_filter_from_query, calls_history, calls_live, count_connected, host_of, is_history_source,
    is_localhost_name, metrics_history, qparam_usize, resolve_status, tool_matches, upstream_counts,
    upstream_view, UpstreamInfo, CALL_HISTORY_SCAN,
};
use mcpgw::calls::{CallFilter, CallItem, CallRingSink};
use mcpgw::gateway::RebuildSummary;
use mcpgw::discovery::traces_history;
use mcpgw::history::{is_history_id, replay_calls, AuditEntry, MetricBucket};
use mcpgw::metrics::{MetricsSink, MetricsSnapshot, UpstreamMetrics};
use mcpgw::retrieval::ToolDef;
use mcpgw::observe::{CallContent, CallOutcome, CallRecord, MetaTool};

fn q(pairs: &[(&str, &str)]) -> Vec<(String, String)> {
    pairs.iter().map(|(k, v)| (k.to_string(), v.to_string())).collect()
}

#[test]
fn is_history_id_distinguishes_live_and_history() {
    assert!(is_history_id("h5-0"));
    assert!(!is_history_id("0"));
    assert!(!is_history_id("42"));
}

#[test]
fn call_filter_from_query_maps_params() {
    let f = call_filter_from_query(&q(&[
        ("meta", "call_tool"),
        ("upstream", "gh"),
        ("tool", "gh__issue"),
        ("outcome", "error"),
        ("since", "10"),
        ("until", "20"),
    ]));
    assert_eq!(f.meta_tool.as_deref(), Some("call_tool"));
    assert_eq!(f.upstream.as_deref(), Some("gh"));
    assert_eq!(f.target_tool.as_deref(), Some("gh__issue"));
    assert_eq!(f.outcome.as_deref(), Some("error"));
    assert_eq!(f.since_ms, Some(10));
    assert_eq!(f.until_ms, Some(20));
    assert_eq!(f.q, None);
}

#[test]
fn query_params_parse_or_fall_back() {
    let p = q(&[("limit", "25"), ("offset", "x"), ("since", "-1"), ("q", "needle")]);
    assert_eq!(qparam_usize(&p, "limit", 100), 25);
    assert_eq!(qparam_usize(&p, "offset", 0), 0, "not a number -> default");
    assert_eq!(qparam_usize(&p, "absent", 7), 7);
    let f = call_filter_from_query(&p);
    assert_eq!(f.since_ms, None, "negative is not a u64");
    assert_eq!(f.q.as_deref(), Some("needle"));
    assert_eq!(qparam_usize(&q(&[("limit", "1"), ("limit", "2")]), "limit", 0), 2, "last value wins");
    assert!(is_history_source("history"));
    assert!(!is_history_source("bogus"));
    assert_eq!(CALL_HISTORY_SCAN, 50_000);
}

fn call_rec(meta: MetaTool, upstream: Option<&str>, outcome: CallOutcome, ts: u64) -> CallRecord {
    CallRecord {
        ts_unix_ms: ts,
        meta_tool: meta,
        target_tool: None,
        upstream: upstream.map(|s| s.to_string()),
        latency_ms: 1,
        outcome,
        error_kind: None,
        arg_bytes: 0,
        result_bytes: 0,
    }
}

fn no_content() -> CallContent {
    CallContent { args: String::new(), args_truncated: false, result: String::new(), result_truncated: false }
}

#[test]
fn calls_live_filters_and_paginates() {
    let mut ring = CallRingSink::new(10);
    ring.record(&call_rec(MetaTool::CallTool, Some("gh"), CallOutcome::Success, 1), &no_content());
    ring.record(&call_rec(MetaTool::CallTool, Some("wx"), CallOutcome::Error, 2), &no_content());
    ring.record(&call_rec(MetaTool::SearchTools, Some("gh"), CallOutcome::Success, 3), &no_content());
    let f = CallFilter { meta_tool: Some("call_tool".into()), ..Default::default() };
    let resp = calls_live(Some(&ring), &f, 100, 0);
    assert_eq!(resp.source, "live");
    assert!(!resp.history_unavailable);
    assert_eq!(resp.total, 2);
    assert_eq!(resp.items[0].upstream.as_deref(), Some("wx"), "newest-first");
    let none = calls_live(None, &CallFilter::default(), 100, 0);
    assert_eq!(none.total, 0);
    assert!(none.items.is_empty());
}

fn item(id: &str, up: &str) -> CallItem {
    CallItem {
        id: id.into(),
        ts_unix_ms: 0,
        meta_tool: "call_tool".into(),
        target_tool: None,
        upstream: Some(up.into()),
        latency_ms: 1,
        outcome: "ok".into(),
        error_kind: None,
        arg_bytes: 0,
        result_bytes: 0,
        args: None,
        args_truncated: false,
        result: None,
        result_truncated: false,
    }
}

#[test]
fn calls_history_paginates_and_reports_availability() {
    let items = vec![item("h3-0", "c"), item("h2-0", "b"), item("h1-0", "a")];
    let resp = calls_history(Some((items, true)), 1, 1);
    assert_eq!(resp.source, "history");
    assert_eq!(resp.total, 3, "total counts all matched");
    assert_eq!(resp.items.len(), 1);
    assert_eq!(resp.items[0].upstream.as_deref(), Some("b"));
    let missing = calls_history(None, 100, 0);
    assert!(missing.history_unavailable);
    assert!(missing.items.is_empty());
    let unreadable = calls_history(Some((Vec::new(), false)), 100, 0);
    assert!(unreadable.history_unavailable);
    let h = metrics_history(None);
    assert!(h.history_unavailable && h.buckets.is_empty());
    let b = vec![MetricBucket { bucket_start_ms: 0, calls: 1, errors: 0 }];
    let h = metrics_history(Some((b.clone(), true)));
    assert!(!h.history_unavailable);
    assert_eq!(h.buckets, b);
}

#[test]
fn status_comes_from_the_last_rebuild() {
    assert_eq!(resolve_status(None, "github"), ("unknown", None));
    let s = RebuildSummary {
        ingested: vec!["github".into()],
        skipped: vec![("slow".into(), "ingest timed out".into()), ("slow".into(), "second".into())],
    };
    assert_eq!(resolve_status(Some(&s), "github"), ("connected", None));
    assert_eq!(resolve_status(Some(&s), "slow"), ("skipped", Some("ingest timed out".to_string())));
    assert_eq!(resolve_status(Some(&s), "other"), ("unknown", None));
}

#[test]
fn upstream_rows_combine_status_tools_and_counts() {
    let info = UpstreamInfo { name: "github".into(), transport: "stdio".into() };
    let rows = vec![UpstreamMetrics { upstream: "github".into(), calls: 4, errors: 1 }];
    let v = upstream_view(&info, None, 2, &rows);
    assert_eq!(v.name, "github");
    assert_eq!(v.transport, "stdio");
    assert_eq!(v.status, "unknown");
    assert_eq!((v.tools, v.calls, v.errors), (2, 4, 1));
    assert_eq!(upstream_counts(&rows, "nope"), (0, 0));
    let s = RebuildSummary { ingested: vec!["github".into()], skipped: vec![] };
    let connected = upstream_view(&info, Some(&s), 0, &rows);
    assert_eq!(count_connected(&vec![v, connected]), 1);
}

#[test]
fn tools_filter_is_case_insensitive_over_name_and_description() {
    assert!(tool_matches(None, "gh__create_issue", "Create an issue"));
    assert!(tool_matches(Some(""), "gh__create_issue", "Create an issue"));
    assert!(tool_matches(Some("ISSUE"), "gh__create_issue", "x"));
    assert!(tool_matches(Some("forecast"), "wx__now", "The Forecast"));
    assert!(!tool_matches(Some("zzz"), "wx__now", "The Forecast"));
}

#[test]
fn host_is_local_accepts_loopback_rejects_remote() {
    // The host part as the check reads it (an IP literal is judged by the caller's address
    // parser, the literal `localhost` here).
    assert_eq!(host_of("127.0.0.1:8971").as_deref(), Some("127.0.0.1"));
    assert_eq!(host_of("localhost").as_deref(), Some("localhost"));
    assert_eq!(host_of("[::1]:8971").as_deref(), Some("::1"));
    assert_eq!(host_of("[::1]").as_deref(), Some("::1"));
    assert_eq!(host_of("[::1"), None);
    assert_eq!(host_of("localhost:80@evil.com"), None);
    assert_eq!(host_of("127.0.0.1@evil.com"), None);
    assert!(is_localhost_name(&host_of("LOCALHOST:8971").unwrap()));
    assert!(is_localhost_name(&host_of("localhost:8971").unwrap()));
    assert!(!is_localhost_name(&host_of("evil.com:8971").unwrap()));
    assert!(!is_localhost_name(&host_of("example.com").unwrap()));

    // Whether each host part is a loopback IP address, as an address parser reads it.
    let ip = |h: &str| -> Option<bool> {
        match host_of(h).as_deref() {
            Some("127.0.0.1") | Some("127.0.0.5") | Some("::1") => Some(true),
            Some("192.168.1.5") | Some("0.0.0.0") | Some("::") => Some(false),
            _ => None,
        }
    };
    for ok in ["127.0.0.1:8971", "127.0.0.1", "localhost", "localhost:8971", "LOCALHOST:8971", "[::1]:8971", "[::1]", "127.0.0.5:8971"] {
        assert!(host_is_local(Some(ok), ip(ok)), "{ok} should be local");
    }
    for bad in ["evil.com:8971", "192.168.1.5:8971", "example.com", "0.0.0.0:8971", "[::]:8971", "localhost:80@evil.com", "127.0.0.1@evil.com"] {
        assert!(!host_is_local(Some(bad), ip(bad)), "{bad} should NOT be local");
    }
    assert!(!host_is_local(Some("127.0.0.1@evil.com"), Some(true)), "userinfo is refused before the address");
    assert!(!host_is_local(None, None), "missing Host -> not local");
}

fn configured() -> Vec<UpstreamInfo> {
    vec![UpstreamInfo { name: "github".into(), transport: "stdio".into() }]
}

fn no_metrics() -> MetricsSnapshot {
    MetricsSnapshot { total_calls: 0, per_meta_tool: Vec::new(), per_upstream: Vec::new() }
}

fn tool(server: &str, name: &str, desc: &str) -> ToolDef {
    ToolDef { server: server.into(), name: name.into(), description: desc.into(), input_schema: "{\"type\":\"object\"}".into() }
}

#[test]
fn overview_reports_strategy_and_configured_upstreams() {
    let ov = overview(7, "bm25", &configured(), None, &Vec::new(), &no_metrics());
    assert_eq!(ov.strategy, "bm25");
    assert_eq!(ov.upstreams_total, 1);
    assert_eq!(ov.total_calls, 0);
    assert_eq!(ov.uptime_secs, 7);
    assert_eq!(ov.upstreams_connected, 0);
    assert_eq!(ov.last_rebuild_skipped, 0);
}

#[test]
fn overview_counts_connected_upstreams_tools_and_skips() {
    let infos = vec![
        UpstreamInfo { name: "github".into(), transport: "stdio".into() },
        UpstreamInfo { name: "slack".into(), transport: "http".into() },
        UpstreamInfo { name: "wx".into(), transport: "stdio".into() },
    ];
    let s = RebuildSummary {
        ingested: vec!["github".into(), "wx".into()],
        skipped: vec![("slack".into(), "connect failed".into())],
    };
    let catalog = vec![tool("github", "a", "x"), tool("github", "b", "y"), tool("wx", "now", "z")];
    let m = MetricsSnapshot { total_calls: 9, per_meta_tool: Vec::new(), per_upstream: Vec::new() };
    let ov = overview(1, "hybrid", &infos, Some(&s), &catalog, &m);
    assert_eq!(ov.upstreams_total, 3);
    assert_eq!(ov.upstreams_connected, 2);
    assert_eq!(ov.tools_total, 3);
    assert_eq!(ov.total_calls, 9);
    assert_eq!(ov.last_rebuild_skipped, 1);
    let rows = upstreams(&infos, Some(&s), &catalog, &vec![UpstreamMetrics { upstream: "wx".into(), calls: 3, errors: 1 }]);
    assert_eq!(rows.len(), 3);
    assert_eq!((rows[0].status, rows[0].tools), ("connected", 2));
    assert_eq!((rows[1].status, rows[1].reason.as_deref()), ("skipped", Some("connect failed")));
    assert_eq!((rows[2].tools, rows[2].calls, rows[2].errors), (1, 3, 1));
}

#[test]
fn upstreams_status_unknown_before_rebuild() {
    let ups = upstreams(&configured(), None, &Vec::new(), &Vec::new());
    assert_eq!(ups.len(), 1);
    assert_eq!(ups[0].name, "github");
    assert_eq!(ups[0].transport, "stdio");
    assert_eq!(ups[0].status, "unknown");
}

#[test]
fn tools_lists_catalog_and_filters() {
    assert!(tools(&Vec::new(), None).is_empty());
    assert!(tools(&Vec::new(), Some("x")).is_empty());
    let catalog = vec![tool("github", "create_issue", "Create an issue"), tool("wx", "now", "The Forecast")];
    let all = tools(&catalog, None);
    assert_eq!(all.len(), 2);
    assert_eq!(all[0].name, "github__create_issue");
    let hit = tools(&catalog, Some("FORECAST"));
    assert_eq!(hit.len(), 1);
    assert_eq!(hit[0].name, "wx__now");
    assert_eq!(hit[0].description, "The Forecast");
    assert_eq!(tools(&catalog, Some("")).len(), 2);
}

#[test]
fn upstream_detail_unknown_is_none() {
    assert!(upstream_detail(&configured(), "nope", None, &Vec::new(), &Vec::new()).is_none());
}

#[test]
fn upstream_detail_returns_view_and_tools() {
    let d = upstream_detail(&configured(), "github", None, &Vec::new(), &Vec::new()).expect("configured upstream resolves");
    assert_eq!(d.name, "github");
    assert_eq!(d.transport, "stdio");
    assert_eq!(d.status, "unknown");
    assert!(d.tools.is_empty(), "empty catalog -> no tools");
    let catalog = vec![tool("github", "a", "x"), tool("wx", "now", "z"), tool("github", "b", "y")];
    let d = upstream_detail(&configured(), "github", None, &catalog, &Vec::new()).unwrap();
    let names: Vec<_> = d.tools.iter().map(|t| t.name.as_str()).collect();
    assert_eq!(names, ["github__a", "github__b"]);
    assert_eq!(d.tools_count, 2);
}

#[test]
fn tool_detail_unknown_is_none() {
    assert!(tool_detail(&Vec::new(), "nope__missing").is_none());
    let catalog = vec![tool("github", "create_issue", "Create an issue")];
    let d = tool_detail(&catalog, "github__create_issue").unwrap();
    assert_eq!(d.server, "github");
    assert_eq!(d.name, "github__create_issue");
    assert_eq!(d.input_schema, "{\"type\":\"object\"}");
    assert!(tool_detail(&catalog, "github__missing").is_none());
}

fn audit(ts: u64, up: &str) -> AuditEntry {
    AuditEntry {
        ts_unix_ms: ts,
        meta_tool: "call_tool".into(),
        target_tool: None,
        upstream: Some(up.into()),
        latency_ms: 1,
        outcome: "ok".into(),
        error_kind: None,
        arg_bytes: 0,
        result_bytes: 0,
    }
}

/// The audit log as replayed for the calls views (newest first, every entry).
fn replayed(entries: Vec<AuditEntry>) -> Option<(Vec<CallItem>, bool)> {
    Some((replay_calls(entries, &CallFilter::default()), true))
}

#[test]
fn calls_live_empty_when_no_ring() {
    let resp = calls("live", None, None, &CallFilter::default(), 100, 0);
    assert_eq!(resp.total, 0);
    assert!(resp.items.is_empty());
    assert!(!resp.history_unavailable);
}

#[test]
fn calls_history_unavailable_without_audit_path() {
    let resp = calls("history", None, None, &CallFilter::default(), 100, 0);
    assert_eq!(resp.source, "history");
    assert!(resp.history_unavailable);
    assert!(resp.items.is_empty());
}

#[test]
fn calls_unknown_source_falls_through_to_live() {
    let mut ring = CallRingSink::new(10);
    ring.record(&call_rec(MetaTool::CallTool, Some("gh"), CallOutcome::Success, 1), &no_content());
    let resp = calls("bogus", Some(&ring), None, &CallFilter::default(), 100, 0);
    assert_eq!(resp.source, "live");
    assert_eq!(resp.total, 1);
}

#[test]
fn calls_history_paginates() {
    let h = replayed(vec![audit(1, "a"), audit(2, "b"), audit(3, "c")]);
    let resp = calls("history", None, h, &CallFilter::default(), 1, 1);
    assert_eq!(resp.total, 3, "total counts all matched");
    assert_eq!(resp.items.len(), 1);
    assert_eq!(resp.items[0].upstream.as_deref(), Some("b"));
}

#[test]
fn call_detail_live_by_seq_and_404() {
    let mut ring = CallRingSink::new(10);
    ring.record(&call_rec(MetaTool::CallTool, Some("gh"), CallOutcome::Success, 7), &no_content());
    let item = call_detail("0", Some(&ring), None).expect("seq 0 present");
    assert_eq!(item.ts_unix_ms, 7);
    assert!(call_detail("999", Some(&ring), None).is_none());
    assert!(call_detail("not-a-number", Some(&ring), None).is_none());
    assert!(call_detail("0", None, None).is_none());
}

#[test]
fn call_detail_history_by_composite_id() {
    let h = || replayed(vec![audit(5, "gh")]);
    let item = call_detail("h5-0", None, h()).expect("history id resolves");
    assert_eq!(item.ts_unix_ms, 5);
    assert_eq!(item.upstream.as_deref(), Some("gh"));
    assert!(call_detail("h5-9", None, h()).is_none());
}

#[test]
fn calls_history_list_id_resolves_in_detail_same_window() {
    let h = || replayed(vec![audit(9, "a"), audit(9, "b")]);
    let resp = calls("history", None, h(), &CallFilter::default(), 100, 0);
    assert_eq!(resp.total, 2);
    let first = &resp.items[0];
    let detail = call_detail(&first.id, None, h()).expect("listed id resolves in detail");
    assert_eq!(detail.upstream, first.upstream);
}

#[test]
fn call_detail_history_missing_file_is_none() {
    assert!(call_detail("h1-0", None, Some((Vec::new(), false))).is_none(), "history id but unreadable file -> None");
    assert!(call_detail("h1-0", None, None).is_none(), "no audit log -> None");
}

#[test]
fn traces_history_unavailable_without_path() {
    let t = traces_history(None);
    assert!(t.history_unavailable);
    assert!(t.traces.is_empty());
}

#[test]
fn metrics_reflects_recorded_calls() {
    let mut m = MetricsSink::new();
    m.record(&CallRecord {
        ts_unix_ms: 0,
        meta_tool: MetaTool::SearchTools,
        target_tool: None,
        upstream: None,
        latency_ms: 4,
        outcome: CallOutcome::Success,
        error_kind: None,
        arg_bytes: 0,
        result_bytes: 0,
    });
    assert_eq!(m.snapshot().total_calls, 1);
}
