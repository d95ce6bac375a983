use mcpgw::metrics::{MetricsSink, MAX_UPSTREAM_KEYS};
use mcpgw::observe::{CallOutcome, CallRecord, MetaTool};

fn rec(meta: MetaTool, outcome: CallOutcome, latency: u64, upstream: Option<&str>) -> CallRecord {
    CallRecord {
        ts_unix_ms: 0,
        meta_tool: meta,
        target_tool: None,
        upstream: upstream.map(|s| s.to_string()),
        latency_ms: latency,
        outcome,
        error_kind: None,
        arg_bytes: 0,
        result_bytes: 0,
    }
}

#[test]
fn aggregates_counts_errors_and_latency() {
    let mut sink = MetricsSink::new();
    sink.record(&rec(MetaTool::CallTool, CallOutcome::Success, 10, Some("github")));
    sink.record(&rec(MetaTool::CallTool, CallOutcome::Error, 30, Some("github")));
    sink.record(&rec(MetaTool::SearchTools, CallOutcome::Success, 5, None));
    let snap = sink.snapshot();
    assert_eq!(snap.total_calls, 3);
    let ct = snap.per_meta_tool.iter().find(|m| m.meta_tool == "call_tool").unwrap();
    assert_eq!(ct.calls, 2);
    assert_eq!(ct.errors, 1);
    assert_eq!(ct.max_ms, 30);
    let gh = snap.per_upstream.iter().find(|u| u.upstream == "github").unwrap();
    assert_eq!(gh.calls, 2);
    assert_eq!(gh.errors, 1);
}

#[test]
fn percentiles_are_monotonic_and_bounded_by_max() {
    let mut sink = MetricsSink::new();
    for ms in [1u64, 2, 5, 10, 50, 100, 200, 400] {
        sink.record(&rec(MetaTool::SearchTools, CallOutcome::Success, ms, None));
    }
    let snap = sink.snapshot();
    let s = snap.per_meta_tool.iter().find(|m| m.meta_tool == "search_tools").unwrap();
    assert!(s.p50_ms <= s.p95_ms, "p50 <= p95");
    assert!(s.p95_ms <= s.max_ms, "p95 <= max");
    assert_eq!(s.max_ms, 400);
}

#[test]
fn timeout_outcome_counts_as_an_error() {
    let mut sink = MetricsSink::new();
    sink.record(&rec(MetaTool::CallTool, CallOutcome::Timeout, 50, Some("github")));
    let snap = sink.snapshot();
    let ct = snap.per_meta_tool.iter().find(|m| m.meta_tool == "call_tool").unwrap();
    assert_eq!(ct.calls, 1);
    assert_eq!(ct.errors, 1, "a Timeout outcome is an error");
    let gh = snap.per_upstream.iter().find(|u| u.upstream == "github").unwrap();
    assert_eq!(gh.errors, 1);
}

#[test]
fn per_upstream_keys_are_capped() {
    let mut sink = MetricsSink::new();
    for i in 0..(MAX_UPSTREAM_KEYS + 50) {
        sink.record(&rec(MetaTool::CallTool, CallOutcome::Success, 1, Some(&format!("u{i}"))));
    }
    let snap = sink.snapshot();
    assert_eq!(snap.per_upstream.len(), MAX_UPSTREAM_KEYS, "distinct upstream keys are bounded");
    assert_eq!(
        snap.total_calls,
        (MAX_UPSTREAM_KEYS + 50) as u64,
        "all calls are still counted even past the upstream cap"
    );
}

#[test]
fn empty_snapshot_is_zeroed() {
    let snap = MetricsSink::new().snapshot();
    assert_eq!(snap.total_calls, 0);
    assert!(snap.per_meta_tool.is_empty());
    assert!(snap.per_upstream.is_empty());
}

#[test]
fn percentile_reads_bucket_bounds_capped_at_max() {
    let mut sink = MetricsSink::new();
    for ms in [1u64, 2, 3, 4, 6, 7, 8, 9, 20, 900] {
        sink.record(&rec(MetaTool::GetToolDetails, CallOutcome::Success, ms, None));
    }
    let snap = sink.snapshot();
    let m = &snap.per_meta_tool[0];
    assert_eq!(m.meta_tool, "get_tool_details");
    // 10 calls: p50 -> rank 5 -> cumulative [1,1,2,0..]: buckets <=1:1, <=2:1, <=5:2, <=10:4 -> reaches 5 at bound 10.
    assert_eq!(m.p50_ms, 10);
    // p95 -> rank 10 -> reaches at the 1000 bucket, capped at the max 900.
    assert_eq!(m.p95_ms, 900);
    assert_eq!(m.max_ms, 900);
}

#[test]
fn meta_rows_are_in_name_order_and_upstreams_sorted() {
    let mut sink = MetricsSink::new();
    sink.record(&rec(MetaTool::SearchTools, CallOutcome::Success, 1, Some("zeta")));
    sink.record(&rec(MetaTool::CallTool, CallOutcome::Success, 1, Some("alpha")));
    sink.record(&rec(MetaTool::GetToolDetails, CallOutcome::Error, 1, Some("mid")));
    let snap = sink.snapshot();
    let names: Vec<_> = snap.per_meta_tool.iter().map(|m| m.meta_tool.as_str()).collect();
    assert_eq!(names, ["call_tool", "get_tool_details", "search_tools"]);
    let ups: Vec<_> = snap.per_upstream.iter().map(|u| u.upstream.as_str()).collect();
    assert_eq!(ups, ["alpha", "mid", "zeta"]);
}

#[test]
fn snapshot_rows_add_up_to_every_record() {
    let mut sink = MetricsSink::new();
    sink.record(&rec(MetaTool::SearchTools, CallOutcome::Success, 3, None));
    sink.record(&rec(MetaTool::CallTool, CallOutcome::Error, 7, Some("b")));
    sink.record(&rec(MetaTool::GetToolDetails, CallOutcome::Success, 1, None));
    sink.record(&rec(MetaTool::CallTool, CallOutcome::Success, 9, Some("a")));
    sink.record(&rec(MetaTool::CallTool, CallOutcome::Timeout, 2, Some("b")));
    let snap = sink.snapshot();
    let names: Vec<&str> = snap.per_meta_tool.iter().map(|m| m.meta_tool.as_str()).collect();
    assert_eq!(names, vec!["call_tool", "get_tool_details", "search_tools"]);
    assert_eq!(snap.per_meta_tool.iter().map(|m| m.calls).sum::<u64>(), 5);
    for m in &snap.per_meta_tool {
        assert!(m.errors <= m.calls && m.p50_ms <= m.p95_ms && m.p95_ms <= m.max_ms);
    }
    let ups: Vec<(&str, u64, u64)> = snap.per_upstream.iter().map(|u| (u.upstream.as_str(), u.calls, u.errors)).collect();
    assert_eq!(ups, vec![("a", 1, 0), ("b", 2, 2)]);
    assert_eq!(sink.total_calls(), 5);
}
