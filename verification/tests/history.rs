use mcpgw::calls::CallFilter;
use mcpgw::history::{
    find_by_id, history_ids, make_history_id, metric_buckets, replay_calls, route_call_id, AuditEntry,
    CallIdRoute, MetricBucket, TailBuffer,
};

fn entry(ts: u64, up: Option<&str>, outcome: &str) -> AuditEntry {
    AuditEntry {
        ts_unix_ms: ts,
        meta_tool: "call_tool".into(),
        target_tool: None,
        upstream: up.map(|s| s.to_string()),
        latency_ms: 1,
        outcome: outcome.into(),
        error_kind: None,
        arg_bytes: 0,
        result_bytes: 0,
    }
}

#[test]
fn ids_count_same_timestamp_entries_in_file_order() {
    assert_eq!(history_ids(&vec![1, 1, 2]), vec!["h1-0", "h1-1", "h2-0"]);
    assert_eq!(history_ids(&vec![7, 3, 7, 7, 3]), vec!["h7-0", "h3-0", "h7-1", "h7-2", "h3-1"]);
    assert_eq!(make_history_id(5, 0), "h5-0");
}

#[test]
fn replay_audit_calls_newest_first_with_stable_ids() {
    let es = vec![entry(1, Some("gh"), "ok"), entry(1, None, "error"), entry(2, None, "ok")];
    let items = replay_calls(es, &CallFilter::default());
    let ids: Vec<_> = items.iter().map(|i| i.id.as_str()).collect();
    assert_eq!(ids, ["h2-0", "h1-1", "h1-0"]);
    assert_eq!(items[2].upstream.as_deref(), Some("gh"));
    assert!(items.iter().all(|i| i.args.is_none()));
}

#[test]
fn replay_audit_calls_ids_are_stable_regardless_of_filter() {
    let es = || vec![entry(1, None, "ok"), entry(1, None, "error"), entry(2, None, "error")];
    let all = replay_calls(es(), &CallFilter::default());
    let h1_1 = all.iter().find(|i| i.id == "h1-1").expect("h1-1 present unfiltered");
    assert_eq!(h1_1.outcome, "error");
    let f = CallFilter { outcome: Some("error".into()), ..Default::default() };
    let errs = replay_calls(es(), &f);
    let ids: Vec<_> = errs.iter().map(|i| i.id.as_str()).collect();
    assert_eq!(ids, ["h2-0", "h1-1"]);
}

#[test]
fn detail_resolves_ids_and_routes_sources() {
    let items = replay_calls(vec![entry(5, Some("gh"), "ok")], &CallFilter::default());
    let found = find_by_id(items, "h5-0").expect("history id resolves");
    assert_eq!(found.ts_unix_ms, 5);
    assert_eq!(found.upstream.as_deref(), Some("gh"));
    let items = replay_calls(vec![entry(5, Some("gh"), "ok")], &CallFilter::default());
    assert!(find_by_id(items, "h5-9").is_none());
    assert!(matches!(route_call_id("h1-0"), CallIdRoute::History));
    assert!(matches!(route_call_id("42"), CallIdRoute::Live(42)));
    assert!(matches!(route_call_id("not-a-number"), CallIdRoute::Invalid));
    assert!(matches!(route_call_id(""), CallIdRoute::Invalid));
}

#[test]
fn replay_audit_buckets_calls_and_errors() {
    let pts = vec![(0u64, "ok".to_string()), (10, "error".to_string()), (1000, "ok".to_string())];
    let b = metric_buckets(&pts, 1000);
    assert_eq!(b.len(), 2);
    assert_eq!(b[0], MetricBucket { bucket_start_ms: 0, calls: 2, errors: 1 });
    assert_eq!(b[1], MetricBucket { bucket_start_ms: 1000, calls: 1, errors: 0 });
}

#[test]
fn replay_audit_counts_timeout_as_an_error() {
    let pts = vec![(0u64, "timeout".to_string()), (1, "ok".to_string())];
    let b = metric_buckets(&pts, 1000);
    assert_eq!(b, vec![MetricBucket { bucket_start_ms: 0, calls: 2, errors: 1 }]);
}

#[test]
fn buckets_are_ascending_whatever_the_line_order() {
    let pts = vec![(2500u64, "ok".to_string()), (10, "ok".to_string()), (2999, "error".to_string())];
    let b = metric_buckets(&pts, 0);
    assert_eq!(b.len(), 3, "width 0 acts as 1 ms");
    let b = metric_buckets(&pts, 1000);
    assert_eq!(b, vec![
        MetricBucket { bucket_start_ms: 0, calls: 1, errors: 0 },
        MetricBucket { bucket_start_ms: 2000, calls: 2, errors: 1 },
    ]);
}

#[test]
fn tail_keeps_the_last_lines() {
    let mut t = TailBuffer::new(2);
    for l in ["a", "b", "c"] {
        t.push(l.to_string());
    }
    assert_eq!(t.into_lines(), vec!["b", "c"]);
    let mut z = TailBuffer::new(0);
    z.push("x".into());
    z.push("y".into());
    assert_eq!(z.into_lines(), vec!["y"], "limit 0 keeps one line");
}
