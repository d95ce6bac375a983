use mcpgw::calls::{CallFilter, CallRingSink};
use mcpgw::observe::{CallContent, CallOutcome, CallRecord, MetaTool};

fn rec(
    meta: MetaTool,
    upstream: Option<&str>,
    tool: Option<&str>,
    outcome: CallOutcome,
    ts: u64,
) -> CallRecord {
    CallRecord {
        ts_unix_ms: ts,
        meta_tool: meta,
        target_tool: tool.map(|s| s.to_string()),
        upstream: upstream.map(|s| s.to_string()),
        latency_ms: 1,
        outcome,
        error_kind: None,
        arg_bytes: 0,
        result_bytes: 0,
    }
}

fn content() -> CallContent {
    CallContent {
        args: "{\"text\":\"hi\"}".into(),
        args_truncated: false,
        result: "{\"ok\":true}".into(),
        result_truncated: false,
    }
}

fn content_of(args: &str, result: &str) -> CallContent {
    CallContent {
        args: args.into(),
        args_truncated: false,
        result: result.into(),
        result_truncated: false,
    }
}

#[test]
fn ring_stores_content_detail_includes_list_omits() {
    let mut ring = CallRingSink::new(10);
    ring.record(
        &rec(MetaTool::CallTool, Some("gh"), Some("gh__a"), CallOutcome::Success, 1),
        &content(),
    );
    let (items, _) = ring.query(&CallFilter::default(), 10, 0);
    assert!(items[0].args.is_none(), "list omits args");
    assert!(items[0].result.is_none(), "list omits result");
    let d = ring.get(0).expect("seq 0");
    assert_eq!(d.args.as_deref(), Some("{\"text\":\"hi\"}"));
    assert_eq!(d.result.as_deref(), Some("{\"ok\":true}"));
    assert!(!d.args_truncated);
}

#[test]
fn calls_ring_caps_and_returns_newest_first() {
    let mut ring = CallRingSink::new(2);
    ring.record(&rec(MetaTool::CallTool, Some("a"), Some("a__t"), CallOutcome::Success, 1), &content());
    ring.record(&rec(MetaTool::CallTool, Some("b"), Some("b__t"), CallOutcome::Success, 2), &content());
    ring.record(&rec(MetaTool::CallTool, Some("c"), Some("c__t"), CallOutcome::Success, 3), &content());
    let (items, total) = ring.query(&CallFilter::default(), 10, 0);
    assert_eq!(total, 2, "capacity 2");
    let ups: Vec<_> = items.iter().map(|i| i.upstream.as_deref().unwrap()).collect();
    assert_eq!(ups, ["c", "b"], "newest first");
}

#[test]
fn seq_is_monotonic_and_get_resolves_live_id() {
    let mut ring = CallRingSink::new(10);
    ring.record(&rec(MetaTool::CallTool, None, None, CallOutcome::Success, 1), &content());
    ring.record(&rec(MetaTool::CallTool, None, None, CallOutcome::Success, 2), &content());
    let (items, _) = ring.query(&CallFilter::default(), 10, 0);
    assert_eq!(items[0].id, "1");
    assert_eq!(items[1].id, "0");
    let one = ring.get(1).expect("seq 1 present");
    assert_eq!(one.ts_unix_ms, 2);
    assert!(ring.get(999).is_none(), "absent seq -> None");
}

#[test]
fn filter_by_each_dimension() {
    let mut ring = CallRingSink::new(10);
    ring.record(&rec(MetaTool::CallTool, Some("gh"), Some("gh__issue"), CallOutcome::Error, 10), &content());
    ring.record(&rec(MetaTool::SearchTools, Some("gh"), None, CallOutcome::Success, 20), &content());
    ring.record(&rec(MetaTool::CallTool, Some("wx"), Some("wx__now"), CallOutcome::Success, 30), &content());

    let f = CallFilter { meta_tool: Some("call_tool".into()), ..Default::default() };
    assert_eq!(ring.query(&f, 10, 0).1, 2);
    let f = CallFilter { upstream: Some("gh".into()), ..Default::default() };
    assert_eq!(ring.query(&f, 10, 0).1, 2);
    let f = CallFilter { target_tool: Some("wx__now".into()), ..Default::default() };
    assert_eq!(ring.query(&f, 10, 0).1, 1);
    let f = CallFilter { outcome: Some("error".into()), ..Default::default() };
    assert_eq!(ring.query(&f, 10, 0).1, 1);
    let f = CallFilter { since_ms: Some(20), ..Default::default() };
    assert_eq!(ring.query(&f, 10, 0).1, 2);
    let f = CallFilter { until_ms: Some(20), ..Default::default() };
    assert_eq!(ring.query(&f, 10, 0).1, 2);
}

#[test]
fn pagination_offset_and_limit() {
    let mut ring = CallRingSink::new(10);
    for ts in 0..5 {
        ring.record(&rec(MetaTool::CallTool, None, None, CallOutcome::Success, ts), &content());
    }
    let (page, total) = ring.query(&CallFilter::default(), 2, 1);
    assert_eq!(total, 5, "total counts all matched, not just the page");
    assert_eq!(page.len(), 2);
    assert_eq!(page[0].ts_unix_ms, 3);
    assert_eq!(page[1].ts_unix_ms, 2);
}

#[test]
fn empty_ring_and_limit_zero_and_offset_overflow() {
    let mut ring = CallRingSink::new(4);
    assert_eq!(ring.query(&CallFilter::default(), 10, 0), (vec![], 0));
    ring.record(&rec(MetaTool::CallTool, None, None, CallOutcome::Success, 1), &content());
    assert_eq!(ring.query(&CallFilter::default(), 0, 0).0.len(), 0, "limit 0 -> empty page");
    assert_eq!(ring.query(&CallFilter::default(), 10, 99).0.len(), 0, "offset past end -> empty page");
    assert_eq!(ring.query(&CallFilter::default(), 10, 99).1, 1, "...but total still 1");
}

#[test]
fn combined_filters_are_anded() {
    let mut ring = CallRingSink::new(10);
    ring.record(&rec(MetaTool::CallTool, Some("gh"), Some("gh__a"), CallOutcome::Success, 1), &content());
    ring.record(&rec(MetaTool::CallTool, Some("wx"), Some("wx__b"), CallOutcome::Error, 2), &content());
    ring.record(&rec(MetaTool::CallTool, Some("gh"), Some("gh__c"), CallOutcome::Error, 3), &content());
    let f = CallFilter {
        upstream: Some("gh".into()),
        outcome: Some("error".into()),
        ..Default::default()
    };
    let (items, total) = ring.query(&f, 10, 0);
    assert_eq!(total, 1, "AND of upstream=gh and outcome=error");
    assert_eq!(items[0].target_tool.as_deref(), Some("gh__c"));
}

#[test]
fn error_kind_round_trips_into_item() {
    let mut ring = CallRingSink::new(10);
    let mut r = rec(MetaTool::CallTool, Some("gh"), None, CallOutcome::Timeout, 1);
    r.error_kind = Some("timeout");
    ring.record(&r, &content());
    let (items, _) = ring.query(&CallFilter::default(), 10, 0);
    assert_eq!(items[0].error_kind.as_deref(), Some("timeout"));
    assert_eq!(items[0].outcome, "timeout");
}

#[test]
fn query_free_text_filters_over_args_and_result() {
    let mut ring = CallRingSink::new(10);
    ring.record(
        &rec(MetaTool::CallTool, Some("gh"), Some("gh__a"), CallOutcome::Success, 1),
        &content_of("{\"text\":\"hello\"}", "{\"ok\":1}"),
    );
    ring.record(
        &rec(MetaTool::CallTool, Some("gh"), Some("gh__b"), CallOutcome::Success, 2),
        &content_of("{\"text\":\"world\"}", "{\"ok\":2}"),
    );
    let f = CallFilter { q: Some("hello".into()), ..Default::default() };
    let (items, total) = ring.query(&f, 10, 0);
    assert_eq!(total, 1, "free-text matches args content");
    assert!(items[0].args.is_none(), "list omits args after content filter");
}

#[test]
fn query_arg_key_value_recurses_nested_args() {
    let mut ring = CallRingSink::new(10);
    ring.record(
        &rec(MetaTool::CallTool, Some("gh"), Some("gh__a"), CallOutcome::Success, 1),
        &content_of("{\"name\":\"gh__a\",\"arguments\":{\"text\":\"hi\"}}", "{}"),
    );
    ring.record(
        &rec(MetaTool::CallTool, Some("gh"), Some("gh__b"), CallOutcome::Success, 2),
        &content_of("{\"name\":\"gh__b\",\"arguments\":{\"text\":\"bye\"}}", "{}"),
    );
    let f = CallFilter {
        arg_key: Some("text".into()),
        arg_val: Some("hi".into()),
        ..Default::default()
    };
    assert_eq!(ring.query(&f, 10, 0).1, 1, "arg_key=text arg_val=hi matches nested");
}

#[test]
fn content_filters_skip_items_without_content() {
    let mut ring = CallRingSink::new(10);
    ring.record(
        &rec(MetaTool::CallTool, Some("gh"), None, CallOutcome::Success, 1),
        &content_of("{}", "{}"),
    );
    let f = CallFilter { meta_tool: Some("call_tool".into()), ..Default::default() };
    assert_eq!(ring.query(&f, 10, 0).1, 1);
}

#[test]
fn query_free_text_matches_result_only() {
    let mut ring = CallRingSink::new(10);
    ring.record(
        &rec(MetaTool::CallTool, Some("gh"), Some("gh__a"), CallOutcome::Success, 1),
        &content_of("{\"text\":\"x\"}", "{\"echoed\":\"needle42\"}"),
    );
    let f = CallFilter { q: Some("needle42".into()), ..Default::default() };
    assert_eq!(ring.query(&f, 10, 0).1, 1, "free-text matches result content (not just args)");
}

#[test]
fn arg_filter_invalid_json_does_not_match_or_panic() {
    let mut ring = CallRingSink::new(10);
    ring.record(
        &rec(MetaTool::CallTool, Some("gh"), Some("gh__a"), CallOutcome::Success, 1),
        &content_of("{not valid json", "{}"),
    );
    let f = CallFilter {
        arg_key: Some("text".into()),
        arg_val: Some("hi".into()),
        ..Default::default()
    };
    assert_eq!(ring.query(&f, 10, 0).1, 0, "invalid args JSON -> no match, no panic");
}

#[test]
fn arg_filter_matches_numeric_value() {
    let mut ring = CallRingSink::new(10);
    ring.record(
        &rec(MetaTool::CallTool, Some("gh"), Some("gh__a"), CallOutcome::Success, 1),
        &content_of("{\"n\":42}", "{}"),
    );
    let f = CallFilter {
        arg_key: Some("n".into()),
        arg_val: Some("42".into()),
        ..Default::default()
    };
    assert_eq!(ring.query(&f, 10, 0).1, 1, "numeric value stringified and matched");
}

#[test]
fn default_filter_matches_every_item() {
    let mut ring = CallRingSink::new(3);
    ring.record(&rec(MetaTool::SearchTools, None, None, CallOutcome::Error, 5), &content_of("", ""));
    ring.record(&rec(MetaTool::CallTool, Some("x"), Some("x__y"), CallOutcome::Timeout, 6), &content());
    let f = CallFilter::default();
    let (items, total) = ring.query(&f, 10, 0);
    assert_eq!(total, 2);
    assert!(items.iter().all(|i| f.matches(i)));
}

#[test]
fn wants_content_only_for_content_filters() {
    assert!(!CallFilter::default().wants_content());
    assert!(CallFilter { q: Some("a".into()), ..Default::default() }.wants_content());
    assert!(!CallFilter { arg_key: Some("a".into()), ..Default::default() }.wants_content());
    assert!(CallFilter { arg_key: Some("a".into()), arg_val: Some("b".into()), ..Default::default() }.wants_content());
}

#[test]
fn ring_with_zero_capacity_keeps_one() {
    let mut ring = CallRingSink::new(0);
    ring.record(&rec(MetaTool::CallTool, None, None, CallOutcome::Success, 1), &content());
    ring.record(&rec(MetaTool::CallTool, None, None, CallOutcome::Success, 2), &content());
    let (items, total) = ring.query(&CallFilter::default(), 10, 0);
    assert_eq!(total, 1);
    assert_eq!(items[0].ts_unix_ms, 2);
    assert!(ring.get(0).is_none(), "evicted");
    assert_eq!(ring.get(1).unwrap().ts_unix_ms, 2);
}

#[test]
fn ring_of_capacity_zero_keeps_only_the_newest_call() {
    let mut ring = CallRingSink::new(0);
    for i in 0..3 {
        ring.record(&rec(MetaTool::CallTool, None, None, CallOutcome::Success, i), &content());
    }
    assert_eq!(ring.query(&CallFilter::default(), usize::MAX, 0).1, 1);
    assert_eq!(ring.get(2).unwrap().ts_unix_ms, 2);
    assert!(ring.get(1).is_none());
    assert!(ring.get(0).is_none());
}

#[test]
fn ring_finds_exactly_the_last_cap_calls() {
    let mut ring = CallRingSink::new(3);
    for i in 0..5 {
        ring.record(&rec(MetaTool::SearchTools, None, None, CallOutcome::Success, 100 + i), &content_of("{}", "[]"));
    }
    let (items, total) = ring.query(&CallFilter::default(), usize::MAX, 0);
    assert_eq!(total, 3);
    let ids: Vec<&str> = items.iter().map(|it| it.id.as_str()).collect();
    assert_eq!(ids, vec!["4", "3", "2"]);
    for s in 0..5u64 {
        assert_eq!(ring.get(s).is_some(), s >= 2, "seq {s}");
    }
    let it = ring.get(3).unwrap();
    assert_eq!((it.id.as_str(), it.ts_unix_ms), ("3", 103));
    assert_eq!(it.args.as_deref(), Some("{}"));
}
