use mcpgw::activity::{aggregate, AggInput, BUCKETS, TOP_N};

fn inp(ts: u64, latency: u64, outcome: &str, target: Option<&str>, kind: Option<&str>) -> AggInput {
    AggInput {
        id: format!("{ts}"),
        ts_unix_ms: ts,
        meta_tool: if target.is_some() { "call_tool".into() } else { "search_tools".into() },
        target_tool: target.map(|s| s.to_string()),
        latency_ms: latency,
        outcome: outcome.into(),
        error_kind: kind.map(|s| s.to_string()),
    }
}

#[test]
fn buckets_are_fixed_count_and_width() {
    let now = 1_000_000;
    let r = aggregate(&[], 24_000, now);
    assert_eq!(r.buckets.len(), BUCKETS, "always 24 buckets");
    assert_eq!(r.bucket_ms, 1_000, "24000/24");
    assert_eq!(r.window_ms, 24_000);
    assert!(r.buckets.iter().all(|b| b.total == 0 && b.errors == 0), "empty -> all zero");
    assert_eq!(r.total, 0);
}

#[test]
fn out_of_window_excluded_and_now_in_last_bucket() {
    let now = 100_000;
    let r = aggregate(
        &[inp(now - 50_000, 5, "ok", None, None), inp(now, 5, "ok", Some("a__x"), None)],
        24_000,
        now,
    );
    assert_eq!(r.total, 1, "out-of-window call excluded");
    assert_eq!(r.buckets[BUCKETS - 1].total, 1, "now falls in the last bucket");
}

#[test]
fn errors_counted_in_buckets_and_totals() {
    let now = 100_000;
    let r = aggregate(
        &[
            inp(now, 1, "ok", Some("a__x"), None),
            inp(now, 1, "error", Some("a__x"), Some("upstream_call")),
            inp(now, 1, "timeout", Some("a__y"), Some("timeout")),
        ],
        24_000,
        now,
    );
    assert_eq!(r.total, 3);
    assert_eq!(r.errors, 2, "error + timeout count as errors; ok does not");
    assert_eq!(r.buckets[BUCKETS - 1].errors, 2);
}

#[test]
fn by_error_kind_only_non_ok_sorted_desc() {
    let now = 100_000;
    let r = aggregate(
        &[
            inp(now, 1, "error", Some("a"), Some("upstream_call")),
            inp(now, 1, "timeout", Some("a"), Some("timeout")),
            inp(now, 1, "error", Some("a"), Some("timeout")),
            inp(now, 1, "ok", Some("a"), None),
        ],
        24_000,
        now,
    );
    assert_eq!(r.by_error_kind.len(), 2);
    assert_eq!(r.by_error_kind[0].kind, "timeout");
    assert_eq!(r.by_error_kind[0].count, 2, "count desc");
    assert_eq!(r.by_error_kind[1].kind, "upstream_call");
}

#[test]
fn busiest_only_counts_target_tool_and_truncates_top_n() {
    let now = 100_000;
    let mut v = vec![inp(now, 1, "ok", None, None)];
    for (name, n) in [("t1", 6), ("t2", 4), ("t3", 3), ("t4", 2), ("t5", 1), ("t6", 1)] {
        for _ in 0..n {
            v.push(inp(now, 1, "ok", Some(name), None));
        }
    }
    let r = aggregate(&v, 24_000, now);
    assert_eq!(r.busiest_tools.len(), TOP_N, "top-5 only");
    assert_eq!(r.busiest_tools[0].name, "t1");
    assert_eq!(r.busiest_tools[0].count, 6);
    assert!(r.busiest_tools.iter().all(|t| t.name != "t6"), "6th tool dropped");
}

#[test]
fn slowest_is_latency_desc_top_n() {
    let now = 100_000;
    let v: Vec<AggInput> = [120u64, 50, 800, 300, 10, 999]
        .iter()
        .map(|&l| inp(now, l, "ok", Some("a__x"), None))
        .collect();
    let r = aggregate(&v, 24_000, now);
    assert_eq!(r.slowest.len(), TOP_N);
    assert_eq!(r.slowest[0].latency_ms, 999);
    assert_eq!(r.slowest[1].latency_ms, 800);
    assert_eq!(r.slowest[4].latency_ms, 50, "10ms dropped (6th)");
}

#[test]
fn slow_label_falls_back_to_meta_tool() {
    let now = 100_000;
    let r = aggregate(&[inp(now, 5, "ok", None, None)], 24_000, now);
    assert_eq!(r.slowest[0].label, "search_tools", "label = meta_tool when no target");
    assert_eq!(r.slowest[0].meta_tool, "search_tools");
}

#[test]
fn bucket_totals_add_up_to_window_total() {
    let now = 100_000;
    let v: Vec<AggInput> = (0..60u64)
        .map(|i| inp(now - i * 500, 1, if i % 3 == 0 { "error" } else { "ok" }, Some("a__b"), None))
        .collect();
    let r = aggregate(&v, 24_000, now);
    let sum: u64 = r.buckets.iter().map(|b| b.total).sum();
    let errs: u64 = r.buckets.iter().map(|b| b.errors).sum();
    assert_eq!(sum, r.total);
    assert_eq!(errs, r.errors);
    assert_eq!(r.total, 49, "ts >= 76000 (i <= 48)");
    assert_eq!(r.buckets[0].t, 76_000);
    assert_eq!(r.buckets[23].t, 76_000 + 23 * 1000);
}

#[test]
fn small_window_uses_one_ms_buckets_and_saturates_start() {
    let r = aggregate(&[inp(3, 7, "ok", None, None)], 5, 10);
    assert_eq!(r.bucket_ms, 1, "5/24 rounds to 0 -> at least 1");
    assert_eq!(r.buckets[0].t, 0, "start saturates at 0");
    assert_eq!(r.buckets[3].total, 1);
}

#[test]
fn ties_rank_by_name_and_later_call_first() {
    let now = 100_000;
    let r = aggregate(
        &[
            inp(now - 10, 5, "error", Some("b__t"), Some("zeta")),
            inp(now - 5, 5, "error", Some("a__t"), Some("alpha")),
        ],
        24_000,
        now,
    );
    assert_eq!(r.busiest_tools[0].name, "a__t", "equal counts -> name ascending");
    assert_eq!(r.by_error_kind[0].kind, "alpha");
    assert_eq!(r.slowest[0].id, (now - 5).to_string(), "equal latency -> later first");
}
