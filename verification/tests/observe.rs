use mcpgw::observe::{
    channel, decimal_string, render_record, CallContent, CallContentSink, CallOutcome, CallRecord,
    CaptureSink, MetaTool,
};
use std::sync::Mutex;

fn sample() -> CallRecord {
    CallRecord {
        ts_unix_ms: 1,
        meta_tool: MetaTool::CallTool,
        target_tool: Some("github__create_issue".into()),
        upstream: Some("github".into()),
        latency_ms: 7,
        outcome: CallOutcome::Success,
        error_kind: None,
        arg_bytes: 42,
        result_bytes: 100,
    }
}

#[test]
fn channel_full_increments_dropped_without_blocking() {
    let (mut sink, _rx) = channel(1);
    sink.record(&sample());
    sink.record(&sample());
    sink.record(&sample());
    assert_eq!(sink.dropped_count(), 2);
}

#[test]
fn call_content_sink_receives_meta_and_content() {
    struct Cap(Mutex<Vec<(String, String)>>);
    impl CallContentSink for Cap {
        fn record(&self, meta: &CallRecord, content: &CallContent) {
            self.0
                .lock()
                .unwrap()
                .push((meta.meta_tool.as_str().to_string(), content.args.clone()));
        }
    }
    let cap = Cap(Mutex::new(Vec::new()));
    let meta = CallRecord {
        ts_unix_ms: 0,
        meta_tool: MetaTool::CallTool,
        target_tool: Some("s__t".into()),
        upstream: Some("s".into()),
        latency_ms: 1,
        outcome: CallOutcome::Success,
        error_kind: None,
        arg_bytes: 0,
        result_bytes: 0,
    };
    let content = CallContent {
        args: "{\"x\":1}".into(),
        args_truncated: false,
        result: "ok".into(),
        result_truncated: false,
    };
    cap.record(&meta, &content);
    let got = cap.0.lock().unwrap();
    assert_eq!(got[0], ("call_tool".to_string(), "{\"x\":1}".to_string()));
}

#[test]
fn capture_sink_records_in_order() {
    let mut s = CaptureSink::new();
    let mut a = sample();
    a.outcome = CallOutcome::Success;
    let mut b = sample();
    b.outcome = CallOutcome::Error;
    s.record(&a);
    s.record(&b);
    let got = s.records();
    assert_eq!(got.len(), 2);
    assert_eq!(got[0].outcome, CallOutcome::Success);
    assert_eq!(got[1].outcome, CallOutcome::Error);
}

#[test]
fn enums_render_as_snake_case_tokens() {
    assert_eq!(MetaTool::SearchTools.as_str(), "search_tools");
    assert_eq!(MetaTool::GetToolDetails.as_str(), "get_tool_details");
    assert_eq!(MetaTool::CallTool.as_str(), "call_tool");
    assert_eq!(CallOutcome::Success.as_str(), "ok");
    assert_eq!(CallOutcome::Error.as_str(), "error");
    assert_eq!(CallOutcome::Timeout.as_str(), "timeout");
}

#[test]
fn audit_line_is_metadata_only_and_skips_absent_optionals() {
    let line = render_record(&sample());
    assert_eq!(
        line,
        "{\"ts_unix_ms\":1,\"meta_tool\":\"call_tool\",\"target_tool\":\"github__create_issue\",\"upstream\":\"github\",\"latency_ms\":7,\"outcome\":\"ok\",\"arg_bytes\":42,\"result_bytes\":100}"
    );
    let mut r = sample();
    r.target_tool = None;
    r.upstream = None;
    r.outcome = CallOutcome::Timeout;
    r.error_kind = Some("timeout");
    let line = render_record(&r);
    assert_eq!(
        line,
        "{\"ts_unix_ms\":1,\"meta_tool\":\"call_tool\",\"latency_ms\":7,\"outcome\":\"timeout\",\"error_kind\":\"timeout\",\"arg_bytes\":42,\"result_bytes\":100}"
    );
    let v: serde_json::Value = serde_json::from_str(&line).unwrap();
    assert_eq!(v["error_kind"], "timeout");
}

#[test]
fn decimal_rendering() {
    assert_eq!(decimal_string(0), "0");
    assert_eq!(decimal_string(907), "907");
    assert_eq!(decimal_string(u64::MAX), u64::MAX.to_string());
}

#[test]
fn drop_logging_is_rate_limited_to_powers_of_two() {
    let (mut sink, rx) = channel(0);
    drop(rx);
    let mut logged = Vec::new();
    for _ in 0..9 {
        if sink.record(&sample()) {
            logged.push(sink.dropped_count());
        }
    }
    assert_eq!(sink.dropped_count(), 9);
    assert_eq!(logged, [1, 2, 4, 8]);
}

#[test]
fn rendered_records_escape_strings_as_json_does() {
    let mut r = sample();
    r.target_tool = Some("we\"ird\\name\n\u{1}".into());
    r.upstream = None;
    let line = render_record(&r);
    assert!(line.contains("\"target_tool\":\"we\\\"ird\\\\name\\n\\u0001\""), "{line}");
    let v: serde_json::Value = serde_json::from_str(&line).unwrap();
    assert_eq!(v["target_tool"], "we\"ird\\name\n\u{1}");
}
