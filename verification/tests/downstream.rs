use mcpgw::downstream::{
    arguments_bytes, arguments_json, call_record, classify, meta_reply, observe_call, parse_meta_request, upstream_of,
    finish_call, meta_tools, CallSinks, MetaError, MetaReply, MetaRequest, MetaStatus,
};
use mcpgw::calls::{CallFilter, CallRingSink};
use mcpgw::metrics::MetricsSink;
use mcpgw::observe::{channel, CallContent};
use mcpgw::json::{parse_object, JsonMember};
use mcpgw::observe::{CallOutcome, MetaTool};

fn args(text: &str) -> Vec<JsonMember> {
    parse_object(text).expect("test args must be an object")
}

#[test]
fn classify_maps_each_error() {
    assert_eq!(classify(&MetaError::Timeout), (CallOutcome::Timeout, Some("timeout")));
    assert_eq!(classify(&MetaError::Call("x".into())), (CallOutcome::Error, Some("upstream_call")));
    assert_eq!(classify(&MetaError::ToolNotFound("x".into())), (CallOutcome::Error, Some("tool_not_found")));
    assert_eq!(
        classify(&MetaError::UpstreamUnavailable("x".into())),
        (CallOutcome::Error, Some("upstream_unavailable"))
    );
    assert_eq!(MetaError::ToolNotFound("a__b".into()).message(), "no such tool: a__b");
    assert_eq!(MetaError::UpstreamUnavailable("gh".into()).message(), "upstream \"gh\" is unavailable");
    assert_eq!(MetaError::Timeout.message(), "upstream call timed out");
    assert_eq!(MetaError::Call("boom".into()).message(), "upstream call failed: boom");
}

#[test]
fn upstream_is_the_part_before_the_first_separator() {
    assert_eq!(upstream_of("github__create_issue").as_deref(), Some("github"));
    assert_eq!(upstream_of("a__b__c").as_deref(), Some("a"));
    assert_eq!(upstream_of("plain"), None);
    assert_eq!(upstream_of("a_b"), None);
}

#[test]
fn requests_are_read_from_name_and_arguments() {
    match parse_meta_request("search_tools", &args("{\"query\":\"weather\",\"top_k\":3}"), 8) {
        MetaRequest::Search { query, top_k } => assert_eq!((query.as_str(), top_k), ("weather", 3)),
        _ => panic!("search"),
    }
    match parse_meta_request("search_tools", &args("{\"top_k\":-1}"), 8) {
        MetaRequest::Search { query, top_k } => assert_eq!((query.as_str(), top_k), ("", 8)),
        _ => panic!("search"),
    }
    match parse_meta_request("search_tools", &args("{\"top_k\":2.5}"), 8) {
        MetaRequest::Search { top_k, .. } => assert_eq!(top_k, 8),
        _ => panic!("search"),
    }
    match parse_meta_request("get_tool_details", &args("{\"name\":\"gh__a\"}"), 8) {
        MetaRequest::Details { name } => assert_eq!(name, "gh__a"),
        _ => panic!("details"),
    }
    match parse_meta_request("call_tool", &args("{\"name\":\"gh__a\",\"arguments\":{}}"), 8) {
        MetaRequest::Call { name } => assert_eq!(name, "gh__a"),
        _ => panic!("call"),
    }
    assert!(matches!(parse_meta_request("call_tool", &args("{\"name\":5}"), 8), MetaRequest::MissingName));
    assert!(matches!(parse_meta_request("bogus", &args("{}"), 8), MetaRequest::Unknown));
}

#[test]
fn observations_and_records_follow_the_outcome() {
    let call = MetaRequest::Call { name: "github__create_issue".into() };
    let o = observe_call(&call, &MetaStatus::Failed(MetaError::Timeout)).unwrap();
    assert_eq!(o.meta_tool, MetaTool::CallTool);
    assert_eq!((o.outcome, o.error_kind), (CallOutcome::Timeout, Some("timeout")));
    let rec = call_record(9, o, 12, 3, 4);
    assert_eq!(rec.upstream.as_deref(), Some("github"));
    assert_eq!(rec.target_tool.as_deref(), Some("github__create_issue"));
    assert_eq!((rec.ts_unix_ms, rec.latency_ms, rec.arg_bytes, rec.result_bytes), (9, 12, 3, 4));

    let details = MetaRequest::Details { name: "x".into() };
    let o = observe_call(&details, &MetaStatus::NotFound).unwrap();
    assert_eq!((o.meta_tool, o.outcome, o.error_kind), (MetaTool::GetToolDetails, CallOutcome::Error, Some("tool_not_found")));
    assert_eq!(o.target_tool, None);
    let o = observe_call(&MetaRequest::MissingName, &MetaStatus::Succeeded).unwrap();
    assert_eq!(o.error_kind, Some("invalid_params"));
    let search = MetaRequest::Search { query: "q".into(), top_k: 1 };
    let o = observe_call(&search, &MetaStatus::SerializeFailed).unwrap();
    assert_eq!((o.outcome, o.error_kind), (CallOutcome::Error, Some("internal")));
    let o = observe_call(&search, &MetaStatus::Succeeded).unwrap();
    assert_eq!((o.outcome, o.error_kind), (CallOutcome::Success, None));
    assert!(observe_call(&MetaRequest::Unknown, &MetaStatus::Succeeded).is_none());
}

#[test]
fn parse_object_reads_only_json_objects() {
    assert!(parse_object("[1, 2]").is_none());
    assert!(parse_object("not json").is_none());
    assert!(parse_object("\"text\"").is_none());
    let m = parse_object("{\"name\": \"gh__x\", \"n\": 3}").unwrap();
    assert_eq!(m.len(), 2);
    assert!(m.iter().any(|x| x.key == "name" && x.text == "\"gh__x\""));
    assert!(m.iter().any(|x| x.key == "n" && x.text == "3"));
}

#[test]
fn unknown_meta_tool_is_an_invalid_params_error_and_not_recorded() {
    let req = parse_meta_request("does_not_exist", &args("{}"), 8);
    match meta_reply("does_not_exist", &req, &MetaStatus::Succeeded) {
        MetaReply::InvalidParams(m) => assert_eq!(m, "unknown tool: does_not_exist"),
        _ => panic!("expected invalid params"),
    }
    assert!(observe_call(&req, &MetaStatus::Succeeded).is_none());
}

#[test]
fn call_failures_are_tool_errors_not_protocol_errors() {
    let missing = parse_meta_request("call_tool", &args("{}"), 8);
    match meta_reply("call_tool", &missing, &MetaStatus::Succeeded) {
        MetaReply::ToolError(m) => assert_eq!(m, "missing required 'name'"),
        _ => panic!("expected a tool error"),
    }
    let call = parse_meta_request("call_tool", &args("{\"name\":\"github__create_issue\"}"), 8);
    let status = MetaStatus::Failed(MetaError::ToolNotFound("github__create_issue".into()));
    match meta_reply("call_tool", &call, &status) {
        MetaReply::ToolError(m) => assert_eq!(m, "no such tool: github__create_issue"),
        _ => panic!("expected a tool error"),
    }
    match meta_reply("call_tool", &call, &MetaStatus::Failed(MetaError::Timeout)) {
        MetaReply::ToolError(m) => assert_eq!(m, "upstream call timed out"),
        _ => panic!("expected a tool error"),
    }
    let details = parse_meta_request("get_tool_details", &args("{\"name\":\"x__y\"}"), 8);
    match meta_reply("get_tool_details", &details, &MetaStatus::NotFound) {
        MetaReply::ToolError(m) => assert_eq!(m, "no such tool: x__y"),
        _ => panic!("expected a tool error"),
    }
    assert!(matches!(meta_reply("call_tool", &call, &MetaStatus::Succeeded), MetaReply::Success));
    assert!(matches!(meta_reply("call_tool", &call, &MetaStatus::SerializeFailed), MetaReply::Internal));
}

#[test]
fn argument_bytes_are_the_compact_json_length() {
    let a = args("{ \"name\" : \"github__create_issue\", \"arguments\": {\"title\": \"héllo\"} }");
    let expected = serde_json::to_string(&serde_json::from_str::<serde_json::Value>(
        "{\"name\":\"github__create_issue\",\"arguments\":{\"title\":\"héllo\"}}",
    ).unwrap()).unwrap();
    assert_eq!(arguments_json(&a), expected);
    assert_eq!(arguments_bytes(&a), expected.len());
    assert_eq!(arguments_json(&Vec::new()), "{}");
    assert_eq!(arguments_bytes(&Vec::new()), 2);
    assert_eq!(arguments_bytes(&args("{\"q\":\"a\\\"b\"}")), "{\"q\":\"a\\\"b\"}".len());
}

#[test]
fn each_sink_gets_one_record_per_call() {
    let (audit, rx) = channel(8);
    let mut sinks = CallSinks { audit: Some(audit), metrics: Some(MetricsSink::new()), calls: Some(CallRingSink::new(4)) };
    let a = args("{\"query\":\"weather\"}");
    let req = parse_meta_request("search_tools", &a, 5);
    let obs = observe_call(&req, &MetaStatus::Succeeded).unwrap();
    let rec = call_record(1, obs, 3, arguments_bytes(&a), 10);
    assert_eq!(rec.arg_bytes, "{\"query\":\"weather\"}".len());
    let content = CallContent { args: "{}".into(), args_truncated: false, result: "[]".into(), result_truncated: false };
    assert!(!sinks.report(&rec, &content));
    assert_eq!(rx.try_iter().count(), 1, "one audit line per call");
    assert_eq!(sinks.metrics.as_ref().unwrap().total_calls(), 1);
    let (items, total) = sinks.calls.as_ref().unwrap().query(&CallFilter::default(), 10, 0);
    assert_eq!((items.len(), total), (1, 1));

    let mut none = CallSinks { audit: None, metrics: None, calls: None };
    assert!(!none.report(&rec, &content));
}

#[test]
fn meta_tools_are_exactly_the_three_with_schemas() {
    let tools = meta_tools();
    let names: Vec<&str> = tools.iter().map(|t| t.name.as_str()).collect();
    assert_eq!(names, ["search_tools", "get_tool_details", "call_tool"]);
    let search: serde_json::Value = serde_json::from_str(&tools[0].input_schema).unwrap();
    let props = search.get("properties").unwrap();
    assert!(props.get("query").is_some());
    assert!(props.get("top_k").is_some());
    assert_eq!(search.get("required").unwrap(), &serde_json::Value::from(vec!["query"]));
    for t in &tools {
        let v: serde_json::Value = serde_json::from_str(&t.input_schema).unwrap();
        assert_eq!(serde_json::to_string(&v).unwrap(), t.input_schema, "schemas are compact JSON");
    }
}

#[test]
fn meta_tool_calls_are_observed_with_metadata() {
    let (audit, rx) = channel(8);
    let mut sinks = CallSinks { audit: Some(audit), metrics: Some(MetricsSink::new()), calls: Some(CallRingSink::new(4)) };
    let content = CallContent { args: String::new(), args_truncated: false, result: String::new(), result_truncated: false };

    let a = args("{\"query\":\"echo\"}");
    let req = parse_meta_request("search_tools", &a, 5);
    let (reply, rec, _) = finish_call(&mut sinks, "search_tools", &a, &req, &MetaStatus::Succeeded, 7, 2, 40, &content);
    assert!(matches!(reply, MetaReply::Success));
    let rec = rec.unwrap();
    assert_eq!(rec.meta_tool, MetaTool::SearchTools);
    assert_eq!((rec.arg_bytes, rec.result_bytes), ("{\"query\":\"echo\"}".len(), 40));
    assert_eq!((rec.target_tool.clone(), rec.upstream.clone()), (None, None));

    let a = args("{\"name\":\"mock__nope\",\"arguments\":{}}");
    let req = parse_meta_request("call_tool", &a, 5);
    let status = MetaStatus::Failed(MetaError::ToolNotFound("mock__nope".into()));
    let (reply, rec, _) = finish_call(&mut sinks, "call_tool", &a, &req, &status, 8, 1, 30, &content);
    assert!(matches!(reply, MetaReply::ToolError(_)));
    let rec = rec.unwrap();
    assert_eq!(rec.target_tool.as_deref(), Some("mock__nope"));
    assert_eq!(rec.upstream.as_deref(), Some("mock"));
    assert_eq!((rec.outcome, rec.error_kind), (CallOutcome::Error, Some("tool_not_found")));

    let a = args("{}");
    let req = parse_meta_request("nope", &a, 5);
    let (reply, rec, _) = finish_call(&mut sinks, "nope", &a, &req, &MetaStatus::Succeeded, 9, 1, 0, &content);
    assert!(matches!(reply, MetaReply::InvalidParams(_)));
    assert!(rec.is_none());

    assert_eq!(rx.try_iter().count(), 2, "one record per meta-tool call");
    assert_eq!(sinks.metrics.as_ref().unwrap().total_calls(), 2);
    assert_eq!(sinks.calls.as_ref().unwrap().query(&CallFilter::default(), 10, 0).1, 2);
}
