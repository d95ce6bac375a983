use mcpgw::config::{UpstreamConfig, UpstreamTransport};
use mcpgw::disable::DisableSet;
use mcpgw::gateway::{
    assemble_rebuild, ingest_targets, keep_tool, plan_upstream_reconcile, same_upstream_exec, sort_texts, GatewayError,
    IngestOutcome, IngestReport, RebuildState, RebuildSummary,
};
use mcpgw::retrieval::ToolDef;

fn stdio(name: &str, command: &str) -> UpstreamConfig {
    UpstreamConfig {
        name: name.into(),
        call_timeout_ms: 30_000,
        transport: UpstreamTransport::Stdio { command: command.into(), args: vec![], env_passthrough: vec![] },
    }
}

#[test]
fn plan_reconcile_classifies_add_remove_change_unchanged() {
    let a = vec![stdio("keep", "x"), stdio("drop", "x"), stdio("chg", "x")];
    let b = vec![stdio("keep", "x"), stdio("chg", "y"), stdio("new", "x")];
    let p = plan_upstream_reconcile(&a, &b);
    assert_eq!(p.removed, vec!["drop"]);
    assert_eq!(p.added, vec!["new"]);
    assert_eq!(p.reconnected, vec!["chg"]);
    let tc: Vec<&str> = p.to_connect.iter().map(|u| u.name.as_str()).collect();
    assert_eq!(tc, vec!["chg", "new"]);
    assert!(!tc.contains(&"keep"));
    assert!(!p.is_noop());
    let s = p.into_summary(vec![("new".into(), "refused".into())]);
    assert_eq!(s.connect_failures, vec![("new".to_string(), "refused".to_string())]);
}

#[test]
fn reconciling_a_list_with_itself_is_a_noop() {
    let a = vec![stdio("keep", "x"), stdio("other", "y")];
    let p = plan_upstream_reconcile(&a, &a.clone());
    assert!(p.is_noop());
    assert!(p.added.is_empty() && p.reconnected.is_empty());
}

#[test]
fn header_order_does_not_make_an_upstream_changed() {
    let h = |pairs: &[(&str, &str)]| UpstreamConfig {
        name: "r".into(),
        call_timeout_ms: 5,
        transport: UpstreamTransport::Http {
            url: "https://example.com/mcp".into(),
            bearer_env: Some("TOK".into()),
            headers: pairs.iter().map(|(k, v)| (k.to_string(), v.to_string())).collect(),
        },
    };
    assert!(same_upstream_exec(&h(&[("A", "1"), ("B", "2")]), &h(&[("B", "2"), ("A", "1")])));
    assert!(!same_upstream_exec(&h(&[("A", "1")]), &h(&[("A", "2")])));
    assert!(!same_upstream_exec(&h(&[]), &stdio("r", "x")));
}

#[test]
fn rebuild_skips_disabled_upstreams_and_tools() {
    let mut d = DisableSet::new();
    d.disable_upstream("b");
    d.disable_tool("a__secret");
    let names = vec!["a".to_string(), "b".to_string(), "c".to_string()];
    assert_eq!(ingest_targets(&names, &d), vec!["a", "c"]);
    assert!(!keep_tool(&d, "a__secret"));
    assert!(keep_tool(&d, "a__public"));
}

#[test]
fn rebuild_summary_records_outcomes_sorted() {
    let mut s = RebuildSummary::default();
    s.note("zeta".into(), IngestOutcome::Ingested);
    s.note("slow".into(), IngestOutcome::TimedOut);
    s.note("alpha".into(), IngestOutcome::Ingested);
    s.note("broken".into(), IngestOutcome::Failed("connection reset".into()));
    s.note_failed_task(None, "panicked");
    s.note_failed_task(Some("boomserver".into()), "boom");
    s.finish();
    assert_eq!(s.ingested, vec!["alpha", "zeta"]);
    let skipped: Vec<(&str, &str)> = s.skipped.iter().map(|(a, b)| (a.as_str(), b.as_str())).collect();
    assert_eq!(
        skipped,
        vec![
            ("<ingest task>", "task failed: panicked"),
            ("boomserver", "task failed: boom"),
            ("broken", "connection reset"),
            ("slow", "ingest timed out"),
        ]
    );
    assert_eq!(GatewayError::Strategy("magic".into()).message(), "unknown retrieval strategy: magic");
    assert_eq!(sort_texts(vec!["b".into(), "a".into(), "b".into()]), vec!["a", "b", "b"]);
}

#[test]
fn resolve_joined_attributes_panicked_task_to_its_upstream() {
    let mut summary = RebuildSummary::default();
    summary.note_failed_task(Some("boomserver".into()), "task 7 panicked");
    assert_eq!(summary.skipped.len(), 1);
    assert_eq!(summary.skipped[0].0, "boomserver");
    assert!(summary.skipped[0].1.contains("task failed"));
    assert!(summary.ingested.is_empty());
}

#[test]
fn resolve_joined_falls_back_to_generic_name_when_id_unknown() {
    let mut summary = RebuildSummary::default();
    summary.note_failed_task(None, "task 8 panicked");
    assert_eq!(summary.skipped.len(), 1);
    assert_eq!(summary.skipped[0].0, "<ingest task>");
}

fn tool(server: &str, name: &str) -> ToolDef {
    ToolDef { server: server.into(), name: name.into(), description: String::new(), input_schema: "{}".into() }
}

#[test]
fn assembled_rebuild_lists_each_upstream_once_and_keeps_enabled_tools() {
    let mut d = DisableSet::new();
    d.disable_tool("a__hidden");
    let reports = vec![
        IngestReport { name: "b".into(), outcome: IngestOutcome::TimedOut, tools: vec![tool("b", "x")] },
        IngestReport { name: "a".into(), outcome: IngestOutcome::Ingested, tools: vec![tool("a", "shown"), tool("a", "hidden")] },
        IngestReport { name: "c".into(), outcome: IngestOutcome::Failed("boom".into()), tools: Vec::new() },
        IngestReport { name: "e".into(), outcome: IngestOutcome::Ingested, tools: vec![tool("e", "t")] },
    ];
    let (mut summary, catalog) = assemble_rebuild(&reports, &d);
    assert_eq!(summary.ingested, vec!["a", "e"]);
    assert_eq!(
        summary.skipped,
        vec![("b".to_string(), "ingest timed out".to_string()), ("c".to_string(), "boom".to_string())]
    );
    let names: Vec<String> = catalog.iter().map(|t| t.qualified_name()).collect();
    assert_eq!(names, vec!["a__shown", "e__t"]);
    summary.finish();
    assert_eq!(summary.ingested, vec!["a", "e"]);
}

#[test]
fn a_rebuild_replaces_the_catalog_and_summary_or_changes_nothing() {
    let d = DisableSet::new();
    let mut state = RebuildState::new();
    let reports = vec![
        IngestReport { name: "z".into(), outcome: IngestOutcome::Ingested, tools: vec![tool("z", "t")] },
        IngestReport { name: "b".into(), outcome: IngestOutcome::Failed("down".into()), tools: Vec::new() },
        IngestReport { name: "a".into(), outcome: IngestOutcome::Ingested, tools: vec![tool("a", "u")] },
    ];
    let s = state.apply(&reports, &d, Ok(())).ok().unwrap();
    assert_eq!(s.ingested, vec!["a", "z"]);
    assert_eq!(s.skipped, vec![("b".to_string(), "down".to_string())]);
    assert_eq!(state.catalog.len(), 2);
    assert_eq!(state.last_summary.as_ref().unwrap().ingested, vec!["a", "z"]);

    let again = vec![IngestReport { name: "q".into(), outcome: IngestOutcome::Ingested, tools: Vec::new() }];
    match state.apply(&again, &d, Err("no embedder".into())) {
        Err(GatewayError::Strategy(m)) => assert_eq!(m, "no embedder"),
        Ok(_) => panic!("expected the strategy error"),
    }
    assert_eq!(state.catalog.len(), 2, "a failed rebuild keeps the old catalog");
    assert_eq!(state.last_summary.as_ref().unwrap().ingested, vec!["a", "z"]);
}
