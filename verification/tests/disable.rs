use mcpgw::disable::{DisableSet, DisabledSnapshot};

#[test]
fn disable_enable_report_changed_and_are_idempotent() {
    let mut d = DisableSet::default();
    assert!(d.disable_upstream("a"));
    assert!(!d.disable_upstream("a"));
    assert!(d.is_upstream_disabled("a"));
    assert!(d.enable_upstream("a"));
    assert!(!d.enable_upstream("a"));
    assert!(!d.is_upstream_disabled("a"));
}

#[test]
fn tool_and_upstream_axes_are_independent() {
    let mut d = DisableSet::default();
    d.disable_tool("srv__echo");
    assert!(d.is_tool_disabled("srv__echo"));
    assert!(!d.is_upstream_disabled("srv__echo"));
    assert!(!d.is_tool_disabled("srv__greet"));
}

#[test]
fn snapshot_is_sorted() {
    let mut d = DisableSet::default();
    d.disable_upstream("b");
    d.disable_upstream("a");
    d.disable_tool("z__t");
    d.disable_tool("a__t");
    let s = d.snapshot();
    assert_eq!(s.upstreams, vec!["a", "b"]);
    assert_eq!(s.tools, vec!["a__t", "z__t"]);
}

#[test]
fn snapshot_round_trips_and_collapses_duplicates() {
    let snap = DisabledSnapshot {
        upstreams: vec!["flaky".into(), "b".into(), "flaky".into()],
        tools: vec!["github__delete_repo".into()],
    };
    let d = DisableSet::from_snapshot(&snap);
    assert!(d.is_upstream_disabled("flaky"));
    assert!(d.is_tool_disabled("github__delete_repo"));
    let s = d.snapshot();
    assert_eq!(s.upstreams, vec!["b", "flaky"]);
    assert_eq!(DisableSet::from_snapshot(&s).snapshot(), s);
    assert_eq!(DisableSet::new().snapshot(), DisabledSnapshot::default());
}

#[test]
fn enable_tool_reports_changed_and_leaves_upstreams_alone() {
    let mut d = DisableSet::default();
    d.disable_upstream("srv");
    assert!(d.disable_tool("srv__echo"));
    assert!(d.enable_tool("srv__echo"));
    assert!(!d.enable_tool("srv__echo"));
    assert!(!d.is_tool_disabled("srv__echo"));
    assert!(d.is_upstream_disabled("srv"));
}

#[test]
fn snapshot_does_not_depend_on_disable_order() {
    let mut a = DisableSet::default();
    a.disable_upstream("b");
    a.disable_upstream("a");
    a.disable_tool("x__1");
    let mut b = DisableSet::default();
    b.disable_tool("x__1");
    b.disable_upstream("a");
    b.disable_upstream("b");
    b.disable_upstream("a");
    assert_eq!(a.snapshot(), b.snapshot());
}
