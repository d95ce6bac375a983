use mcpgw::discovery::{
    replay_traces, traces_history, traces_live, DiscoveryHit, DiscoveryRecord, DiscoveryRingSink, DiscoverySink,
};
use std::sync::Mutex;

fn rec(q: &str) -> DiscoveryRecord {
    DiscoveryRecord {
        ts_unix_ms: 0,
        query: q.into(),
        top_k: 1,
        results: vec![DiscoveryHit { name: "s__t".into(), score_bits: 1.0f32.to_bits() }],
        latency_ms: 0,
    }
}

fn at(ts: u64, q: &str) -> DiscoveryRecord {
    DiscoveryRecord { ts_unix_ms: ts, query: q.into(), top_k: 1, results: Vec::new(), latency_ms: 0 }
}

#[test]
fn trace_ring_caps_and_returns_newest_first() {
    let mut sink = DiscoveryRingSink::new(2);
    sink.push(&rec("a"));
    sink.push(&rec("b"));
    sink.push(&rec("c")); // evicts "a"
    let recent = sink.recent(10);
    let queries: Vec<_> = recent.iter().map(|r| r.query.as_str()).collect();
    assert_eq!(queries, ["c", "b"], "newest first, capacity 2");
}

#[test]
fn recent_respects_limit() {
    let mut sink = DiscoveryRingSink::new(10);
    for q in ["a", "b", "c"] {
        sink.push(&rec(q));
    }
    assert_eq!(sink.recent(2).len(), 2);
}

#[test]
fn zero_capacity_ring_keeps_one_trace() {
    let mut sink = DiscoveryRingSink::new(0);
    sink.push(&rec("a"));
    sink.push(&rec("b"));
    let recent = sink.recent(10);
    assert_eq!(recent.len(), 1);
    assert_eq!(recent[0].query, "b");
    assert_eq!(recent[0].results[0].score_bits, 1.0f32.to_bits());
    assert!(sink.recent(0).is_empty());
}

#[test]
fn replay_discovery_skips_bad_lines_newest_first_with_stable_ids() {
    // The bad line between "a" and "b" never became a record.
    let items = replay_traces(vec![at(1, "a"), at(1, "b"), at(2, "c")]);
    let ids: Vec<_> = items.iter().map(|i| i.id.as_str()).collect();
    assert_eq!(ids, ["h2-0", "h1-1", "h1-0"], "newest first, ids stable: n counts same-ts in file order");
    let qs: Vec<_> = items.iter().map(|i| i.query.as_str()).collect();
    assert_eq!(qs, ["c", "b", "a"], "newest first");
}

#[test]
fn traces_responses_name_their_source() {
    let mut sink = DiscoveryRingSink::new(4);
    sink.push(&rec("q1"));
    sink.push(&rec("q2"));
    let live = traces_live(Some(&sink), 1);
    assert_eq!(live.source, "live");
    assert!(!live.history_unavailable);
    assert_eq!(live.traces.len(), 1);
    assert_eq!(live.traces[0].query, "q2");
    assert!(traces_live(None, 10).traces.is_empty());

    let none = traces_history(None);
    assert_eq!(none.source, "history");
    assert!(none.history_unavailable);
    assert!(none.traces.is_empty());
    let unreadable = traces_history(Some((Vec::new(), false)));
    assert!(unreadable.history_unavailable);
    let read = traces_history(Some((vec![rec("x")], true)));
    assert!(!read.history_unavailable);
    assert_eq!(read.traces[0].query, "x");
}

#[test]
fn discovery_sink_receives_records() {
    struct Collect(Mutex<Vec<DiscoveryRecord>>);
    impl DiscoverySink for Collect {
        fn record(&self, rec: &DiscoveryRecord) {
            self.0.lock().unwrap().push(rec.clone());
        }
    }
    let sink = Collect(Mutex::new(Vec::new()));
    let rec = DiscoveryRecord { ts_unix_ms: 0, query: "q".into(), top_k: 1, results: vec![], latency_ms: 0 };
    sink.record(&rec);
    assert_eq!(sink.0.lock().unwrap().len(), 1);
}
