//! In-memory call metrics: per meta-tool counts, errors, latency histogram and approximate
//! percentiles, and per-upstream counts, bounded to a fixed number of upstream keys.
//!
//! The sink is specified by the sequence of observations it has recorded: every figure of a
//! snapshot is a function of that history.

use vstd::prelude::*;
use crate::text::{seq_less, str_eq, str_less, lemma_seq_less_total, lemma_seq_less_transitive, lemma_seq_less_irreflexive};
use crate::observe::{CallRecord, CallOutcome, MetaTool, meta_tool_name, opt_view};

verus! {

/// Cap on the distinct upstream keys tracked: the upstream of a record comes from a
/// client-supplied tool name, so a flood of bogus names must not grow the table without bound.
pub const MAX_UPSTREAM_KEYS: usize = 1024;

/// Number of latency histogram buckets.
pub const LATENCY_BUCKETS: usize = 12;

/// What the sink keeps of one record.
pub struct Observed {
    pub meta: MetaTool,
    pub latency_ms: u64,
    pub failed: bool,
    pub upstream: Option<Seq<char>>,
}

/// The observation of a record; any outcome but success is a failure.
pub open spec fn observed_of(rec: CallRecord) -> Observed {
    Observed {
        meta: rec.meta_tool,
        latency_ms: rec.latency_ms,
        failed: rec.outcome != CallOutcome::Success,
        upstream: opt_view(rec.upstream),
    }
}

/// Upper bound (inclusive, ms) of latency bucket `i`; the last bucket is unbounded.
pub open spec fn latency_bound(i: int) -> u64 {
    if i <= 0 {
        1
    } else if i == 1 {
        2
    } else if i == 2 {
        5
    } else if i == 3 {
        10
    } else if i == 4 {
        25
    } else if i == 5 {
        50
    } else if i == 6 {
        100
    } else if i == 7 {
        250
    } else if i == 8 {
        500
    } else if i == 9 {
        1000
    } else if i == 10 {
        5000
    } else {
        u64::MAX
    }
}

/// The first bucket whose bound is at least `l`.
pub open spec fn latency_bucket(l: u64) -> int {
    if l <= 1 {
        0
    } else if l <= 2 {
        1
    } else if l <= 5 {
        2
    } else if l <= 10 {
        3
    } else if l <= 25 {
        4
    } else if l <= 50 {
        5
    } else if l <= 100 {
        6
    } else if l <= 250 {
        7
    } else if l <= 500 {
        8
    } else if l <= 1000 {
        9
    } else if l <= 5000 {
        10
    } else {
        11
    }
}

/// The observations of meta-tool `m`, in order.
pub open spec fn of_meta(h: Seq<Observed>, m: MetaTool) -> Seq<Observed>
    decreases h.len(),
{
    if h.len() == 0 {
        Seq::empty()
    } else if h.last().meta == m {
        of_meta(h.drop_last(), m).push(h.last())
    } else {
        of_meta(h.drop_last(), m)
    }
}

/// How many observations failed.
pub open spec fn failures(obs: Seq<Observed>) -> nat
    decreases obs.len(),
{
    if obs.len() == 0 {
        0
    } else {
        failures(obs.drop_last()) + if obs.last().failed {
            1nat
        } else {
            0nat
        }
    }
}

/// The highest latency observed (0 when nothing was).
pub open spec fn max_latency(obs: Seq<Observed>) -> u64
    decreases obs.len(),
{
    if obs.len() == 0 {
        0
    } else if obs.last().latency_ms > max_latency(obs.drop_last()) {
        obs.last().latency_ms
    } else {
        max_latency(obs.drop_last())
    }
}

/// How many observations fell in latency bucket `i`.
pub open spec fn bucket_tally(obs: Seq<Observed>, i: int) -> nat
    decreases obs.len(),
{
    if obs.len() == 0 {
        0
    } else {
        bucket_tally(obs.drop_last(), i) + if latency_bucket(obs.last().latency_ms) == i {
            1nat
        } else {
            0nat
        }
    }
}

/// How many observations fell in the first `i` buckets.
pub open spec fn cumulative(obs: Seq<Observed>, i: int) -> nat
    decreases i,
{
    if i <= 0 {
        0
    } else {
        cumulative(obs, i - 1) + bucket_tally(obs, i - 1)
    }
}

/// The rank the `percent`-th percentile of `n` observations is read at: `ceil(percent * n / 100)`.
pub open spec fn target_rank(n: nat, percent: nat) -> nat {
    (percent * n + 99) / 100
}

/// Scanning from bucket `i`: the bound of the first bucket where the cumulative count reaches
/// `target`, capped at the observed maximum (the maximum when none does).
pub open spec fn first_reaching(obs: Seq<Observed>, target: nat, i: int) -> u64
    decreases LATENCY_BUCKETS - i,
{
    if i >= LATENCY_BUCKETS {
        max_latency(obs)
    } else if cumulative(obs, i + 1) >= target {
        if latency_bound(i) < max_latency(obs) {
            latency_bound(i)
        } else {
            max_latency(obs)
        }
    } else {
        first_reaching(obs, target, i + 1)
    }
}

/// Approximate `percent`-th percentile latency: the upper bound of the histogram bucket where
/// the cumulative count crosses the target rank, never above the observed maximum; 0 when
/// nothing was observed.
pub open spec fn percentile(obs: Seq<Observed>, percent: nat) -> u64 {
    if obs.len() == 0 {
        0
    } else {
        first_reaching(obs, target_rank(obs.len(), percent), 0)
    }
}

/// Number of observations for upstream `u`.
pub open spec fn count_up(h: Seq<Observed>, u: Seq<char>) -> nat
    decreases h.len(),
{
    if h.len() == 0 {
        0
    } else {
        count_up(h.drop_last(), u) + if h.last().upstream == Some(u) {
            1nat
        } else {
            0nat
        }
    }
}

/// Number of failed observations for upstream `u`.
pub open spec fn failed_up(h: Seq<Observed>, u: Seq<char>) -> nat
    decreases h.len(),
{
    if h.len() == 0 {
        0
    } else {
        failed_up(h.drop_last(), u) + if h.last().upstream == Some(u) && h.last().failed {
            1nat
        } else {
            0nat
        }
    }
}

/// The upstream keys tracked: each upstream in order of first appearance, admitted only while
/// fewer than `MAX_UPSTREAM_KEYS` are tracked.
pub open spec fn admitted(h: Seq<Observed>) -> Seq<Seq<char>>
    decreases h.len(),
{
    if h.len() == 0 {
        Seq::empty()
    } else {
        let a = admitted(h.drop_last());
        match h.last().upstream {
            Some(u) => if !a.contains(u) && a.len() < MAX_UPSTREAM_KEYS {
                a.push(u)
            } else {
                a
            },
            None => a,
        }
    }
}

proof fn lemma_push_stats(obs: Seq<Observed>, o: Observed)
    ensures
        obs.push(o).drop_last() == obs,
        obs.push(o).last() == o,
        failures(obs.push(o)) == failures(obs) + if o.failed { 1nat } else { 0nat },
        forall|i: int|
            #[trigger] bucket_tally(obs.push(o), i) == bucket_tally(obs, i) + if latency_bucket(
                o.latency_ms,
            ) == i {
                1nat
            } else {
                0nat
            },
        max_latency(obs.push(o)) == if o.latency_ms > max_latency(obs) {
            o.latency_ms
        } else {
            max_latency(obs)
        },
{
    assert(obs.push(o).drop_last() =~= obs);
}

proof fn lemma_stats_bounded(obs: Seq<Observed>)
    ensures
        failures(obs) <= obs.len(),
        forall|i: int| #[trigger] bucket_tally(obs, i) <= obs.len(),
    decreases obs.len(),
{
    if obs.len() > 0 {
        lemma_stats_bounded(obs.drop_last());
        assert forall|i: int| #[trigger] bucket_tally(obs, i) <= obs.len() by {
            assert(bucket_tally(obs.drop_last(), i) <= obs.drop_last().len());
        }
    }
}

/// Aggregate of one meta-tool's observations.
struct MetaAgg {
    calls: u64,
    errors: u64,
    max_ms: u64,
    hist: Vec<u64>,
}

/// Bound of latency bucket `i`.
fn bound_at(i: usize) -> (b: u64)
    requires
        i < LATENCY_BUCKETS,
    ensures
        b == latency_bound(i as int),
{
    if i == 0 {
        1
    } else if i == 1 {
        2
    } else if i == 2 {
        5
    } else if i == 3 {
        10
    } else if i == 4 {
        25
    } else if i == 5 {
        50
    } else if i == 6 {
        100
    } else if i == 7 {
        250
    } else if i == 8 {
        500
    } else if i == 9 {
        1000
    } else if i == 10 {
        5000
    } else {
        u64::MAX
    }
}

/// The histogram bucket of a latency.
fn bucket_index(l: u64) -> (i: usize)
    ensures
        i == latency_bucket(l),
        i < LATENCY_BUCKETS,
{
    if l <= 1 {
        0
    } else if l <= 2 {
        1
    } else if l <= 5 {
        2
    } else if l <= 10 {
        3
    } else if l <= 25 {
        4
    } else if l <= 50 {
        5
    } else if l <= 100 {
        6
    } else if l <= 250 {
        7
    } else if l <= 500 {
        8
    } else if l <= 1000 {
        9
    } else if l <= 5000 {
        10
    } else {
        11
    }
}

impl MetaAgg {
    spec fn holds(&self, obs: Seq<Observed>) -> bool {
        &&& self.calls == obs.len()
        &&& self.errors == failures(obs)
        &&& self.max_ms == max_latency(obs)
        &&& self.hist@.len() == LATENCY_BUCKETS
        &&& forall|i: int| 0 <= i < LATENCY_BUCKETS ==> #[trigger] self.hist@[i] == bucket_tally(obs, i)
    }

    fn new() -> (r: MetaAgg)
        ensures
            r.holds(Seq::empty()),
    {
        let mut hist: Vec<u64> = Vec::new();
        let mut i: usize = 0;
        while i < LATENCY_BUCKETS
            invariant
                i <= LATENCY_BUCKETS,
                hist@.len() == i,
                forall|j: int| 0 <= j < i ==> #[trigger] hist@[j] == 0,
            decreases LATENCY_BUCKETS - i,
        {
            hist.push(0);
            i = i + 1;
        }
        MetaAgg { calls: 0, errors: 0, max_ms: 0, hist }
    }

    fn observe(&mut self, latency_ms: u64, failed: bool, Ghost(obs): Ghost<Seq<Observed>>, Ghost(o): Ghost<Observed>)
        requires
            old(self).holds(obs),
            obs.len() < u64::MAX,
            o.latency_ms == latency_ms,
            o.failed == failed,
        ensures
            final(self).holds(obs.push(o)),
    {
        proof {
            lemma_push_stats(obs, o);
            lemma_stats_bounded(obs);
        }
        self.calls = self.calls + 1;
        if failed {
            self.errors = self.errors + 1;
        }
        if latency_ms > self.max_ms {
            self.max_ms = latency_ms;
        }
        let idx = bucket_index(latency_ms);
        let c = self.hist[idx];
        self.hist.set(idx, c + 1);
    }

    /// The approximate `percent`-th percentile of the observed latencies.
    fn percentile(&self, percent: u64, Ghost(obs): Ghost<Seq<Observed>>) -> (r: u64)
        requires
            self.holds(obs),
            percent <= 100,
        ensures
            r == percentile(obs, percent as nat),
    {
        if self.calls == 0 {
            return 0;
        }
        assert((percent as u128) * (self.calls as u128) <= 100 * 0xFFFF_FFFF_FFFF_FFFFu128)
            by (nonlinear_arith)
            requires
                percent <= 100,
                self.calls <= 0xFFFF_FFFF_FFFF_FFFFu64,
        ;
        let target: u128 = ((percent as u128) * (self.calls as u128) + 99) / 100;
        assert(target == target_rank(obs.len(), percent as nat));
        let mut cum: u128 = 0;
        let mut i: usize = 0;
        while i < LATENCY_BUCKETS
            invariant
                i <= LATENCY_BUCKETS,
                self.holds(obs),
                target == target_rank(obs.len(), percent as nat),
                cum == cumulative(obs, i as int),
                cum <= i * 0x1_0000_0000_0000_0000,
                first_reaching(obs, target as nat, 0) == first_reaching(obs, target as nat, i as int),
            decreases LATENCY_BUCKETS - i,
        {
            cum = cum + self.hist[i] as u128;
            if cum >= target {
                let b = bound_at(i);
                return if b < self.max_ms {
                    b
                } else {
                    self.max_ms
                };
            }
            i = i + 1;
        }
        self.max_ms
    }
}

/// Calls and failures recorded for one upstream.
struct UpstreamAgg {
    name: String,
    calls: u64,
    errors: u64,
}

/// `v` holds the admitted upstreams of `h` in ascending key order, each with its counts.
spec fn ups_match(v: Seq<UpstreamAgg>, h: Seq<Observed>) -> bool {
    let a = admitted(h);
    &&& v.len() == a.len()
    &&& forall|i: int, j: int| 0 <= i < j < v.len() ==> seq_less((#[trigger] v[i]).name@, (#[trigger] v[j]).name@)
    &&& forall|i: int|
        0 <= i < v.len() ==> a.contains((#[trigger] v[i]).name@) && v[i].calls == count_up(h, v[i].name@)
            && v[i].errors == failed_up(h, v[i].name@)
    &&& forall|u: Seq<char>| #[trigger] a.contains(u) ==> exists|i: int| 0 <= i < v.len() && (#[trigger] v[i]).name@ == u
    &&& forall|u: Seq<char>| #[trigger] count_up(h, u) > 0 ==> a.contains(u) || a.len() >= MAX_UPSTREAM_KEYS
}

proof fn lemma_push_upstream(h: Seq<Observed>, o: Observed)
    ensures
        forall|u: Seq<char>|
            #[trigger] count_up(h.push(o), u) == count_up(h, u) + if o.upstream == Some(u) {
                1nat
            } else {
                0nat
            },
        forall|u: Seq<char>|
            #[trigger] failed_up(h.push(o), u) == failed_up(h, u) + if o.upstream == Some(u) && o.failed {
                1nat
            } else {
                0nat
            },
        admitted(h.push(o)) == match o.upstream {
            Some(u) => if !admitted(h).contains(u) && admitted(h).len() < MAX_UPSTREAM_KEYS {
                admitted(h).push(u)
            } else {
                admitted(h)
            },
            None => admitted(h),
        },
{
    assert(h.push(o).drop_last() =~= h);
}

proof fn lemma_up_counts_bounded(h: Seq<Observed>, u: Seq<char>)
    ensures
        count_up(h, u) <= h.len(),
        failed_up(h, u) <= count_up(h, u),
    decreases h.len(),
{
    if h.len() > 0 {
        lemma_up_counts_bounded(h.drop_last(), u);
    }
}

/// Counts observation `o`, whose upstream is `up`, in the per-upstream table.
fn note_upstream(v: &mut Vec<UpstreamAgg>, up: &String, failed: bool, Ghost(h): Ghost<Seq<Observed>>, Ghost(o): Ghost<Observed>)
    requires
        ups_match(old(v)@, h),
        h.len() < u64::MAX,
        o.upstream == Some(up@),
        o.failed == failed,
    ensures
        ups_match(final(v)@, h.push(o)),
{
    proof {
        lemma_push_upstream(h, o);
        lemma_up_counts_bounded(h, up@);
    }
    let ghost a = admitted(h);
    let ghost h2 = h.push(o);
    let ghost before = v@;
    let mut p: usize = 0;
    while p < v.len()
        invariant
            p <= before.len(),
            v@ == before,
            forall|q: int| 0 <= q < p ==> seq_less((#[trigger] before[q]).name@, up@),
        ensures
            p <= before.len(),
            v@ == before,
            forall|q: int| 0 <= q < p ==> seq_less((#[trigger] before[q]).name@, up@),
            p < before.len() ==> !seq_less(before[p as int].name@, up@),
        decreases before.len() - p,
    {
        if !str_less(v[p].name.as_str(), up.as_str()) {
            break;
        }
        p = p + 1;
    }
    if p < v.len() && str_eq(v[p].name.as_str(), up.as_str()) {
        // A tracked upstream: count it.
        let name = v[p].name.clone();
        let c = v[p].calls;
        let e = v[p].errors;
        proof {
            lemma_up_counts_bounded(h, before[p as int].name@);
        }
        v.set(p, UpstreamAgg { name, calls: c + 1, errors: if failed { e + 1 } else { e } });
        proof {
            let after = v@;
            assert(a.contains(up@));
            assert(admitted(h2) == a);
            assert forall|i: int| 0 <= i < after.len() implies a.contains((#[trigger] after[i]).name@)
                && after[i].calls == count_up(h2, after[i].name@) && after[i].errors == failed_up(
                h2,
                after[i].name@,
            ) by {
                if i != p {
                    if i < p {
                        assert(seq_less(before[i].name@, before[p as int].name@));
                    } else {
                        assert(seq_less(before[p as int].name@, before[i].name@));
                    }
                    lemma_seq_less_irreflexive(before[i].name@);
                    assert(before[i].name@ != up@);
                }
            }
            assert forall|u: Seq<char>| #[trigger] a.contains(u) implies exists|i: int|
                0 <= i < after.len() && (#[trigger] after[i]).name@ == u by {
                let i = choose|i: int| 0 <= i < before.len() && (#[trigger] before[i]).name@ == u;
                assert(after[i].name@ == u);
            }
            assert forall|u: Seq<char>| #[trigger] count_up(h2, u) > 0 implies a.contains(u) || a.len()
                >= MAX_UPSTREAM_KEYS by {
                if u != up@ {
                    assert(count_up(h, u) > 0);
                }
            }
        }
    } else if v.len() < MAX_UPSTREAM_KEYS {
        // A new upstream, admitted while under the cap.
        proof {
            assert(!a.contains(up@)) by {
                if a.contains(up@) {
                    let i = choose|i: int| 0 <= i < before.len() && (#[trigger] before[i]).name@ == up@;
                    if i < p {
                        lemma_seq_less_irreflexive(up@);
                    } else if i > p {
                        assert(seq_less(before[p as int].name@, before[i].name@));
                        lemma_seq_less_total(before[p as int].name@, up@);
                    }
                }
            }
            assert(count_up(h, up@) == 0);
        }
        let entry = UpstreamAgg { name: up.clone(), calls: 1, errors: if failed { 1 } else { 0 } };
        v.insert(p, entry);
        proof {
            let after = v@;
            let a2 = admitted(h2);
            assert(a2 == a.push(up@));
            assert(after == before.insert(p as int, entry));
            assert forall|i: int, j: int| 0 <= i < j < after.len() implies seq_less(
                (#[trigger] after[i]).name@,
                (#[trigger] after[j]).name@,
            ) by {
                if p < before.len() {
                    assert(before[p as int].name@ != up@);
                    lemma_seq_less_total(before[p as int].name@, up@);
                }
                if j < p {
                } else if i < p && j == p {
                } else if i < p {
                    assert(seq_less(before[i].name@, before[j - 1].name@));
                    assert(seq_less(before[i].name@, up@));
                    assert(seq_less(before[i].name@, before[j - 1].name@));
                } else if i == p {
                    if j - 1 > p {
                        assert(seq_less(before[p as int].name@, before[j - 1].name@));
                        lemma_seq_less_transitive(up@, before[p as int].name@, before[j - 1].name@);
                    }
                } else {
                    assert(seq_less(before[i - 1].name@, before[j - 1].name@));
                }
            }
            assert forall|i: int| 0 <= i < after.len() implies a2.contains((#[trigger] after[i]).name@)
                && after[i].calls == count_up(h2, after[i].name@) && after[i].errors == failed_up(
                h2,
                after[i].name@,
            ) by {
                if i < p {
                    assert(after[i] == before[i]);
                    assert(a.contains(before[i].name@));
                    let k = choose|k: int| 0 <= k < a.len() && a[k] == before[i].name@;
                    assert(a2[k] == before[i].name@);
                    assert(seq_less(before[i].name@, up@));
                    lemma_seq_less_irreflexive(up@);
                    assert(before[i].name@ != up@);
                } else if i > p {
                    assert(after[i] == before[i - 1]);
                    assert(a.contains(before[i - 1].name@));
                    let k = choose|k: int| 0 <= k < a.len() && a[k] == before[i - 1].name@;
                    assert(a2[k] == before[i - 1].name@);
                    assert(before[p as int].name@ != up@);
                    lemma_seq_less_total(before[p as int].name@, up@);
                    assert(seq_less(up@, before[p as int].name@));
                    if i - 1 > p {
                        assert(seq_less(before[p as int].name@, before[i - 1].name@));
                        lemma_seq_less_transitive(up@, before[p as int].name@, before[i - 1].name@);
                    }
                    lemma_seq_less_irreflexive(up@);
                    assert(before[i - 1].name@ != up@);
                } else {
                    assert(a2[a.len() as int] == up@);
                }
            }
            assert forall|u: Seq<char>| #[trigger] a2.contains(u) implies exists|i: int|
                0 <= i < after.len() && (#[trigger] after[i]).name@ == u by {
                if u == up@ {
                    assert(after[p as int].name@ == u);
                } else {
                    let k = choose|k: int| 0 <= k < a2.len() && a2[k] == u;
                    assert(a.contains(u));
                    let i = choose|i: int| 0 <= i < before.len() && (#[trigger] before[i]).name@ == u;
                    if i < p {
                        assert(after[i].name@ == u);
                    } else {
                        assert(after[i + 1].name@ == u);
                    }
                }
            }
            assert forall|u: Seq<char>| #[trigger] count_up(h2, u) > 0 implies a2.contains(u)
                || a2.len() >= MAX_UPSTREAM_KEYS by {
                if u == up@ {
                    assert(a2[a.len() as int] == u);
                } else {
                    assert(count_up(h, u) > 0);
                    if a.contains(u) {
                        let k = choose|k: int| 0 <= k < a.len() && a[k] == u;
                        assert(a2[k] == u);
                    }
                }
            }
        }
    } else {
        // Over the cap: the record is still counted in the totals, not per upstream.
        proof {
            assert(admitted(h2) == a);
            let after = v@;
            assert forall|i: int| 0 <= i < after.len() implies a.contains((#[trigger] after[i]).name@)
                && after[i].calls == count_up(h2, after[i].name@) && after[i].errors == failed_up(
                h2,
                after[i].name@,
            ) by {
                if after[i].name@ == up@ {
                    if i < p {
                        lemma_seq_less_irreflexive(up@);
                    } else if i > p {
                        assert(seq_less(before[p as int].name@, before[i].name@));
                        lemma_seq_less_total(before[p as int].name@, up@);
                        lemma_seq_less_transitive(up@, before[p as int].name@, before[i].name@);
                        lemma_seq_less_irreflexive(up@);
                    }
                }
            }
        }
    }
}

/// Per-meta-tool metrics in a snapshot.
#[derive(Debug, Clone, PartialEq)]
pub struct MetaToolMetrics {
    pub meta_tool: String,
    pub calls: u64,
    pub errors: u64,
    pub p50_ms: u64,
    pub p95_ms: u64,
    pub max_ms: u64,
}

/// Per-upstream call metrics in a snapshot.
#[derive(Debug, Clone, PartialEq)]
pub struct UpstreamMetrics {
    pub upstream: String,
    pub calls: u64,
    pub errors: u64,
}

/// A point-in-time copy of the aggregated metrics.
#[derive(Debug, Clone, PartialEq, Default)]
pub struct MetricsSnapshot {
    pub total_calls: u64,
    pub per_meta_tool: Vec<MetaToolMetrics>,
    pub per_upstream: Vec<UpstreamMetrics>,
}

/// The meta-tools with at least one observation, in the name order of their tokens.
pub open spec fn present_metas(h: Seq<Observed>) -> Seq<MetaTool> {
    let a: Seq<MetaTool> = if of_meta(h, MetaTool::CallTool).len() > 0 {
        seq![MetaTool::CallTool]
    } else {
        Seq::empty()
    };
    let b = if of_meta(h, MetaTool::GetToolDetails).len() > 0 {
        a.push(MetaTool::GetToolDetails)
    } else {
        a
    };
    if of_meta(h, MetaTool::SearchTools).len() > 0 {
        b.push(MetaTool::SearchTools)
    } else {
        b
    }
}

/// `row` reports the observations of meta-tool `m` in `h`.
pub open spec fn meta_row(row: MetaToolMetrics, h: Seq<Observed>, m: MetaTool) -> bool {
    let obs = of_meta(h, m);
    &&& row.meta_tool@ == meta_tool_name(m)
    &&& row.calls == obs.len()
    &&& row.errors == failures(obs)
    &&& row.p50_ms == percentile(obs, 50)
    &&& row.p95_ms == percentile(obs, 95)
    &&& row.max_ms == max_latency(obs)
}

/// One row per observed meta-tool, in name order.
pub open spec fn meta_rows(h: Seq<Observed>, rows: Seq<MetaToolMetrics>) -> bool {
    &&& rows.len() == present_metas(h).len()
    &&& forall|i: int| 0 <= i < rows.len() ==> meta_row(#[trigger] rows[i], h, present_metas(h)[i])
}

/// One row per tracked upstream, in ascending key order, with its counts.
pub open spec fn upstream_rows(h: Seq<Observed>, rows: Seq<UpstreamMetrics>) -> bool {
    &&& forall|i: int, j: int|
        0 <= i < j < rows.len() ==> seq_less((#[trigger] rows[i]).upstream@, (#[trigger] rows[j]).upstream@)
    &&& forall|i: int|
        0 <= i < rows.len() ==> admitted(h).contains((#[trigger] rows[i]).upstream@) && rows[i].calls
            == count_up(h, rows[i].upstream@) && rows[i].errors == failed_up(h, rows[i].upstream@)
    &&& forall|u: Seq<char>|
        #[trigger] admitted(h).contains(u) ==> exists|i: int| 0 <= i < rows.len() && (#[trigger] rows[i]).upstream@ == u
}

/// In-memory aggregator of call records, bounded: per meta-tool state is fixed and the
/// upstream table holds at most `MAX_UPSTREAM_KEYS` keys.
pub struct MetricsSink {
    total: u64,
    call_tool: MetaAgg,
    get_tool_details: MetaAgg,
    search_tools: MetaAgg,
    per_upstream: Vec<UpstreamAgg>,
    history: Ghost<Seq<Observed>>,
}

impl MetricsSink {
    /// Everything recorded so far, oldest first.
    pub closed spec fn history(&self) -> Seq<Observed> {
        self.history@
    }

    /// The aggregates agree with the history.
    pub closed spec fn wf(&self) -> bool {
        let h = self.history@;
        &&& self.total == h.len()
        &&& self.call_tool.holds(of_meta(h, MetaTool::CallTool))
        &&& self.get_tool_details.holds(of_meta(h, MetaTool::GetToolDetails))
        &&& self.search_tools.holds(of_meta(h, MetaTool::SearchTools))
        &&& ups_match(self.per_upstream@, h)
    }

    /// An empty aggregator.
    pub fn new() -> (r: MetricsSink)
        ensures
            r.wf(),
            r.history() == Seq::<Observed>::empty(),
    {
        let r = MetricsSink {
            total: 0,
            call_tool: MetaAgg::new(),
            get_tool_details: MetaAgg::new(),
            search_tools: MetaAgg::new(),
            per_upstream: Vec::new(),
            history: Ghost(Seq::empty()),
        };
        proof {
            let h = Seq::<Observed>::empty();
            assert(of_meta(h, MetaTool::CallTool) =~= Seq::<Observed>::empty());
            assert(of_meta(h, MetaTool::GetToolDetails) =~= Seq::<Observed>::empty());
            assert(of_meta(h, MetaTool::SearchTools) =~= Seq::<Observed>::empty());
            assert(admitted(h) =~= Seq::<Seq<char>>::empty());
        }
        r
    }

    /// How many records were counted so far.
    pub fn total_calls(&self) -> (r: u64)
        requires
            self.wf(),
        ensures
            r == self.history().len(),
    {
        self.total
    }

    /// Counts one record. Any outcome but success counts as an error; an upstream beyond the
    /// key cap is counted in the totals only.
    pub fn record(&mut self, rec: &CallRecord)
        requires
            old(self).wf(),
            old(self).history().len() < u64::MAX,
        ensures
            final(self).wf(),
            final(self).history() == old(self).history().push(observed_of(*rec)),
    {
        let ghost h = self.history@;
        let ghost o = observed_of(*rec);
        let ghost h2 = h.push(o);
        proof {
            assert(h2.drop_last() =~= h);
            assert(of_meta(h, MetaTool::CallTool).len() <= h.len()) by {
                lemma_of_meta_len(h, MetaTool::CallTool);
            }
            assert(of_meta(h, MetaTool::GetToolDetails).len() <= h.len()) by {
                lemma_of_meta_len(h, MetaTool::GetToolDetails);
            }
            assert(of_meta(h, MetaTool::SearchTools).len() <= h.len()) by {
                lemma_of_meta_len(h, MetaTool::SearchTools);
            }
        }
        let failed = match rec.outcome {
            CallOutcome::Success => false,
            _ => true,
        };
        self.total = self.total + 1;
        match rec.meta_tool {
            MetaTool::CallTool => {
                self.call_tool.observe(rec.latency_ms, failed, Ghost(of_meta(h, MetaTool::CallTool)), Ghost(o));
            },
            MetaTool::GetToolDetails => {
                self.get_tool_details.observe(
                    rec.latency_ms,
                    failed,
                    Ghost(of_meta(h, MetaTool::GetToolDetails)),
                    Ghost(o),
                );
            },
            MetaTool::SearchTools => {
                self.search_tools.observe(
                    rec.latency_ms,
                    failed,
                    Ghost(of_meta(h, MetaTool::SearchTools)),
                    Ghost(o),
                );
            },
        }
        match &rec.upstream {
            Some(up) => {
                note_upstream(&mut self.per_upstream, up, failed, Ghost(h), Ghost(o));
            },
            None => {
                proof {
                    lemma_push_upstream(h, o);
                    let v = self.per_upstream@;
                    assert forall|i: int| 0 <= i < v.len() implies admitted(h2).contains(
                        (#[trigger] v[i]).name@,
                    ) && v[i].calls == count_up(h2, v[i].name@) && v[i].errors == failed_up(
                        h2,
                        v[i].name@,
                    ) by {}
                    assert forall|u: Seq<char>| #[trigger] count_up(h2, u) > 0 implies admitted(
                        h2,
                    ).contains(u) || admitted(h2).len() >= MAX_UPSTREAM_KEYS by {
                        assert(count_up(h, u) > 0);
                    }
                }
            },
        }
        self.history = Ghost(h2);
    }

    /// A point-in-time copy of the aggregates.
    pub fn snapshot(&self) -> (s: MetricsSnapshot)
        requires
            self.wf(),
        ensures
            s.total_calls == self.history().len(),
            s.per_upstream@.len() == admitted(self.history()).len(),
            meta_rows(self.history(), s.per_meta_tool@),
            upstream_rows(self.history(), s.per_upstream@),
            meta_calls_sum(s.per_meta_tool@) == self.history().len(),
            forall|i: int| 0 <= i < s.per_meta_tool@.len() ==> (#[trigger] s.per_meta_tool@[i]).errors
                <= s.per_meta_tool@[i].calls && s.per_meta_tool@[i].p50_ms <= s.per_meta_tool@[i].p95_ms
                && s.per_meta_tool@[i].p95_ms <= s.per_meta_tool@[i].max_ms,
            s.per_upstream@.len() <= MAX_UPSTREAM_KEYS,
            forall|i: int| 0 <= i < s.per_upstream@.len() ==> (#[trigger] s.per_upstream@[i]).errors
                <= s.per_upstream@[i].calls,
            upstream_calls_sum(s.per_upstream@) <= self.history().len(),
    {
        let ghost h = self.history@;
        let mut rows: Vec<MetaToolMetrics> = Vec::new();
        if self.call_tool.calls > 0 {
            rows.push(meta_metrics(MetaTool::CallTool, &self.call_tool, Ghost(of_meta(h, MetaTool::CallTool))));
        }
        let ghost r1 = rows@;
        if self.get_tool_details.calls > 0 {
            rows.push(
                meta_metrics(
                    MetaTool::GetToolDetails,
                    &self.get_tool_details,
                    Ghost(of_meta(h, MetaTool::GetToolDetails)),
                ),
            );
        }
        let ghost r2 = rows@;
        if self.search_tools.calls > 0 {
            rows.push(
                meta_metrics(MetaTool::SearchTools, &self.search_tools, Ghost(of_meta(h, MetaTool::SearchTools))),
            );
        }
        proof {
            let pm = present_metas(h);
            assert(rows@.len() == pm.len());
            assert forall|i: int| 0 <= i < rows@.len() implies meta_row(#[trigger] rows@[i], h, pm[i]) by {
                if i < r1.len() {
                    assert(rows@[i] == r1[i]);
                } else if i < r2.len() {
                    assert(rows@[i] == r2[i]);
                }
            }
        }
        let mut ups: Vec<UpstreamMetrics> = Vec::new();
        let mut i: usize = 0;
        while i < self.per_upstream.len()
            invariant
                i <= self.per_upstream@.len(),
                ups@.len() == i,
                forall|k: int|
                    0 <= k < i ==> (#[trigger] ups@[k]).upstream@ == self.per_upstream@[k].name@
                        && ups@[k].calls == self.per_upstream@[k].calls && ups@[k].errors
                        == self.per_upstream@[k].errors,
            decreases self.per_upstream@.len() - i,
        {
            let a = &self.per_upstream[i];
            ups.push(UpstreamMetrics { upstream: a.name.clone(), calls: a.calls, errors: a.errors });
            i = i + 1;
        }
        proof {
            let v = self.per_upstream@;
            assert forall|u: Seq<char>| #[trigger] admitted(h).contains(u) implies exists|k: int|
                0 <= k < ups@.len() && (#[trigger] ups@[k]).upstream@ == u by {
                let k = choose|k: int| 0 <= k < v.len() && (#[trigger] v[k]).name@ == u;
                assert(ups@[k].upstream@ == u);
            }
        }
        proof {
            lemma_snapshot_law(h, rows@, ups@);
        }
        MetricsSnapshot { total_calls: self.total, per_meta_tool: rows, per_upstream: ups }
    }
}

impl Default for MetricsSink {
    fn default() -> (r: MetricsSink)
        ensures
            r.wf(),
            r.history() == Seq::<Observed>::empty(),
    {
        MetricsSink::new()
    }
}

proof fn lemma_of_meta_len(h: Seq<Observed>, m: MetaTool)
    ensures
        of_meta(h, m).len() <= h.len(),
    decreases h.len(),
{
    if h.len() > 0 {
        lemma_of_meta_len(h.drop_last(), m);
    }
}

/// The snapshot row of one meta-tool.
fn meta_metrics(m: MetaTool, agg: &MetaAgg, Ghost(obs): Ghost<Seq<Observed>>) -> (row: MetaToolMetrics)
    requires
        agg.holds(obs),
    ensures
        row.meta_tool@ == meta_tool_name(m),
        row.calls == obs.len(),
        row.errors == failures(obs),
        row.p50_ms == percentile(obs, 50),
        row.p95_ms == percentile(obs, 95),
        row.max_ms == max_latency(obs),
{
    MetaToolMetrics {
        meta_tool: crate::text::string_of(m.as_str()),
        calls: agg.calls,
        errors: agg.errors,
        p50_ms: agg.percentile(50, Ghost(obs)),
        p95_ms: agg.percentile(95, Ghost(obs)),
        max_ms: agg.max_ms,
    }
}

proof fn lemma_first_reaching_bounds(obs: Seq<Observed>, t: nat, i: int)
    requires
        0 <= i,
    ensures
        first_reaching(obs, t, i) <= max_latency(obs),
        i < LATENCY_BUCKETS ==> first_reaching(obs, t, i) >= latency_bound(i) || first_reaching(
            obs,
            t,
            i,
        ) == max_latency(obs),
    decreases LATENCY_BUCKETS - i,
{
    if i < LATENCY_BUCKETS {
        lemma_first_reaching_bounds(obs, t, i + 1);
        assert(latency_bound(i) <= latency_bound(i + 1));
    }
}

proof fn lemma_first_reaching_monotone(obs: Seq<Observed>, t1: nat, t2: nat, i: int)
    requires
        t1 <= t2,
        0 <= i,
    ensures
        first_reaching(obs, t1, i) <= first_reaching(obs, t2, i),
    decreases LATENCY_BUCKETS - i,
{
    if i < LATENCY_BUCKETS {
        lemma_first_reaching_monotone(obs, t1, t2, i + 1);
        lemma_first_reaching_bounds(obs, t2, i + 1);
        lemma_first_reaching_bounds(obs, t1, i);
        assert(latency_bound(i) <= latency_bound(i + 1));
    }
}

/// Percentiles never decrease as the percent grows, and never exceed the highest latency
/// observed.
pub proof fn lemma_percentile_monotone(obs: Seq<Observed>, p: nat, q: nat)
    requires
        p <= q,
    ensures
        percentile(obs, p) <= percentile(obs, q),
        percentile(obs, q) <= max_latency(obs),
{
    if obs.len() > 0 {
        assert(p * obs.len() <= q * obs.len()) by (nonlinear_arith)
            requires
                p <= q,
        ;
        assert(target_rank(obs.len(), p) <= target_rank(obs.len(), q)) by (nonlinear_arith)
            requires
                p * obs.len() <= q * obs.len(),
        ;
        lemma_first_reaching_monotone(obs, target_rank(obs.len(), p), target_rank(obs.len(), q), 0);
        lemma_first_reaching_bounds(obs, target_rank(obs.len(), q), 0);
    }
}

/// However many records arrive, at most `MAX_UPSTREAM_KEYS` upstream keys are tracked.
pub proof fn lemma_upstream_keys_bounded(h: Seq<Observed>)
    ensures
        admitted(h).len() <= MAX_UPSTREAM_KEYS,
    decreases h.len(),
{
    if h.len() > 0 {
        lemma_upstream_keys_bounded(h.drop_last());
    }
}

/// Each row's percentiles are ordered: `p50 <= p95 <= max`.
pub proof fn lemma_p50_le_p95_le_max(obs: Seq<Observed>)
    ensures
        percentile(obs, 50) <= percentile(obs, 95),
        percentile(obs, 95) <= max_latency(obs),
{
    lemma_percentile_monotone(obs, 50, 95);
}

/// The calls of a run of meta-tool rows, added up.
pub open spec fn meta_calls_sum(rows: Seq<MetaToolMetrics>) -> int
    decreases rows.len(),
{
    if rows.len() == 0 {
        0
    } else {
        meta_calls_sum(rows.drop_last()) + rows.last().calls
    }
}

/// The calls of a run of upstream rows, added up.
pub open spec fn upstream_calls_sum(rows: Seq<UpstreamMetrics>) -> int
    decreases rows.len(),
{
    if rows.len() == 0 {
        0
    } else {
        upstream_calls_sum(rows.drop_last()) + rows.last().calls
    }
}

/// The observations counted for the keys `ks`, added up.
pub open spec fn counts_sum(h: Seq<Observed>, ks: Seq<Seq<char>>) -> nat
    decreases ks.len(),
{
    if ks.len() == 0 {
        0
    } else {
        counts_sum(h, ks.drop_last()) + count_up(h, ks.last())
    }
}

/// How many of the keys `ks` are the upstream of `o`.
pub open spec fn hits(ks: Seq<Seq<char>>, o: Observed) -> nat
    decreases ks.len(),
{
    if ks.len() == 0 {
        0
    } else {
        hits(ks.drop_last(), o) + if o.upstream == Some(ks.last()) {
            1nat
        } else {
            0nat
        }
    }
}

proof fn lemma_meta_partition(h: Seq<Observed>)
    ensures
        of_meta(h, MetaTool::CallTool).len() + of_meta(h, MetaTool::GetToolDetails).len() + of_meta(
            h,
            MetaTool::SearchTools,
        ).len() == h.len(),
    decreases h.len(),
{
    if h.len() > 0 {
        lemma_meta_partition(h.drop_last());
    }
}

proof fn lemma_failures_le(obs: Seq<Observed>)
    ensures
        failures(obs) <= obs.len(),
    decreases obs.len(),
{
    if obs.len() > 0 {
        lemma_failures_le(obs.drop_last());
    }
}

proof fn lemma_failed_up_le(h: Seq<Observed>, u: Seq<char>)
    ensures
        failed_up(h, u) <= count_up(h, u),
    decreases h.len(),
{
    if h.len() > 0 {
        lemma_failed_up_le(h.drop_last(), u);
    }
}

proof fn lemma_hits_none(ks: Seq<Seq<char>>, o: Observed)
    requires
        forall|i: int| 0 <= i < ks.len() ==> o.upstream != Some(#[trigger] ks[i]),
    ensures
        hits(ks, o) == 0,
    decreases ks.len(),
{
    if ks.len() > 0 {
        assert(o.upstream != Some(ks[ks.len() - 1]));
        lemma_hits_none(ks.drop_last(), o);
    }
}

proof fn lemma_hits_le_one(ks: Seq<Seq<char>>, o: Observed)
    requires
        forall|i: int, j: int| 0 <= i < j < ks.len() ==> ks[i] != ks[j],
    ensures
        hits(ks, o) <= 1,
    decreases ks.len(),
{
    if ks.len() > 0 {
        let p = ks.drop_last();
        if o.upstream == Some(ks.last()) {
            assert forall|i: int| 0 <= i < p.len() implies o.upstream != Some(#[trigger] p[i]) by {
                assert(p[i] == ks[i]);
                assert(ks[i] != ks[ks.len() - 1]);
            }
            lemma_hits_none(p, o);
        } else {
            lemma_hits_le_one(p, o);
        }
    }
}

proof fn lemma_counts_sum_push(h: Seq<Observed>, o: Observed, ks: Seq<Seq<char>>)
    ensures
        counts_sum(h.push(o), ks) == counts_sum(h, ks) + hits(ks, o),
    decreases ks.len(),
{
    assert(h.push(o).drop_last() =~= h);
    if ks.len() > 0 {
        lemma_counts_sum_push(h, o, ks.drop_last());
    }
}

proof fn lemma_counts_sum_le(h: Seq<Observed>, ks: Seq<Seq<char>>)
    requires
        forall|i: int, j: int| 0 <= i < j < ks.len() ==> ks[i] != ks[j],
    ensures
        counts_sum(h, ks) <= h.len(),
    decreases h.len(),
{
    if h.len() == 0 {
        lemma_counts_sum_empty(h, ks);
    } else {
        let p = h.drop_last();
        lemma_counts_sum_le(p, ks);
        assert(p.push(h.last()) =~= h);
        lemma_counts_sum_push(p, h.last(), ks);
        lemma_hits_le_one(ks, h.last());
    }
}

proof fn lemma_counts_sum_empty(h: Seq<Observed>, ks: Seq<Seq<char>>)
    requires
        h.len() == 0,
    ensures
        counts_sum(h, ks) == 0,
    decreases ks.len(),
{
    if ks.len() > 0 {
        lemma_counts_sum_empty(h, ks.drop_last());
    }
}

proof fn lemma_upstream_sum_is_counts(h: Seq<Observed>, rows: Seq<UpstreamMetrics>)
    requires
        forall|i: int| 0 <= i < rows.len() ==> (#[trigger] rows[i]).calls == count_up(h, rows[i].upstream@),
    ensures
        upstream_calls_sum(rows) == counts_sum(h, rows.map_values(|r: UpstreamMetrics| r.upstream@)),
    decreases rows.len(),
{
    if rows.len() > 0 {
        let p = rows.drop_last();
        assert forall|i: int| 0 <= i < p.len() implies (#[trigger] p[i]).calls == count_up(h, p[i].upstream@) by {
            assert(p[i] == rows[i]);
        }
        lemma_upstream_sum_is_counts(h, p);
        assert(rows.map_values(|r: UpstreamMetrics| r.upstream@).drop_last() =~= p.map_values(
            |r: UpstreamMetrics| r.upstream@,
        ));
        assert(rows[rows.len() - 1] == rows.last());
    }
}

/// What a snapshot reports after the records of history `h`: the meta-tool rows come in
/// name order, one per meta-tool, and their calls add up to every record; each row's errors
/// are at most its calls and its percentiles are ordered `p50 <= p95 <= max`; at most
/// `MAX_UPSTREAM_KEYS` upstream rows come, in name order, each with errors at most calls,
/// and their calls add up to at most the number of records.
pub proof fn lemma_snapshot_law(h: Seq<Observed>, rows: Seq<MetaToolMetrics>, ups: Seq<UpstreamMetrics>)
    requires
        meta_rows(h, rows),
        upstream_rows(h, ups),
        ups.len() == admitted(h).len(),
    ensures
        meta_calls_sum(rows) == h.len(),
        forall|i: int, j: int| 0 <= i < j < rows.len() ==> seq_less((#[trigger] rows[i]).meta_tool@, (#[trigger] rows[j]).meta_tool@),
        forall|i: int| 0 <= i < rows.len() ==> (#[trigger] rows[i]).errors <= rows[i].calls
            && rows[i].p50_ms <= rows[i].p95_ms && rows[i].p95_ms <= rows[i].max_ms,
        ups.len() <= MAX_UPSTREAM_KEYS,
        forall|i: int| 0 <= i < ups.len() ==> (#[trigger] ups[i]).errors <= ups[i].calls,
        upstream_calls_sum(ups) <= h.len(),
{
    let c = of_meta(h, MetaTool::CallTool);
    let g = of_meta(h, MetaTool::GetToolDetails);
    let t = of_meta(h, MetaTool::SearchTools);
    lemma_meta_partition(h);
    lemma_failures_le(c);
    lemma_failures_le(g);
    lemma_failures_le(t);
    lemma_p50_le_p95_le_max(c);
    lemma_p50_le_p95_le_max(g);
    lemma_p50_le_p95_le_max(t);
    let pm = present_metas(h);
    assert forall|i: int| 0 <= i < rows.len() implies (#[trigger] rows[i]).errors <= rows[i].calls
        && rows[i].p50_ms <= rows[i].p95_ms && rows[i].p95_ms <= rows[i].max_ms by {
        assert(meta_row(rows[i], h, pm[i]));
    }
    // The rows' calls add up to every record.
    reveal_with_fuel(meta_calls_sum, 4);
    assert(rows.len() <= 3);
    if rows.len() >= 1 {
        assert(meta_row(rows[0], h, pm[0]));
    }
    if rows.len() >= 2 {
        assert(meta_row(rows[1], h, pm[1]));
    }
    if rows.len() >= 3 {
        assert(meta_row(rows[2], h, pm[2]));
    }
    if rows.len() == 1 {
        assert(rows.drop_last() =~= Seq::<MetaToolMetrics>::empty());
    } else if rows.len() == 2 {
        assert(rows.drop_last() =~= seq![rows[0]]);
        assert(rows.drop_last().drop_last() =~= Seq::<MetaToolMetrics>::empty());
    } else if rows.len() == 3 {
        assert(rows.drop_last() =~= seq![rows[0], rows[1]]);
        assert(rows.drop_last().drop_last() =~= seq![rows[0]]);
        assert(rows.drop_last().drop_last().drop_last() =~= Seq::<MetaToolMetrics>::empty());
    }
    // The rows come in name order.
    reveal_strlit("call_tool");
    reveal_strlit("get_tool_details");
    reveal_strlit("search_tools");
    assert(seq_less("call_tool"@, "get_tool_details"@));
    assert(seq_less("call_tool"@, "search_tools"@));
    assert(seq_less("get_tool_details"@, "search_tools"@));
    assert forall|i: int, j: int| 0 <= i < j < rows.len() implies seq_less((#[trigger] rows[i]).meta_tool@, (#[trigger] rows[j]).meta_tool@) by {
        assert(meta_row(rows[i], h, pm[i]));
        assert(meta_row(rows[j], h, pm[j]));
    }
    // The upstream rows.
    lemma_upstream_keys_bounded(h);
    assert forall|i: int| 0 <= i < ups.len() implies (#[trigger] ups[i]).errors <= ups[i].calls by {
        lemma_failed_up_le(h, ups[i].upstream@);
    }
    let names = ups.map_values(|r: UpstreamMetrics| r.upstream@);
    assert forall|i: int, j: int| 0 <= i < j < names.len() implies names[i] != names[j] by {
        assert(seq_less(ups[i].upstream@, ups[j].upstream@));
        if names[i] == names[j] {
            lemma_seq_less_irreflexive(names[i]);
        }
    }
    lemma_upstream_sum_is_counts(h, ups);
    lemma_counts_sum_le(h, names);
}

} // verus!
