//! Activity aggregation over the live call window (metadata only): a fixed 24-bucket trend,
//! the error-kind distribution, and the slowest calls and busiest tools. `aggregate` is a
//! pure function of its inputs; the response never carries arguments or results.

use vstd::prelude::*;
use crate::text::{seq_less, str_eq, str_less, lemma_seq_less_transitive, lemma_seq_less_total};
use crate::observe::clone_opt_string;

verus! {

/// Number of trend buckets (constant, so the sparkline renders with a fixed bar count).
pub const BUCKETS: usize = 24;

/// Length of the top-N rankings.
pub const TOP_N: usize = 5;

/// One live call, projected to what the aggregation reads.
pub struct AggInput {
    pub id: String,
    pub ts_unix_ms: u64,
    pub meta_tool: String,
    pub target_tool: Option<String>,
    pub latency_ms: u64,
    /// `"ok"`, `"error"` or `"timeout"`.
    pub outcome: String,
    pub error_kind: Option<String>,
}

/// The aggregated activity of one window.
#[derive(Default)]
pub struct ActivityResponse {
    pub window_ms: u64,
    pub bucket_ms: u64,
    pub buckets: Vec<ActivityBucket>,
    pub total: u64,
    pub errors: u64,
    pub by_error_kind: Vec<KindCount>,
    pub slowest: Vec<SlowCall>,
    pub busiest_tools: Vec<ToolCount>,
}

/// One trend bucket: its start time and the calls (and failed calls) that fell in it.
#[derive(Default, Clone, Copy, Debug)]
pub struct ActivityBucket {
    pub t: u64,
    pub total: u64,
    pub errors: u64,
}

/// How often one error kind occurred.
pub struct KindCount {
    pub kind: String,
    pub count: u64,
}

/// One of the slowest calls.
pub struct SlowCall {
    pub id: String,
    pub label: String,
    pub meta_tool: String,
    pub latency_ms: u64,
    pub outcome: String,
}

/// How often one target tool was called.
pub struct ToolCount {
    pub name: String,
    pub count: u64,
}

/// Width of one bucket: `window_ms / 24`, at least 1.
pub open spec fn bucket_width(window_ms: u64) -> u64 {
    if window_ms / 24 == 0 {
        1
    } else {
        window_ms / 24
    }
}

/// Start of the window: 24 whole buckets before `now` (0 if that is before the epoch).
pub open spec fn window_start(window_ms: u64, now: u64) -> u64 {
    let span = bucket_width(window_ms) * 24;
    if now >= span {
        (now - span) as u64
    } else {
        0
    }
}

/// A call is in the window when it is not older than its start.
pub open spec fn in_window(x: AggInput, start: u64) -> bool {
    x.ts_unix_ms >= start
}

/// The bucket a timestamp falls in; calls past the last bucket's end count in the last one.
pub open spec fn bucket_of(ts: u64, start: u64, width: u64) -> int {
    let q = (ts - start) / (width as int);
    if q > 23 {
        23
    } else {
        q
    }
}

/// Anything but `"ok"` counts as a failure.
pub open spec fn is_failure(x: AggInput) -> bool {
    x.outcome@ != "ok"@
}

/// The key a call is tallied under: its error kind, or its target tool.
pub open spec fn tally_key(x: AggInput, by_kind: bool) -> Option<String> {
    if by_kind {
        x.error_kind
    } else {
        x.target_tool
    }
}

/// How many calls of `s` satisfy `p`.
pub open spec fn count_where(s: Seq<AggInput>, p: spec_fn(AggInput) -> bool) -> nat
    decreases s.len(),
{
    if s.len() == 0 {
        0
    } else {
        count_where(s.drop_last(), p) + if p(s.last()) {
            1nat
        } else {
            0nat
        }
    }
}

/// In the window.
pub open spec fn windowed(start: u64) -> spec_fn(AggInput) -> bool {
    |x: AggInput| in_window(x, start)
}

/// In the window and failed.
pub open spec fn failed_windowed(start: u64) -> spec_fn(AggInput) -> bool {
    |x: AggInput| in_window(x, start) && is_failure(x)
}

/// In the window and in bucket `b`.
pub open spec fn in_bucket(start: u64, width: u64, b: int) -> spec_fn(AggInput) -> bool {
    |x: AggInput| in_window(x, start) && bucket_of(x.ts_unix_ms, start, width) == b
}

/// In the window, in bucket `b`, and failed.
pub open spec fn failed_in_bucket(start: u64, width: u64, b: int) -> spec_fn(AggInput) -> bool {
    |x: AggInput| in_window(x, start) && bucket_of(x.ts_unix_ms, start, width) == b && is_failure(x)
}

/// In the window and tallied under `k` (error kind when `by_kind`, else target tool).
pub open spec fn with_key(start: u64, by_kind: bool, k: Seq<char>) -> spec_fn(AggInput) -> bool {
    |x: AggInput|
        in_window(x, start) && match tally_key(x, by_kind) {
            Some(v) => v@ == k,
            None => false,
        }
}

/// How many in-window calls carry error kind `k`.
pub open spec fn kind_count(s: Seq<AggInput>, start: u64, k: Seq<char>) -> nat {
    count_where(s, with_key(start, true, k))
}

/// How many in-window calls targeted tool `t`.
pub open spec fn tool_count(s: Seq<AggInput>, start: u64, t: Seq<char>) -> nat {
    count_where(s, with_key(start, false, t))
}

proof fn lemma_count_bound(s: Seq<AggInput>, p: spec_fn(AggInput) -> bool)
    ensures
        count_where(s, p) <= s.len(),
    decreases s.len(),
{
    if s.len() > 0 {
        lemma_count_bound(s.drop_last(), p);
    }
}

proof fn lemma_count_step(s: Seq<AggInput>, i: int, p: spec_fn(AggInput) -> bool)
    requires
        0 <= i < s.len(),
    ensures
        count_where(s.take(i + 1), p) == count_where(s.take(i), p) + if p(s[i]) {
            1nat
        } else {
            0nat
        },
        count_where(s.take(i), p) <= i,
{
    assert(s.take(i + 1).drop_last() =~= s.take(i));
    lemma_count_bound(s.take(i), p);
}

/// The trend buckets and the window's totals.
fn bucket_counts(inputs: &[AggInput], start: u64, width: u64) -> (r: (Vec<ActivityBucket>, u64, u64))
    requires
        width >= 1,
        start + 24 * width <= u64::MAX,
    ensures
        r.0@.len() == BUCKETS,
        forall|b: int|
            0 <= b < BUCKETS ==> {
                &&& (#[trigger] r.0@[b]).t == start + b * width
                &&& r.0@[b].total == count_where(inputs@, in_bucket(start, width, b))
                &&& r.0@[b].errors == count_where(inputs@, failed_in_bucket(start, width, b))
            },
        r.1 == count_where(inputs@, windowed(start)),
        r.2 == count_where(inputs@, failed_windowed(start)),
{
    let mut buckets: Vec<ActivityBucket> = Vec::new();
    let mut b: usize = 0;
    while b < BUCKETS
        invariant
            b <= BUCKETS,
            width >= 1,
            start + 24 * width <= u64::MAX,
            buckets@.len() == b,
            forall|c: int|
                0 <= c < b ==> {
                    &&& (#[trigger] buckets@[c]).t == start + c * width
                    &&& buckets@[c].total == 0
                    &&& buckets@[c].errors == 0
                },
        decreases BUCKETS - b,
    {
        assert(b * width <= 24 * width) by (nonlinear_arith)
            requires
                b <= 24,
        ;
        buckets.push(ActivityBucket { t: start + (b as u64) * width, total: 0, errors: 0 });
        b = b + 1;
    }
    let ghost s = inputs@;
    proof {
        assert forall|c: int| 0 <= c < BUCKETS implies {
            &&& (#[trigger] buckets@[c]).total == count_where(s.take(0), in_bucket(start, width, c))
            &&& buckets@[c].errors == count_where(s.take(0), failed_in_bucket(start, width, c))
        } by {}
    }
    let mut total: u64 = 0;
    let mut errors: u64 = 0;
    let mut i: usize = 0;
    while i < inputs.len()
        invariant
            i <= s.len(),
            s == inputs@,
            width >= 1,
            buckets@.len() == BUCKETS,
            forall|c: int|
                0 <= c < BUCKETS ==> {
                    &&& (#[trigger] buckets@[c]).t == start + c * width
                    &&& buckets@[c].total == count_where(s.take(i as int), in_bucket(start, width, c))
                    &&& buckets@[c].errors == count_where(
                        s.take(i as int),
                        failed_in_bucket(start, width, c),
                    )
                },
            total == count_where(s.take(i as int), windowed(start)),
            errors == count_where(s.take(i as int), failed_windowed(start)),
        decreases s.len() - i,
    {
        let x = &inputs[i];
        proof {
            lemma_count_step(s, i as int, windowed(start));
            lemma_count_step(s, i as int, failed_windowed(start));
            assert forall|c: int| 0 <= c < BUCKETS implies {
                &&& count_where(s.take(i + 1), #[trigger] in_bucket(start, width, c))
                    == count_where(s.take(i as int), in_bucket(start, width, c)) + if in_bucket(
                    start,
                    width,
                    c,
                )(s[i as int]) {
                    1nat
                } else {
                    0nat
                }
                &&& count_where(s.take(i as int), in_bucket(start, width, c)) <= i
                &&& count_where(s.take(i + 1), failed_in_bucket(start, width, c)) == count_where(
                    s.take(i as int),
                    failed_in_bucket(start, width, c),
                ) + if failed_in_bucket(start, width, c)(s[i as int]) {
                    1nat
                } else {
                    0nat
                }
                &&& count_where(s.take(i as int), failed_in_bucket(start, width, c)) <= i
            } by {
                lemma_count_step(s, i as int, in_bucket(start, width, c));
                lemma_count_step(s, i as int, failed_in_bucket(start, width, c));
            }
        }
        if x.ts_unix_ms >= start {
            let q: u64 = (x.ts_unix_ms - start) / width;
            let idx: usize = if q > 23 {
                23
            } else {
                q as usize
            };
            let failed = !str_eq(x.outcome.as_str(), "ok");
            let old_b = buckets[idx];
            let nb = ActivityBucket {
                t: old_b.t,
                total: old_b.total + 1,
                errors: if failed {
                    old_b.errors + 1
                } else {
                    old_b.errors
                },
            };
            buckets.set(idx, nb);
            total = total + 1;
            if failed {
                errors = errors + 1;
            }
        }
        i = i + 1;
    }
    assert(s.take(s.len() as int) =~= s);
    (buckets, total, errors)
}

/// A key and how often it was seen.
struct Tally {
    key: String,
    count: u64,
}

/// No key occurs twice.
spec fn distinct_keys(v: Seq<Tally>) -> bool {
    forall|i: int, j: int|
        0 <= i < v.len() && 0 <= j < v.len() && i != j ==> (#[trigger] v[i]).key@ != (
        #[trigger] v[j]).key@
}

/// `v` lists each key with a positive count under `cnt` once, with that count.
spec fn tallies(v: Seq<Tally>, cnt: spec_fn(Seq<char>) -> nat) -> bool {
    &&& distinct_keys(v)
    &&& forall|i: int| 0 <= i < v.len() ==> (#[trigger] v[i]).count == cnt(v[i].key@) && v[i].count > 0
    &&& forall|k: Seq<char>| #[trigger] cnt(k) > 0 ==> exists|i: int| 0 <= i < v.len() && (#[trigger] v[i]).key@ == k
}

/// Counts `key` once more.
fn tally_add(v: &mut Vec<Tally>, key: &String, Ghost(cnt): Ghost<spec_fn(Seq<char>) -> nat>)
    requires
        tallies(old(v)@, cnt),
        cnt(key@) < u64::MAX,
    ensures
        tallies(
            final(v)@,
            |k: Seq<char>|
                cnt(k) + if k == key@ {
                    1nat
                } else {
                    0nat
                },
        ),
{
    let mut i: usize = 0;
    while i < v.len()
        invariant
            i <= v@.len(),
            v@ == old(v)@,
            tallies(v@, cnt),
            cnt(key@) < u64::MAX,
            forall|j: int| 0 <= j < i ==> (#[trigger] v@[j]).key@ != key@,
        decreases v@.len() - i,
    {
        if str_eq(v[i].key.as_str(), key.as_str()) {
            let c = v[i].count;
            let k = v[i].key.clone();
            let ghost before = v@;
            let ghost nc = |k: Seq<char>|
                cnt(k) + if k == key@ {
                    1nat
                } else {
                    0nat
                };
            v.set(i, Tally { key: k, count: c + 1 });
            proof {
                assert forall|a: int, b: int|
                    0 <= a < v@.len() && 0 <= b < v@.len() && a != b implies (#[trigger] v@[a]).key@
                    != (#[trigger] v@[b]).key@ by {
                    assert(before[a].key@ != before[b].key@);
                }
                assert forall|j: int| 0 <= j < v@.len() implies (#[trigger] v@[j]).count == nc(
                    v@[j].key@,
                ) && v@[j].count > 0 by {
                    if j != i {
                        assert(before[j].key@ != before[i as int].key@);
                    }
                }
                assert forall|k: Seq<char>| #[trigger] nc(k) > 0 implies exists|j: int|
                    0 <= j < v@.len() && (#[trigger] v@[j]).key@ == k by {
                    if k == key@ {
                        assert(v@[i as int].key@ == k);
                    } else {
                        assert(cnt(k) > 0);
                        let j = choose|j: int| 0 <= j < before.len() && (#[trigger] before[j]).key@ == k;
                        assert(v@[j].key@ == k);
                    }
                }
            }
            return;
        }
        i = i + 1;
    }
    let ghost before = v@;
    let ghost nc = |k: Seq<char>|
        cnt(k) + if k == key@ {
            1nat
        } else {
            0nat
        };
    proof {
        if cnt(key@) > 0 {
            let j = choose|j: int| 0 <= j < before.len() && (#[trigger] before[j]).key@ == key@;
            assert(false);
        }
    }
    v.push(Tally { key: key.clone(), count: 1 });
    proof {
        assert forall|a: int, b: int|
            0 <= a < v@.len() && 0 <= b < v@.len() && a != b implies (#[trigger] v@[a]).key@
            != (#[trigger] v@[b]).key@ by {
            if a < before.len() && b < before.len() {
                assert(before[a].key@ != before[b].key@);
            }
        }
        assert forall|j: int| 0 <= j < v@.len() implies (#[trigger] v@[j]).count == nc(v@[j].key@)
            && v@[j].count > 0 by {
            if j < before.len() {
                assert(before[j].key@ != key@);
            }
        }
        assert forall|k: Seq<char>| #[trigger] nc(k) > 0 implies exists|j: int|
            0 <= j < v@.len() && (#[trigger] v@[j]).key@ == k by {
            if k == key@ {
                assert(v@[before.len() as int].key@ == k);
            } else {
                assert(cnt(k) > 0);
                let j = choose|j: int| 0 <= j < before.len() && (#[trigger] before[j]).key@ == k;
                assert(v@[j].key@ == k);
            }
        }
    }
}

/// The distinct keys of the in-window calls (error kinds when `by_kind`, else target tools),
/// each with its count.
fn tally_inputs(inputs: &[AggInput], start: u64, by_kind: bool) -> (r: Vec<Tally>)
    ensures
        tallies(r@, |k: Seq<char>| count_where(inputs@, with_key(start, by_kind, k))),
{
    let ghost s = inputs@;
    let mut v: Vec<Tally> = Vec::new();
    proof {
        assert(tallies(v@, |k: Seq<char>| count_where(s.take(0), with_key(start, by_kind, k))));
    }
    let mut i: usize = 0;
    while i < inputs.len()
        invariant
            i <= s.len(),
            s == inputs@,
            tallies(v@, |k: Seq<char>| count_where(s.take(i as int), with_key(start, by_kind, k))),
        decreases s.len() - i,
    {
        let ghost cnt = |k: Seq<char>| count_where(s.take(i as int), with_key(start, by_kind, k));
        let ghost next = |k: Seq<char>| count_where(s.take(i + 1), with_key(start, by_kind, k));
        proof {
            assert forall|k: Seq<char>|
                #![trigger with_key(start, by_kind, k)]
                count_where(s.take(i + 1), with_key(start, by_kind, k)) == count_where(
                    s.take(i as int),
                    with_key(start, by_kind, k),
                ) + if with_key(start, by_kind, k)(s[i as int]) {
                    1nat
                } else {
                    0nat
                } && count_where(s.take(i as int), with_key(start, by_kind, k)) <= i by {
                lemma_count_step(s, i as int, with_key(start, by_kind, k));
            }
        }
        let x = &inputs[i];
        let key = if by_kind {
            &x.error_kind
        } else {
            &x.target_tool
        };
        if x.ts_unix_ms >= start {
            match key {
                Some(k) => {
                    proof {
                        assert(cnt(k@) <= i);
                    }
                    tally_add(&mut v, k, Ghost(cnt));
                    proof {
                        let added = |kk: Seq<char>|
                            cnt(kk) + if kk == k@ {
                                1nat
                            } else {
                                0nat
                            };
                        assert(next =~= added) by {
                            assert forall|kk: Seq<char>| #[trigger] next(kk) == added(kk) by {
                                assert(with_key(start, by_kind, kk)(s[i as int]) == (kk == k@));
                            }
                        }
                    }
                },
                None => {
                    proof {
                        assert(next =~= cnt) by {
                            assert forall|kk: Seq<char>| #[trigger] next(kk) == cnt(kk) by {
                                assert(!with_key(start, by_kind, kk)(s[i as int]));
                            }
                        }
                    }
                },
            }
        } else {
            proof {
                assert(next =~= cnt) by {
                    assert forall|kk: Seq<char>| #[trigger] next(kk) == cnt(kk) by {
                        assert(!with_key(start, by_kind, kk)(s[i as int]));
                    }
                }
            }
        }
        i = i + 1;
    }
    assert(s.take(s.len() as int) =~= s);
    v
}

/// Ranking order of tallies: higher count first, ties by key in ascending order.
pub open spec fn ranks_before(a_key: Seq<char>, a_count: u64, b_key: Seq<char>, b_count: u64) -> bool {
    a_count > b_count || (a_count == b_count && seq_less(a_key, b_key))
}

spec fn tally_before(a: Tally, b: Tally) -> bool {
    ranks_before(a.key@, a.count, b.key@, b.count)
}

spec fn sorted_tallies(v: Seq<Tally>) -> bool {
    forall|i: int, j: int| 0 <= i < j < v.len() ==> tally_before(#[trigger] v[i], #[trigger] v[j])
}

proof fn lemma_tally_transitive(a: Tally, b: Tally, c: Tally)
    requires
        tally_before(a, b),
        tally_before(b, c),
    ensures
        tally_before(a, c),
{
    if a.count == b.count && b.count == c.count {
        lemma_seq_less_transitive(a.key@, b.key@, c.key@);
    }
}

proof fn lemma_tally_total(a: Tally, b: Tally)
    requires
        a.key@ != b.key@,
    ensures
        tally_before(a, b) || tally_before(b, a),
{
    lemma_seq_less_total(a.key@, b.key@);
}

fn tally_before_exec(a: &Tally, b: &Tally) -> (r: bool)
    ensures
        r == tally_before(*a, *b),
{
    a.count > b.count || (a.count == b.count && str_less(a.key.as_str(), b.key.as_str()))
}

/// Inserts `t` at its place in the sorted `out`.
fn insert_tally(out: &mut Vec<Tally>, t: Tally)
    requires
        sorted_tallies(old(out)@),
        forall|i: int| 0 <= i < old(out)@.len() ==> (#[trigger] old(out)@[i]).key@ != t.key@,
    ensures
        sorted_tallies(final(out)@),
        final(out)@.len() == old(out)@.len() + 1,
        forall|x: Tally| final(out)@.contains(x) <==> (old(out)@.contains(x) || x == t),
{
    let ghost before = out@;
    let mut p: usize = 0;
    while p < out.len()
        invariant
            p <= before.len(),
            out@ == before,
            forall|q: int| 0 <= q < p ==> !tally_before(t, #[trigger] before[q]),
        ensures
            p <= before.len(),
            out@ == before,
            forall|q: int| 0 <= q < p ==> !tally_before(t, #[trigger] before[q]),
            p < before.len() ==> tally_before(t, before[p as int]),
        decreases before.len() - p,
    {
        if tally_before_exec(&t, &out[p]) {
            break;
        }
        p = p + 1;
    }
    out.insert(p, t);
    proof {
        let after = out@;
        assert(after == before.insert(p as int, t));
        assert forall|i: int, j: int| 0 <= i < j < after.len() implies tally_before(
            #[trigger] after[i],
            #[trigger] after[j],
        ) by {
            if j < p {
            } else if i < p && j == p {
                assert(!tally_before(t, before[i]));
                lemma_tally_total(t, before[i]);
            } else if i < p {
                assert(!tally_before(t, before[i]));
                lemma_tally_total(t, before[i]);
                assert(tally_before(before[i], before[j - 1]));
            } else if i == p {
                assert(tally_before(t, before[p as int]));
                if j - 1 > p {
                    lemma_tally_transitive(t, before[p as int], before[j - 1]);
                }
            } else {
                assert(tally_before(before[i - 1], before[j - 1]));
            }
        }
        assert forall|x: Tally| after.contains(x) <==> (before.contains(x) || x == t) by {
            if after.contains(x) {
                let k = choose|k: int| 0 <= k < after.len() && #[trigger] after[k] == x;
                if k < p {
                    assert(before[k] == x);
                } else if k > p {
                    assert(before[k - 1] == x);
                }
            }
            if before.contains(x) {
                let k = choose|k: int| 0 <= k < before.len() && #[trigger] before[k] == x;
                if k < p {
                    assert(after[k] == x);
                } else {
                    assert(after[k + 1] == x);
                }
            }
            if x == t {
                assert(after[p as int] == x);
            }
        }
    }
}

/// The tallies of `v`, in ranking order.
fn sort_tallies(v: &Vec<Tally>) -> (out: Vec<Tally>)
    requires
        distinct_keys(v@),
    ensures
        sorted_tallies(out@),
        forall|x: Tally| out@.contains(x) <==> v@.contains(x),
{
    let mut out: Vec<Tally> = Vec::new();
    let mut i: usize = 0;
    while i < v.len()
        invariant
            i <= v@.len(),
            distinct_keys(v@),
            sorted_tallies(out@),
            forall|x: Tally| out@.contains(x) <==> v@.take(i as int).contains(x),
        decreases v@.len() - i,
    {
        let t = Tally { key: v[i].key.clone(), count: v[i].count };
        proof {
            assert(t == v@[i as int]);
            assert forall|q: int| 0 <= q < out@.len() implies (#[trigger] out@[q]).key@ != t.key@ by {
                assert(out@.contains(out@[q]));
                assert(v@.take(i as int).contains(out@[q]));
                let j = choose|j: int| 0 <= j < i && #[trigger] v@.take(i as int)[j] == out@[q];
                assert(v@[j] == out@[q]);
            }
        }
        insert_tally(&mut out, t);
        proof {
            assert forall|x: Tally| out@.contains(x) <==> v@.take(i + 1).contains(x) by {
                if v@.take(i as int).contains(x) {
                    let j = choose|j: int| 0 <= j < i && #[trigger] v@.take(i as int)[j] == x;
                    assert(v@.take(i + 1)[j] == x);
                }
                if v@.take(i + 1).contains(x) {
                    let j = choose|j: int| 0 <= j < i + 1 && #[trigger] v@.take(i + 1)[j] == x;
                    if j < i {
                        assert(v@.take(i as int)[j] == x);
                    }
                }
                if x == t {
                    assert(v@.take(i + 1)[i as int] == x);
                }
            }
        }
        i = i + 1;
    }
    assert(v@.take(v@.len() as int) =~= v@);
    out
}

/// Ranking order for the slowest calls: higher latency first, then the later call, then the
/// earlier position in the input.
pub open spec fn slower(s: Seq<AggInput>, i: int, j: int) -> bool {
    s[i].latency_ms > s[j].latency_ms || (s[i].latency_ms == s[j].latency_ms && (s[i].ts_unix_ms
        > s[j].ts_unix_ms || (s[i].ts_unix_ms == s[j].ts_unix_ms && i < j)))
}

/// `p` holds the positions of the (up to) `TOP_N` slowest in-window calls, slowest first.
pub open spec fn top_slowest(s: Seq<AggInput>, start: u64, p: Seq<usize>) -> bool {
    &&& p.len() <= TOP_N
    &&& forall|r: int| 0 <= r < p.len() ==> (#[trigger] p[r]) < s.len() && in_window(s[p[r] as int], start)
    &&& forall|a: int, b: int|
        0 <= a < b < p.len() ==> slower(s, (#[trigger] p[a]) as int, (#[trigger] p[b]) as int)
    &&& forall|j: int|
        #![trigger s[j]]
        0 <= j < s.len() && in_window(s[j], start) && !p.contains(j as usize) ==> p.len() == TOP_N
            && slower(s, p[TOP_N - 1] as int, j)
}

fn slower_exec(inputs: &[AggInput], i: usize, j: usize) -> (r: bool)
    requires
        i < inputs@.len(),
        j < inputs@.len(),
    ensures
        r == slower(inputs@, i as int, j as int),
{
    let a = &inputs[i];
    let b = &inputs[j];
    a.latency_ms > b.latency_ms || (a.latency_ms == b.latency_ms && (a.ts_unix_ms > b.ts_unix_ms
        || (a.ts_unix_ms == b.ts_unix_ms && i < j)))
}

spec fn sorted_positions(s: Seq<AggInput>, p: Seq<usize>) -> bool {
    forall|a: int, b: int|
        0 <= a < b < p.len() ==> slower(s, (#[trigger] p[a]) as int, (#[trigger] p[b]) as int)
}

/// Inserts position `j` (after all positions already in `top`) at its place.
fn insert_position(top: &mut Vec<usize>, inputs: &[AggInput], j: usize) -> (p: usize)
    requires
        j < inputs@.len(),
        sorted_positions(inputs@, old(top)@),
        forall|r: int| 0 <= r < old(top)@.len() ==> (#[trigger] old(top)@[r]) < j,
    ensures
        p <= old(top)@.len(),
        final(top)@ == old(top)@.insert(p as int, j),
        sorted_positions(inputs@, final(top)@),
{
    let ghost before = top@;
    let mut p: usize = 0;
    while p < top.len()
        invariant
            p <= before.len(),
            top@ == before,
            j < inputs@.len(),
            forall|r: int| 0 <= r < before.len() ==> (#[trigger] before[r]) < j,
            forall|q: int| 0 <= q < p ==> !slower(inputs@, j as int, (#[trigger] before[q]) as int),
        ensures
            p <= before.len(),
            top@ == before,
            forall|q: int| 0 <= q < p ==> !slower(inputs@, j as int, (#[trigger] before[q]) as int),
            p < before.len() ==> slower(inputs@, j as int, before[p as int] as int),
        decreases before.len() - p,
    {
        if slower_exec(inputs, j, top[p]) {
            break;
        }
        p = p + 1;
    }
    top.insert(p, j);
    proof {
        let after = top@;
        assert forall|a: int, b: int| 0 <= a < b < after.len() implies slower(
            inputs@,
            (#[trigger] after[a]) as int,
            (#[trigger] after[b]) as int,
        ) by {
            if b < p {
                assert(slower(inputs@, before[a] as int, before[b] as int));
            } else if a < p && b == p {
                assert(!slower(inputs@, j as int, before[a] as int));
                assert(before[a] < j);
            } else if a < p {
                assert(!slower(inputs@, j as int, before[a] as int));
                assert(before[a] < j);
                assert(slower(inputs@, before[a] as int, before[b - 1] as int));
            } else if a == p {
                assert(slower(inputs@, j as int, before[p as int] as int));
                if b - 1 > p {
                    assert(slower(inputs@, before[p as int] as int, before[b - 1] as int));
                }
            } else {
                assert(slower(inputs@, before[a - 1] as int, before[b - 1] as int));
            }
        }
    }
    p
}

/// The positions of the (up to) `TOP_N` slowest in-window calls, slowest first.
fn slowest_positions(inputs: &[AggInput], start: u64) -> (top: Vec<usize>)
    ensures
        top_slowest(inputs@, start, top@),
{
    let ghost s = inputs@;
    let mut top: Vec<usize> = Vec::new();
    let mut i: usize = 0;
    while i < inputs.len()
        invariant
            i <= s.len(),
            s == inputs@,
            top@.len() <= TOP_N,
            forall|r: int|
                0 <= r < top@.len() ==> (#[trigger] top@[r]) < i && in_window(s[top@[r] as int], start),
            sorted_positions(s, top@),
            forall|q: int|
                #![trigger s[q]]
                0 <= q < i && in_window(s[q], start) && !top@.contains(q as usize) ==> top@.len()
                    == TOP_N && slower(s, top@[TOP_N - 1] as int, q),
        decreases s.len() - i,
    {
        if inputs[i].ts_unix_ms >= start {
            let ghost old_top = top@;
            let p = insert_position(&mut top, inputs, i);
            let ghost mid = top@;
            proof {
                assert forall|x: usize| old_top.contains(x) implies mid.contains(x) by {
                    let k = choose|k: int| 0 <= k < old_top.len() && old_top[k] == x;
                    if k < p {
                        assert(mid[k] == x);
                    } else {
                        assert(mid[k + 1] == x);
                    }
                }
                assert(mid[p as int] == i);
            }
            if top.len() > TOP_N {
                top.pop();
                proof {
                    let now_top = top@;
                    assert(now_top =~= mid.take(TOP_N as int));
                    assert forall|q: int|
                        #![trigger s[q]]
                        0 <= q < i + 1 && in_window(s[q], start) && !now_top.contains(
                            q as usize,
                        ) implies slower(s, now_top[TOP_N - 1] as int, q) by {
                        if mid.contains(q as usize) {
                            let k = choose|k: int| 0 <= k < mid.len() && mid[k] == q as usize;
                            if k < TOP_N {
                                assert(now_top[k] == q as usize);
                            }
                            assert(k == TOP_N);
                        } else {
                            assert(q != i);
                            assert(!old_top.contains(q as usize));
                            assert(old_top.len() == TOP_N);
                            assert(slower(s, old_top[TOP_N - 1] as int, q));
                            if p <= TOP_N - 1 {
                                assert(mid[TOP_N as int] == old_top[TOP_N - 1]);
                                assert(slower(s, mid[TOP_N - 1] as int, mid[TOP_N as int] as int));
                            } else {
                                assert(mid[TOP_N - 1] == old_top[TOP_N - 1]);
                            }
                        }
                    }
                }
            } else {
                proof {
                    assert forall|q: int|
                        #![trigger s[q]]
                        0 <= q < i + 1 && in_window(s[q], start) && !mid.contains(
                            q as usize,
                        ) implies mid.len() == TOP_N && slower(s, mid[TOP_N - 1] as int, q) by {
                        assert(q != i);
                        assert(!old_top.contains(q as usize));
                    }
                }
            }
        }
        i = i + 1;
    }
    top
}

/// The trend buckets: bucket `b` starts at `start + b * width` and counts the in-window calls
/// (and failed ones) that fall in it.
pub open spec fn buckets_hold(s: Seq<AggInput>, start: u64, width: u64, buckets: Seq<ActivityBucket>) -> bool {
    &&& buckets.len() == BUCKETS
    &&& forall|b: int|
        0 <= b < BUCKETS ==> {
            &&& (#[trigger] buckets[b]).t == start + b * width
            &&& buckets[b].total == count_where(s, in_bucket(start, width, b))
            &&& buckets[b].errors == count_where(s, failed_in_bucket(start, width, b))
        }
}

/// Every error kind seen in the window, once, with its count, in ranking order.
pub open spec fn kinds_ranked(s: Seq<AggInput>, start: u64, v: Seq<KindCount>) -> bool {
    &&& forall|i: int|
        0 <= i < v.len() ==> (#[trigger] v[i]).count == kind_count(s, start, v[i].kind@) && v[i].count > 0
    &&& forall|i: int, j: int|
        0 <= i < j < v.len() ==> ranks_before(
            (#[trigger] v[i]).kind@,
            v[i].count,
            (#[trigger] v[j]).kind@,
            v[j].count,
        )
    &&& forall|k: Seq<char>|
        #[trigger] kind_count(s, start, k) > 0 ==> exists|i: int| 0 <= i < v.len() && (#[trigger] v[i]).kind@ == k
}

/// The (up to) `TOP_N` most called target tools in the window, with their counts, in ranking
/// order; a tool left out ranks below the last one listed.
pub open spec fn tools_ranked(s: Seq<AggInput>, start: u64, v: Seq<ToolCount>) -> bool {
    &&& v.len() <= TOP_N
    &&& forall|i: int|
        0 <= i < v.len() ==> (#[trigger] v[i]).count == tool_count(s, start, v[i].name@) && v[i].count > 0
    &&& forall|i: int, j: int|
        0 <= i < j < v.len() ==> ranks_before(
            (#[trigger] v[i]).name@,
            v[i].count,
            (#[trigger] v[j]).name@,
            v[j].count,
        )
    &&& forall|t: Seq<char>|
        #[trigger] tool_count(s, start, t) > 0 && (forall|i: int| 0 <= i < v.len() ==> (#[trigger] v[i]).name@ != t)
            ==> v.len() == TOP_N && ranks_before(
            v[TOP_N - 1].name@,
            v[TOP_N - 1].count,
            t,
            tool_count(s, start, t) as u64,
        )
}

/// `c` reports call `x`; its label is the target tool, or the meta-tool when there is none.
pub open spec fn reports(c: SlowCall, x: AggInput) -> bool {
    &&& c.id@ == x.id@
    &&& c.label@ == match x.target_tool {
        Some(t) => t@,
        None => x.meta_tool@,
    }
    &&& c.meta_tool@ == x.meta_tool@
    &&& c.latency_ms == x.latency_ms
    &&& c.outcome@ == x.outcome@
}

/// The (up to) `TOP_N` slowest in-window calls, slowest first.
pub open spec fn slowest_ranked(s: Seq<AggInput>, start: u64, v: Seq<SlowCall>) -> bool {
    exists|p: Seq<usize>|
        top_slowest(s, start, p) && v.len() == p.len() && forall|k: int|
            0 <= k < p.len() ==> reports(#[trigger] v[k], s[p[k] as int])
}

fn slow_call_of(x: &AggInput) -> (c: SlowCall)
    ensures
        reports(c, *x),
{
    let label = match &x.target_tool {
        Some(t) => t.clone(),
        None => x.meta_tool.clone(),
    };
    SlowCall {
        id: x.id.clone(),
        label,
        meta_tool: x.meta_tool.clone(),
        latency_ms: x.latency_ms,
        outcome: x.outcome.clone(),
    }
}

/// Aggregates the calls of `inputs` whose timestamp lies in the window of 24 buckets of
/// `max(window_ms / 24, 1)` ms ending at `now`.
pub fn aggregate(inputs: &[AggInput], window_ms: u64, now: u64) -> (r: ActivityResponse)
    ensures
        r.window_ms == window_ms,
        r.bucket_ms == bucket_width(window_ms),
        buckets_hold(inputs@, window_start(window_ms, now), bucket_width(window_ms), r.buckets@),
        r.total == count_where(inputs@, windowed(window_start(window_ms, now))),
        r.errors == count_where(inputs@, failed_windowed(window_start(window_ms, now))),
        kinds_ranked(inputs@, window_start(window_ms, now), r.by_error_kind@),
        slowest_ranked(inputs@, window_start(window_ms, now), r.slowest@),
        tools_ranked(inputs@, window_start(window_ms, now), r.busiest_tools@),
{
    let q: u64 = window_ms / 24;
    let bucket_ms: u64 = if q == 0 {
        1
    } else {
        q
    };
    assert(q * 24 <= window_ms) by (nonlinear_arith)
        requires
            q == window_ms / 24,
    ;
    let span: u64 = bucket_ms * 24;
    let start: u64 = if now >= span {
        now - span
    } else {
        0
    };
    let ghost s = inputs@;
    let (buckets, total, errors) = bucket_counts(inputs, start, bucket_ms);

    // Error kinds, all of them, in ranking order.
    let kinds = tally_inputs(inputs, start, true);
    let sorted_kinds = sort_tallies(&kinds);
    let mut by_error_kind: Vec<KindCount> = Vec::new();
    let mut i: usize = 0;
    while i < sorted_kinds.len()
        invariant
            i <= sorted_kinds@.len(),
            by_error_kind@.len() == i,
            forall|k: int|
                0 <= k < i ==> (#[trigger] by_error_kind@[k]).kind@ == sorted_kinds@[k].key@
                    && by_error_kind@[k].count == sorted_kinds@[k].count,
        decreases sorted_kinds@.len() - i,
    {
        by_error_kind.push(
            KindCount { kind: sorted_kinds[i].key.clone(), count: sorted_kinds[i].count },
        );
        i = i + 1;
    }
    proof {
        let cnt = |k: Seq<char>| count_where(s, with_key(start, true, k));
        let sk = sorted_kinds@;
        let v = by_error_kind@;
        assert forall|a: int| 0 <= a < v.len() implies (#[trigger] v[a]).count == kind_count(
            s,
            start,
            v[a].kind@,
        ) && v[a].count > 0 by {
            assert(sk.contains(sk[a]));
            let j = choose|j: int| 0 <= j < kinds@.len() && kinds@[j] == sk[a];
            assert(kinds@[j].count == cnt(kinds@[j].key@));
        }
        assert forall|a: int, b: int| 0 <= a < b < v.len() implies ranks_before(
            (#[trigger] v[a]).kind@,
            v[a].count,
            (#[trigger] v[b]).kind@,
            v[b].count,
        ) by {
            assert(tally_before(sk[a], sk[b]));
        }
        assert forall|k: Seq<char>| #[trigger] kind_count(s, start, k) > 0 implies exists|a: int|
            0 <= a < v.len() && (#[trigger] v[a]).kind@ == k by {
            assert(cnt(k) > 0);
            let j = choose|j: int| 0 <= j < kinds@.len() && (#[trigger] kinds@[j]).key@ == k;
            assert(kinds@.contains(kinds@[j]));
            assert(sk.contains(kinds@[j]));
            let a = choose|a: int| 0 <= a < sk.len() && sk[a] == kinds@[j];
            assert(v[a].kind@ == k);
        }
    }

    // Target tools, the first `TOP_N` in ranking order.
    let tools = tally_inputs(inputs, start, false);
    let sorted_tools = sort_tallies(&tools);
    let mut busiest_tools: Vec<ToolCount> = Vec::new();
    let mut i: usize = 0;
    while i < sorted_tools.len() && i < TOP_N
        invariant
            i <= sorted_tools@.len(),
            i <= TOP_N,
            busiest_tools@.len() == i,
            forall|k: int|
                0 <= k < i ==> (#[trigger] busiest_tools@[k]).name@ == sorted_tools@[k].key@
                    && busiest_tools@[k].count == sorted_tools@[k].count,
        decreases sorted_tools@.len() - i,
    {
        busiest_tools.push(
            ToolCount { name: sorted_tools[i].key.clone(), count: sorted_tools[i].count },
        );
        i = i + 1;
    }
    proof {
        let cnt = |k: Seq<char>| count_where(s, with_key(start, false, k));
        let st = sorted_tools@;
        let v = busiest_tools@;
        assert forall|a: int| 0 <= a < v.len() implies (#[trigger] v[a]).count == tool_count(
            s,
            start,
            v[a].name@,
        ) && v[a].count > 0 by {
            assert(st.contains(st[a]));
            let j = choose|j: int| 0 <= j < tools@.len() && tools@[j] == st[a];
            assert(tools@[j].count == cnt(tools@[j].key@));
        }
        assert forall|a: int, b: int| 0 <= a < b < v.len() implies ranks_before(
            (#[trigger] v[a]).name@,
            v[a].count,
            (#[trigger] v[b]).name@,
            v[b].count,
        ) by {
            assert(tally_before(st[a], st[b]));
        }
        assert forall|t: Seq<char>|
            #[trigger] tool_count(s, start, t) > 0 && (forall|a: int|
                0 <= a < v.len() ==> (#[trigger] v[a]).name@ != t) implies v.len() == TOP_N
            && ranks_before(v[TOP_N - 1].name@, v[TOP_N - 1].count, t, tool_count(s, start, t) as u64) by {
            assert(cnt(t) > 0);
            let j = choose|j: int| 0 <= j < tools@.len() && (#[trigger] tools@[j]).key@ == t;
            assert(tools@.contains(tools@[j]));
            assert(st.contains(tools@[j]));
            let a = choose|a: int| 0 <= a < st.len() && st[a] == tools@[j];
            if a < v.len() {
                assert(v[a].name@ == t);
            }
            assert(v.len() == TOP_N);
            assert(tally_before(st[TOP_N - 1], st[a]));
            assert(st[a].count == cnt(t));
        }
    }

    // The slowest calls.
    let top = slowest_positions(inputs, start);
    let mut slowest: Vec<SlowCall> = Vec::new();
    let mut i: usize = 0;
    while i < top.len()
        invariant
            i <= top@.len(),
            s == inputs@,
            top_slowest(s, start, top@),
            slowest@.len() == i,
            forall|k: int| 0 <= k < i ==> reports(#[trigger] slowest@[k], s[top@[k] as int]),
        decreases top@.len() - i,
    {
        slowest.push(slow_call_of(&inputs[top[i]]));
        i = i + 1;
    }
    ActivityResponse {
        window_ms,
        bucket_ms,
        buckets,
        total,
        errors,
        by_error_kind,
        slowest,
        busiest_tools,
    }
}

/// The calls counted in buckets `0..n`.
pub open spec fn bucket_sum(s: Seq<AggInput>, start: u64, width: u64, n: int) -> nat
    decreases n,
{
    if n <= 0 {
        0
    } else {
        bucket_sum(s, start, width, n - 1) + count_where(s, in_bucket(start, width, n - 1))
    }
}

/// The failed calls counted in buckets `0..n`.
pub open spec fn bucket_error_sum(s: Seq<AggInput>, start: u64, width: u64, n: int) -> nat
    decreases n,
{
    if n <= 0 {
        0
    } else {
        bucket_error_sum(s, start, width, n - 1) + count_where(s, failed_in_bucket(start, width, n - 1))
    }
}

proof fn lemma_bucket_sums_push(s: Seq<AggInput>, x: AggInput, start: u64, width: u64, n: int)
    requires
        width >= 1,
        0 <= n,
    ensures
        bucket_sum(s.push(x), start, width, n) == bucket_sum(s, start, width, n) + if in_window(x, start)
            && bucket_of(x.ts_unix_ms, start, width) < n {
            1nat
        } else {
            0nat
        },
        bucket_error_sum(s.push(x), start, width, n) == bucket_error_sum(s, start, width, n) + if in_window(
            x,
            start,
        ) && bucket_of(x.ts_unix_ms, start, width) < n && is_failure(x) {
            1nat
        } else {
            0nat
        },
    decreases n,
{
    assert(s.push(x).drop_last() =~= s);
    if n > 0 {
        lemma_bucket_sums_push(s, x, start, width, n - 1);
    }
}

proof fn lemma_bucket_sums_empty(start: u64, width: u64, n: int)
    ensures
        bucket_sum(Seq::empty(), start, width, n) == 0,
        bucket_error_sum(Seq::empty(), start, width, n) == 0,
    decreases n,
{
    if n > 0 {
        lemma_bucket_sums_empty(start, width, n - 1);
    }
}

/// Every in-window call lands in exactly one of the 24 buckets: the buckets' totals (and
/// errors) add up to the window's.
pub proof fn lemma_buckets_cover_window(s: Seq<AggInput>, start: u64, width: u64)
    requires
        width >= 1,
    ensures
        bucket_sum(s, start, width, BUCKETS as int) == count_where(s, windowed(start)),
        bucket_error_sum(s, start, width, BUCKETS as int) == count_where(s, failed_windowed(start)),
    decreases s.len(),
{
    if s.len() == 0 {
        lemma_bucket_sums_empty(start, width, BUCKETS as int);
        assert(s =~= Seq::<AggInput>::empty());
    } else {
        let x = s.last();
        let rest = s.drop_last();
        lemma_buckets_cover_window(rest, start, width);
        assert(rest.push(x) =~= s);
        lemma_bucket_sums_push(rest, x, start, width, BUCKETS as int);
        if in_window(x, start) {
            assert(0 <= (x.ts_unix_ms - start) / (width as int)) by (nonlinear_arith)
                requires
                    x.ts_unix_ms >= start,
                    width >= 1,
            ;
        }
    }
}

/// A window never reports more failed calls than calls, in total and in every bucket.
pub proof fn lemma_errors_within_totals(s: Seq<AggInput>, start: u64, width: u64, b: int)
    ensures
        count_where(s, failed_windowed(start)) <= count_where(s, windowed(start)),
        count_where(s, failed_in_bucket(start, width, b)) <= count_where(s, in_bucket(start, width, b)),
    decreases s.len(),
{
    if s.len() > 0 {
        lemma_errors_within_totals(s.drop_last(), start, width, b);
    }
}

/// The calls whose timestamp lies in `[lo, hi)`.
pub open spec fn stamped_between(lo: int, hi: int) -> spec_fn(AggInput) -> bool {
    |x: AggInput| lo <= x.ts_unix_ms && x.ts_unix_ms < hi
}

/// The calls whose timestamp is at least `lo`.
pub open spec fn stamped_from(lo: int) -> spec_fn(AggInput) -> bool {
    |x: AggInput| lo <= x.ts_unix_ms
}

proof fn lemma_count_same(s: Seq<AggInput>, p: spec_fn(AggInput) -> bool, q: spec_fn(AggInput) -> bool)
    requires
        forall|x: AggInput| #[trigger] p(x) == q(x),
    ensures
        count_where(s, p) == count_where(s, q),
    decreases s.len(),
{
    if s.len() > 0 {
        lemma_count_same(s.drop_last(), p, q);
    }
}

/// Each trend bucket but the last covers exactly its own span of time: bucket `b < 23`
/// counts the calls stamped in `[start + b * width, start + (b + 1) * width)`, a call
/// strictly inside a bucket's span counting in that bucket.
pub proof fn lemma_bucket_counts_its_span(s: Seq<AggInput>, start: u64, width: u64, b: int)
    requires
        width >= 1,
        0 <= b < 23,
    ensures
        count_where(s, in_bucket(start, width, b)) == count_where(
            s,
            stamped_between(start + b * width, start + (b + 1) * width),
        ),
{
    let p = in_bucket(start, width, b);
    let q = stamped_between(start + b * width, start + (b + 1) * width);
    assert forall|x: AggInput| #[trigger] p(x) == q(x) by {
        let ts = x.ts_unix_ms;
        if ts >= start {
            let d: int = ts - start;
            let w: int = width as int;
            assert((d / w == b) <==> (b * w <= d && d < (b + 1) * w)) by (nonlinear_arith)
                requires
                    w >= 1,
                    d >= 0,
                    0 <= b,
            {
                assert(d == w * (d / w) + d % w);
                assert(0 <= d % w < w);
                if d / w == b {
                    assert(b * w <= d);
                }
                if b * w <= d && d < (b + 1) * w {
                    if d / w < b {
                        assert((d / w) * w <= (b - 1) * w);
                    }
                    if d / w > b {
                        assert((d / w) * w >= (b + 1) * w);
                    }
                }
            }
        } else {
            assert(start + b * (width as int) >= start) by (nonlinear_arith)
                requires
                    b >= 0,
                    width >= 1,
            ;
        }
    }
    lemma_count_same(s, p, q);
}

/// The last trend bucket counts every call stamped from its start on.
pub proof fn lemma_last_bucket_counts_the_rest(s: Seq<AggInput>, start: u64, width: u64)
    requires
        width >= 1,
    ensures
        count_where(s, in_bucket(start, width, 23)) == count_where(s, stamped_from(start + 23 * width)),
{
    let p = in_bucket(start, width, 23);
    let q = stamped_from(start + 23 * width);
    assert forall|x: AggInput| #[trigger] p(x) == q(x) by {
        let ts = x.ts_unix_ms;
        if ts >= start {
            let d: int = ts - start;
            let w: int = width as int;
            assert((d / w >= 23) <==> (23 * w <= d)) by (nonlinear_arith)
                requires
                    w >= 1,
                    d >= 0,
            {
                assert(d == w * (d / w) + d % w);
                assert(0 <= d % w < w);
                if d / w >= 23 {
                    assert((d / w) * w >= 23 * w);
                }
                if 23 * w <= d && d / w < 23 {
                    assert((d / w) * w <= 22 * w);
                }
            }
        }
    }
    lemma_count_same(s, p, q);
}

/// What the trend reports, by time: when `buckets` hold the window's counts, each bucket but
/// the last counts the calls stamped in `[t, t + width)` of its reported start `t`, and the
/// last counts those stamped from its start on.
pub proof fn lemma_trend_buckets_by_time(s: Seq<AggInput>, start: u64, width: u64, buckets: Seq<ActivityBucket>, b: int)
    requires
        width >= 1,
        buckets_hold(s, start, width, buckets),
        0 <= b < BUCKETS,
    ensures
        b < 23 ==> buckets[b].total == count_where(s, stamped_between(buckets[b].t as int, buckets[b].t + width)),
        b == 23 ==> buckets[b].total == count_where(s, stamped_from(buckets[b].t as int)),
{
    if b < 23 {
        lemma_bucket_counts_its_span(s, start, width, b);
        assert(buckets[b].t + width == start + (b + 1) * width) by (nonlinear_arith)
            requires
                buckets[b].t == start + b * width,
        ;
    } else {
        lemma_last_bucket_counts_the_rest(s, start, width);
    }
}

/// The failed calls whose timestamp lies in `[lo, hi)` (anything but `"ok"` failed).
pub open spec fn failed_between(lo: int, hi: int) -> spec_fn(AggInput) -> bool {
    |x: AggInput| lo <= x.ts_unix_ms && x.ts_unix_ms < hi && x.outcome@ != "ok"@
}

/// Each trend bucket but the last counts as errors exactly the failed calls stamped in its own
/// span `[start + b * width, start + (b + 1) * width)`.
pub proof fn lemma_bucket_errors_in_its_span(s: Seq<AggInput>, start: u64, width: u64, b: int)
    requires
        width >= 1,
        0 <= b < 23,
    ensures
        count_where(s, failed_in_bucket(start, width, b)) == count_where(
            s,
            failed_between(start + b * width, start + (b + 1) * width),
        ),
{
    let p = failed_in_bucket(start, width, b);
    let q = failed_between(start + b * width, start + (b + 1) * width);
    let r = in_bucket(start, width, b);
    let t = stamped_between(start + b * width, start + (b + 1) * width);
    assert forall|x: AggInput| #[trigger] p(x) == q(x) by {
        assert(p(x) == (r(x) && x.outcome@ != "ok"@));
        assert(q(x) == (t(x) && x.outcome@ != "ok"@));
        let ts = x.ts_unix_ms;
        if ts >= start {
            let d: int = ts - start;
            let w: int = width as int;
            assert((d / w == b) <==> (b * w <= d && d < (b + 1) * w)) by (nonlinear_arith)
                requires
                    w >= 1,
                    d >= 0,
                    0 <= b,
            {
                assert(d == w * (d / w) + d % w);
                assert(0 <= d % w < w);
                if d / w == b {
                    assert(b * w <= d);
                }
                if b * w <= d && d < (b + 1) * w {
                    if d / w < b {
                        assert((d / w) * w <= (b - 1) * w);
                    }
                    if d / w > b {
                        assert((d / w) * w >= (b + 1) * w);
                    }
                }
            }
        } else {
            assert(start + b * (width as int) >= start) by (nonlinear_arith)
                requires
                    b >= 0,
                    width >= 1,
            ;
        }
    }
    lemma_count_same(s, p, q);
}

} // verus!
