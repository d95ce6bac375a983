//! The gateway's decisions around upstream connections: the three-way reconcile plan of two
//! upstream lists, and the bookkeeping of a snapshot rebuild (which upstreams are ingested,
//! which tools are kept, what the summary reports).

use vstd::prelude::*;
use crate::config::{UpstreamConfig, UpstreamTransport};
use crate::disable::DisableSet;
use crate::observe::{clone_opt_string, opt_view};
use crate::strset::copy_strings;
use crate::retrieval::{ToolDef, qualified};
use crate::text::{seq_less, str_eq, str_less, string_of, push_str, lemma_seq_less_total, lemma_seq_less_transitive, lemma_seq_less_irreflexive};

verus! {

/// Why the gateway state could not be assembled.
#[derive(Debug)]
pub enum GatewayError {
    /// The retrieval strategy is unknown or its backend is missing.
    Strategy(String),
}

impl GatewayError {
    /// The error's message.
    pub fn message(&self) -> (r: String)
        ensures
            match self {
                GatewayError::Strategy(s) => r@ == "unknown retrieval strategy: "@ + s@,
            },
    {
        match self {
            GatewayError::Strategy(s) => {
                let mut m = string_of("unknown retrieval strategy: ");
                push_str(&mut m, s.as_str());
                m
            },
        }
    }
}

/// Telemetry of one snapshot rebuild.
#[derive(Debug, Default, Clone, PartialEq)]
pub struct RebuildSummary {
    /// Upstreams whose tools went into the new snapshot.
    pub ingested: Vec<String>,
    /// Upstreams skipped this rebuild, with a short reason.
    pub skipped: Vec<(String, String)>,
}

/// One upstream-reconcile outcome. `added` and `reconnected` are planned intents: an entry
/// that also appears in `connect_failures` did not (re)connect.
#[derive(Debug, Default, Clone, PartialEq, Eq)]
pub struct ReconcileSummary {
    pub added: Vec<String>,
    pub removed: Vec<String>,
    pub reconnected: Vec<String>,
    /// `(name, error)` of each upstream whose connection failed.
    pub connect_failures: Vec<(String, String)>,
}

/// The three-way diff of two upstream lists by name.
pub struct ReconcilePlan {
    /// Names in the old list that the new list lacks, in old-list order.
    pub removed: Vec<String>,
    /// Entries of the new list that need a (re)connection, in new-list order.
    pub to_connect: Vec<UpstreamConfig>,
    /// Names new in the new list.
    pub added: Vec<String>,
    /// Names whose configuration changed.
    pub reconnected: Vec<String>,
}

/// The views of a list of strings.
pub open spec fn texts(v: Seq<String>) -> Seq<Seq<char>> {
    v.map_values(|s: String| s@)
}

/// Header `k` is bound to env var `e`.
pub open spec fn has_header(h: Seq<(String, String)>, k: Seq<char>, e: Seq<char>) -> bool {
    exists|i: int| 0 <= i < h.len() && (#[trigger] h[i]).0@ == k && h[i].1@ == e
}

/// Two transports are configured alike (headers compared as a map).
pub open spec fn same_transport(a: UpstreamTransport, b: UpstreamTransport) -> bool {
    match (a, b) {
        (
            UpstreamTransport::Stdio { command: c1, args: a1, env_passthrough: e1 },
            UpstreamTransport::Stdio { command: c2, args: a2, env_passthrough: e2 },
        ) => c1@ == c2@ && texts(a1@) == texts(a2@) && texts(e1@) == texts(e2@),
        (
            UpstreamTransport::Http { url: u1, bearer_env: b1, headers: h1 },
            UpstreamTransport::Http { url: u2, bearer_env: b2, headers: h2 },
        ) => u1@ == u2@ && opt_view(b1) == opt_view(b2) && forall|k: Seq<char>, e: Seq<char>|
            has_header(h1@, k, e) == has_header(h2@, k, e),
        _ => false,
    }
}

/// Two upstreams are configured alike.
pub open spec fn same_upstream(a: UpstreamConfig, b: UpstreamConfig) -> bool {
    a.name@ == b.name@ && a.call_timeout_ms == b.call_timeout_ms && same_transport(a.transport, b.transport)
}

/// Some entry of `s` is named `n`.
pub open spec fn has_name(s: Seq<UpstreamConfig>, n: Seq<char>) -> bool {
    exists|i: int| 0 <= i < s.len() && (#[trigger] s[i]).name@ == n
}

/// The last entry of `s` named `n` (the one a by-name lookup table built from `s` keeps).
pub open spec fn last_named(s: Seq<UpstreamConfig>, n: Seq<char>) -> UpstreamConfig
    decreases s.len(),
{
    if s.len() == 0 {
        arbitrary()
    } else if s.last().name@ == n {
        s.last()
    } else {
        last_named(s.drop_last(), n)
    }
}

/// Names of `old` entries absent from `new`, in `old` order.
pub open spec fn removed_names(old: Seq<UpstreamConfig>, new: Seq<UpstreamConfig>) -> Seq<Seq<char>>
    decreases old.len(),
{
    if old.len() == 0 {
        Seq::empty()
    } else if has_name(new, old.last().name@) {
        removed_names(old.drop_last(), new)
    } else {
        removed_names(old.drop_last(), new).push(old.last().name@)
    }
}

/// `u` is new with respect to `old`.
pub open spec fn is_added(old: Seq<UpstreamConfig>, u: UpstreamConfig) -> bool {
    !has_name(old, u.name@)
}

/// `u` changed with respect to `old`.
pub open spec fn is_changed(old: Seq<UpstreamConfig>, u: UpstreamConfig) -> bool {
    has_name(old, u.name@) && !same_upstream(last_named(old, u.name@), u)
}

/// The entries of `new` that satisfy `p`, in order.
pub open spec fn new_where(new: Seq<UpstreamConfig>, p: spec_fn(UpstreamConfig) -> bool) -> Seq<UpstreamConfig>
    decreases new.len(),
{
    if new.len() == 0 {
        Seq::empty()
    } else if p(new.last()) {
        new_where(new.drop_last(), p).push(new.last())
    } else {
        new_where(new.drop_last(), p)
    }
}

/// The names of a list of upstreams.
pub open spec fn names(s: Seq<UpstreamConfig>) -> Seq<Seq<char>> {
    s.map_values(|u: UpstreamConfig| u.name@)
}

/// `v` lists `s` entry for entry, each configured alike.
pub open spec fn alike(v: Seq<UpstreamConfig>, s: Seq<UpstreamConfig>) -> bool {
    v.len() == s.len() && forall|i: int| 0 <= i < v.len() ==> same_upstream(#[trigger] v[i], s[i])
}

fn same_strings(a: &Vec<String>, b: &Vec<String>) -> (r: bool)
    ensures
        r == (texts(a@) == texts(b@)),
{
    if a.len() != b.len() {
        proof {
            assert(texts(a@).len() != texts(b@).len());
        }
        return false;
    }
    let mut i: usize = 0;
    while i < a.len()
        invariant
            i <= a@.len(),
            a@.len() == b@.len(),
            forall|k: int| 0 <= k < i ==> (#[trigger] a@[k])@ == b@[k]@,
        decreases a@.len() - i,
    {
        if !str_eq(a[i].as_str(), b[i].as_str()) {
            proof {
                assert(texts(a@)[i as int] != texts(b@)[i as int]);
            }
            return false;
        }
        i = i + 1;
    }
    proof {
        assert(texts(a@) =~= texts(b@));
    }
    true
}

fn header_in(h: &Vec<(String, String)>, k: &str, e: &str) -> (r: bool)
    ensures
        r == has_header(h@, k@, e@),
{
    let mut i: usize = 0;
    while i < h.len()
        invariant
            i <= h@.len(),
            forall|j: int| 0 <= j < i ==> !((#[trigger] h@[j]).0@ == k@ && h@[j].1@ == e@),
        decreases h@.len() - i,
    {
        if str_eq(h[i].0.as_str(), k) && str_eq(h[i].1.as_str(), e) {
            return true;
        }
        i = i + 1;
    }
    false
}

/// Every binding of `a` is in `b`.
fn headers_within(a: &Vec<(String, String)>, b: &Vec<(String, String)>) -> (r: bool)
    ensures
        r == forall|k: Seq<char>, e: Seq<char>| has_header(a@, k, e) ==> has_header(b@, k, e),
{
    let mut i: usize = 0;
    while i < a.len()
        invariant
            i <= a@.len(),
            forall|j: int| 0 <= j < i ==> has_header(b@, (#[trigger] a@[j]).0@, a@[j].1@),
        decreases a@.len() - i,
    {
        if !header_in(b, a[i].0.as_str(), a[i].1.as_str()) {
            return false;
        }
        i = i + 1;
    }
    proof {
        assert forall|k: Seq<char>, e: Seq<char>| has_header(a@, k, e) implies has_header(b@, k, e) by {
            let j = choose|j: int| 0 <= j < a@.len() && (#[trigger] a@[j]).0@ == k && a@[j].1@ == e;
            assert(has_header(b@, a@[j].0@, a@[j].1@));
        }
    }
    true
}

fn same_transport_exec(a: &UpstreamTransport, b: &UpstreamTransport) -> (r: bool)
    ensures
        r == same_transport(*a, *b),
{
    match (a, b) {
        (
            UpstreamTransport::Stdio { command: c1, args: a1, env_passthrough: e1 },
            UpstreamTransport::Stdio { command: c2, args: a2, env_passthrough: e2 },
        ) => str_eq(c1.as_str(), c2.as_str()) && same_strings(a1, a2) && same_strings(e1, e2),
        (
            UpstreamTransport::Http { url: u1, bearer_env: b1, headers: h1 },
            UpstreamTransport::Http { url: u2, bearer_env: b2, headers: h2 },
        ) => {
            let same_bearer = match (b1, b2) {
                (Some(x), Some(y)) => str_eq(x.as_str(), y.as_str()),
                (None, None) => true,
                _ => false,
            };
            str_eq(u1.as_str(), u2.as_str()) && same_bearer && headers_within(h1, h2)
                && headers_within(h2, h1)
        },
        _ => false,
    }
}

/// Are two upstreams configured alike.
pub fn same_upstream_exec(a: &UpstreamConfig, b: &UpstreamConfig) -> (r: bool)
    ensures
        r == same_upstream(*a, *b),
{
    str_eq(a.name.as_str(), b.name.as_str()) && a.call_timeout_ms == b.call_timeout_ms
        && same_transport_exec(&a.transport, &b.transport)
}

fn copy_headers(h: &Vec<(String, String)>) -> (r: Vec<(String, String)>)
    ensures
        r@.len() == h@.len(),
        forall|i: int| 0 <= i < h@.len() ==> (#[trigger] r@[i]).0@ == h@[i].0@ && r@[i].1@ == h@[i].1@,
{
    let mut r: Vec<(String, String)> = Vec::new();
    let mut i: usize = 0;
    while i < h.len()
        invariant
            i <= h@.len(),
            r@.len() == i,
            forall|j: int| 0 <= j < i ==> (#[trigger] r@[j]).0@ == h@[j].0@ && r@[j].1@ == h@[j].1@,
        decreases h@.len() - i,
    {
        r.push((h[i].0.clone(), h[i].1.clone()));
        i = i + 1;
    }
    r
}

/// A copy of an upstream's configuration.
pub fn copy_upstream(u: &UpstreamConfig) -> (r: UpstreamConfig)
    ensures
        same_upstream(r, *u),
{
    let transport = match &u.transport {
        UpstreamTransport::Stdio { command, args, env_passthrough } => UpstreamTransport::Stdio {
            command: command.clone(),
            args: copy_strings(args),
            env_passthrough: copy_strings(env_passthrough),
        },
        UpstreamTransport::Http { url, bearer_env, headers } => {
            let h = copy_headers(headers);
            proof {
                assert forall|k: Seq<char>, e: Seq<char>| has_header(h@, k, e) == has_header(headers@, k, e) by {
                    if has_header(h@, k, e) {
                        let j = choose|j: int| 0 <= j < h@.len() && (#[trigger] h@[j]).0@ == k && h@[j].1@ == e;
                        assert(headers@[j].0@ == k);
                    }
                    if has_header(headers@, k, e) {
                        let j = choose|j: int| 0 <= j < headers@.len() && (#[trigger] headers@[j]).0@ == k && headers@[j].1@ == e;
                        assert(h@[j].0@ == k);
                    }
                }
            }
            UpstreamTransport::Http { url: url.clone(), bearer_env: clone_opt_string(bearer_env), headers: h }
        },
    };
    UpstreamConfig { name: u.name.clone(), call_timeout_ms: u.call_timeout_ms, transport }
}

/// Is some entry of `s` named `n`.
fn find_named(s: &[UpstreamConfig], n: &str) -> (r: Option<usize>)
    ensures
        match r {
            Some(i) => i < s@.len() && s@[i as int] == last_named(s@, n@) && s@[i as int].name@ == n@ && has_name(s@, n@),
            None => !has_name(s@, n@),
        },
{
    let mut i: usize = s.len();
    assert(s@.take(s@.len() as int) =~= s@);
    while i > 0
        invariant
            i <= s@.len(),
            forall|j: int| i <= j < s@.len() ==> (#[trigger] s@[j]).name@ != n@,
            last_named(s@, n@) == last_named(s@.take(i as int), n@),
        decreases i,
    {
        proof {
            assert(s@.take(i as int).drop_last() =~= s@.take(i - 1));
            assert(s@.take(i as int).last() == s@[i - 1]);
        }
        if str_eq(s[i - 1].name.as_str(), n) {
            return Some(i - 1);
        }
        i = i - 1;
    }
    None
}

/// The three-way diff of the old and the new upstream lists by name: removed names, new names,
/// changed names, and the new entries to (re)connect; unchanged entries appear nowhere.
pub fn plan_upstream_reconcile(old: &[UpstreamConfig], new: &[UpstreamConfig]) -> (p: ReconcilePlan)
    ensures
        texts(p.removed@) == removed_names(old@, new@),
        texts(p.added@) == names(new_where(new@, |u: UpstreamConfig| is_added(old@, u))),
        texts(p.reconnected@) == names(new_where(new@, |u: UpstreamConfig| is_changed(old@, u))),
        alike(
            p.to_connect@,
            new_where(new@, |u: UpstreamConfig| is_added(old@, u) || is_changed(old@, u)),
        ),
{
    let ghost added_p = |u: UpstreamConfig| is_added(old@, u);
    let ghost changed_p = |u: UpstreamConfig| is_changed(old@, u);
    let ghost connect_p = |u: UpstreamConfig| is_added(old@, u) || is_changed(old@, u);
    let mut removed: Vec<String> = Vec::new();
    let mut i: usize = 0;
    while i < old.len()
        invariant
            i <= old@.len(),
            texts(removed@) == removed_names(old@.take(i as int), new@),
        decreases old@.len() - i,
    {
        proof {
            assert(old@.take(i + 1).drop_last() =~= old@.take(i as int));
        }
        if find_named(new, old[i].name.as_str()).is_none() {
            removed.push(old[i].name.clone());
            proof {
                assert(texts(removed@) =~= texts(removed@.drop_last()).push(removed@.last()@));
            }
        }
        i = i + 1;
    }
    proof {
        assert(old@.take(old@.len() as int) =~= old@);
    }
    let mut added: Vec<String> = Vec::new();
    let mut reconnected: Vec<String> = Vec::new();
    let mut to_connect: Vec<UpstreamConfig> = Vec::new();
    let mut j: usize = 0;
    while j < new.len()
        invariant
            j <= new@.len(),
            added_p == (|u: UpstreamConfig| is_added(old@, u)),
            changed_p == (|u: UpstreamConfig| is_changed(old@, u)),
            connect_p == (|u: UpstreamConfig| is_added(old@, u) || is_changed(old@, u)),
            texts(added@) == names(new_where(new@.take(j as int), added_p)),
            texts(reconnected@) == names(new_where(new@.take(j as int), changed_p)),
            alike(to_connect@, new_where(new@.take(j as int), connect_p)),
        decreases new@.len() - j,
    {
        let u = &new[j];
        let ghost t0 = new@.take(j as int);
        let ghost t1 = new@.take(j + 1);
        proof {
            assert(t1.drop_last() =~= t0);
            assert(t1.last() == *u);
        }
        match find_named(old, u.name.as_str()) {
            None => {
                added.push(u.name.clone());
                to_connect.push(copy_upstream(u));
                proof {
                    assert(texts(added@) =~= texts(added@.drop_last()).push(u.name@));
                    assert(names(new_where(t1, added_p)) =~= names(new_where(t0, added_p)).push(u.name@));
                    assert(new_where(t1, changed_p) == new_where(t0, changed_p));
                }
            },
            Some(k) => {
                if !same_upstream_exec(&old[k], u) {
                    reconnected.push(u.name.clone());
                    to_connect.push(copy_upstream(u));
                    proof {
                        assert(texts(reconnected@) =~= texts(reconnected@.drop_last()).push(u.name@));
                        assert(names(new_where(t1, changed_p)) =~= names(new_where(t0, changed_p)).push(u.name@));
                        assert(new_where(t1, added_p) == new_where(t0, added_p));
                    }
                } else {
                    proof {
                        assert(new_where(t1, added_p) == new_where(t0, added_p));
                        assert(new_where(t1, changed_p) == new_where(t0, changed_p));
                        assert(new_where(t1, connect_p) == new_where(t0, connect_p));
                    }
                }
            },
        }
        j = j + 1;
    }
    proof {
        assert(new@.take(new@.len() as int) =~= new@);
    }
    ReconcilePlan { removed, to_connect, added, reconnected }
}

impl ReconcilePlan {
    /// Nothing to remove and nothing to connect: the reconcile is a no-op.
    pub fn is_noop(&self) -> (r: bool)
        ensures
            r == (self.removed@.len() == 0 && self.to_connect@.len() == 0),
    {
        self.removed.len() == 0 && self.to_connect.len() == 0
    }

    /// The reconcile outcome: the plan's intents and the connection failures reported back.
    pub fn into_summary(self, connect_failures: Vec<(String, String)>) -> (s: ReconcileSummary)
        ensures
            s.added == self.added,
            s.removed == self.removed,
            s.reconnected == self.reconnected,
            s.connect_failures == connect_failures,
    {
        ReconcileSummary {
            added: self.added,
            removed: self.removed,
            reconnected: self.reconnected,
            connect_failures,
        }
    }
}

/// How many times `x` occurs in `s`.
pub open spec fn count_of<A>(s: Seq<A>, x: A) -> nat
    decreases s.len(),
{
    if s.len() == 0 {
        0
    } else {
        count_of(s.drop_last(), x) + if s.last() == x {
            1nat
        } else {
            0nat
        }
    }
}

proof fn lemma_count_concat<A>(a: Seq<A>, b: Seq<A>, x: A)
    ensures
        count_of(a + b, x) == count_of(a, x) + count_of(b, x),
    decreases b.len(),
{
    if b.len() == 0 {
        assert(a + b =~= a);
    } else {
        assert((a + b).drop_last() =~= a + b.drop_last());
        lemma_count_concat(a, b.drop_last(), x);
    }
}

proof fn lemma_count_insert<A>(s: Seq<A>, p: int, y: A, x: A)
    requires
        0 <= p <= s.len(),
    ensures
        count_of(s.insert(p, y), x) == count_of(s, x) + if y == x {
            1nat
        } else {
            0nat
        },
{
    assert(s.insert(p, y) =~= s.take(p) + seq![y] + s.skip(p));
    assert(s =~= s.take(p) + s.skip(p));
    lemma_count_concat(s.take(p) + seq![y], s.skip(p), x);
    lemma_count_concat(s.take(p), seq![y], x);
    lemma_count_concat(s.take(p), s.skip(p), x);
    assert(seq![y].drop_last() =~= Seq::<A>::empty());
    assert(count_of(Seq::<A>::empty(), x) == 0);
    assert(count_of(seq![y], x) == if y == x { 1nat } else { 0nat });
}

/// Strict order of `(name, reason)` pairs: by name, then by reason.
pub open spec fn pair_less(a: (Seq<char>, Seq<char>), b: (Seq<char>, Seq<char>)) -> bool {
    seq_less(a.0, b.0) || (a.0 == b.0 && seq_less(a.1, b.1))
}

proof fn lemma_pair_less_transitive(a: (Seq<char>, Seq<char>), b: (Seq<char>, Seq<char>), c: (Seq<char>, Seq<char>))
    requires
        pair_less(a, b),
        pair_less(b, c),
    ensures
        pair_less(a, c),
{
    if seq_less(a.0, b.0) && seq_less(b.0, c.0) {
        lemma_seq_less_transitive(a.0, b.0, c.0);
    } else if a.0 == b.0 && b.0 == c.0 {
        lemma_seq_less_transitive(a.1, b.1, c.1);
    }
}

/// `v` is in ascending order (equal neighbours allowed).
pub open spec fn texts_ascending(v: Seq<String>) -> bool {
    forall|i: int, j: int| 0 <= i < j < v.len() ==> !seq_less((#[trigger] v[j])@, (#[trigger] v[i])@)
}

/// `v` is in ascending pair order (equal neighbours allowed).
pub open spec fn pairs_ascending(v: Seq<(String, String)>) -> bool {
    forall|i: int, j: int|
        0 <= i < j < v.len() ==> !pair_less(
            ((#[trigger] v[j]).0@, v[j].1@),
            ((#[trigger] v[i]).0@, v[i].1@),
        )
}

/// `v` in ascending order: the same strings, each as often.
pub fn sort_texts(v: Vec<String>) -> (out: Vec<String>)
    ensures
        texts_ascending(out@),
        forall|x: String| #[trigger] count_of(out@, x) == count_of(v@, x),
{
    let ghost v0 = v@;
    let mut rest = v;
    let mut out: Vec<String> = Vec::new();
    while rest.len() > 0
        invariant
            texts_ascending(out@),
            forall|x: String| #[trigger] count_of(out@, x) + count_of(rest@, x) == count_of(v0, x),
        decreases rest@.len(),
    {
        let ghost before_rest = rest@;
        let x = rest.pop().unwrap();
        proof {
            assert(before_rest.drop_last() =~= rest@);
        }
        let ghost before = out@;
        let mut p: usize = 0;
        while p < out.len()
            invariant
                p <= before.len(),
                out@ == before,
                forall|q: int| 0 <= q < p ==> !seq_less(x@, (#[trigger] before[q])@),
            ensures
                p <= before.len(),
                out@ == before,
                forall|q: int| 0 <= q < p ==> !seq_less(x@, (#[trigger] before[q])@),
                p < before.len() ==> seq_less(x@, before[p as int]@),
            decreases before.len() - p,
        {
            if str_less(x.as_str(), out[p].as_str()) {
                break;
            }
            p = p + 1;
        }
        let ghost xv = x;
        out.insert(p, x);
        proof {
            let after = out@;
            assert(after == before.insert(p as int, xv));
            assert forall|y: String| #[trigger] count_of(after, y) + count_of(rest@, y) == count_of(v0, y) by {
                lemma_count_insert(before, p as int, xv, y);
            }
            assert forall|i: int, j: int| 0 <= i < j < after.len() implies !seq_less(
                (#[trigger] after[j])@,
                (#[trigger] after[i])@,
            ) by {
                if j < p {
                } else if i < p && j == p {
                } else if i < p {
                    assert(!seq_less(before[j - 1]@, before[i]@));
                } else if i == p {
                    if seq_less(before[j - 1]@, xv@) {
                        if j - 1 > p {
                            assert(!seq_less(before[j - 1]@, before[p as int]@));
                            lemma_seq_less_transitive(before[j - 1]@, xv@, before[p as int]@);
                        } else {
                            lemma_seq_less_transitive(xv@, before[p as int]@, xv@);
                            lemma_seq_less_irreflexive(xv@);
                        }
                    }
                } else {
                    assert(!seq_less(before[j - 1]@, before[i - 1]@));
                }
            }
        }
    }
    proof {
        assert forall|x: String| #[trigger] count_of(out@, x) == count_of(v0, x) by {
            assert(count_of(rest@, x) == 0);
        }
    }
    out
}

/// `v` in ascending pair order: the same pairs, each as often.
pub fn sort_pairs(v: Vec<(String, String)>) -> (out: Vec<(String, String)>)
    ensures
        pairs_ascending(out@),
        forall|x: (String, String)| #[trigger] count_of(out@, x) == count_of(v@, x),
{
    let ghost v0 = v@;
    let mut rest = v;
    let mut out: Vec<(String, String)> = Vec::new();
    while rest.len() > 0
        invariant
            pairs_ascending(out@),
            forall|x: (String, String)| #[trigger] count_of(out@, x) + count_of(rest@, x) == count_of(v0, x),
        decreases rest@.len(),
    {
        let ghost before_rest = rest@;
        let x = rest.pop().unwrap();
        proof {
            assert(before_rest.drop_last() =~= rest@);
        }
        let ghost before = out@;
        let ghost xk = (x.0@, x.1@);
        let mut p: usize = 0;
        while p < out.len()
            invariant
                p <= before.len(),
                out@ == before,
                xk == (x.0@, x.1@),
                forall|q: int| 0 <= q < p ==> !pair_less(xk, ((#[trigger] before[q]).0@, before[q].1@)),
            ensures
                p <= before.len(),
                out@ == before,
                forall|q: int| 0 <= q < p ==> !pair_less(xk, ((#[trigger] before[q]).0@, before[q].1@)),
                p < before.len() ==> pair_less(xk, (before[p as int].0@, before[p as int].1@)),
            decreases before.len() - p,
        {
            let less = str_less(x.0.as_str(), out[p].0.as_str()) || (str_eq(x.0.as_str(), out[p].0.as_str())
                && str_less(x.1.as_str(), out[p].1.as_str()));
            if less {
                break;
            }
            p = p + 1;
        }
        let ghost xv = x;
        out.insert(p, x);
        proof {
            let after = out@;
            let key = |e: (String, String)| (e.0@, e.1@);
            assert(after == before.insert(p as int, xv));
            assert forall|y: (String, String)| #[trigger] count_of(after, y) + count_of(rest@, y) == count_of(v0, y) by {
                lemma_count_insert(before, p as int, xv, y);
            }
            assert forall|i: int, j: int| 0 <= i < j < after.len() implies !pair_less(
                ((#[trigger] after[j]).0@, after[j].1@),
                ((#[trigger] after[i]).0@, after[i].1@),
            ) by {
                if j < p {
                } else if i < p && j == p {
                } else if i < p {
                    assert(!pair_less(key(before[j - 1]), key(before[i])));
                } else if i == p {
                    if pair_less(key(before[j - 1]), xk) {
                        if j - 1 > p {
                            assert(!pair_less(key(before[j - 1]), key(before[p as int])));
                            lemma_pair_less_transitive(key(before[j - 1]), xk, key(before[p as int]));
                        } else {
                            lemma_pair_less_transitive(xk, key(before[p as int]), xk);
                            lemma_seq_less_irreflexive(xk.0);
                            lemma_seq_less_irreflexive(xk.1);
                        }
                    }
                } else {
                    assert(!pair_less(key(before[j - 1]), key(before[i - 1])));
                }
            }
        }
    }
    proof {
        assert forall|x: (String, String)| #[trigger] count_of(out@, x) == count_of(v0, x) by {
            assert(count_of(rest@, x) == 0);
        }
    }
    out
}

/// The names of `names` that are not disabled upstreams, in order.
pub open spec fn enabled_names(names: Seq<String>, disabled: Set<Seq<char>>) -> Seq<Seq<char>>
    decreases names.len(),
{
    if names.len() == 0 {
        Seq::empty()
    } else if disabled.contains(names.last()@) {
        enabled_names(names.drop_last(), disabled)
    } else {
        enabled_names(names.drop_last(), disabled).push(names.last()@)
    }
}

/// The upstreams a rebuild ingests: every registered one that is not disabled, in order.
pub fn ingest_targets(names: &Vec<String>, disabled: &DisableSet) -> (r: Vec<String>)
    ensures
        texts(r@) == enabled_names(names@, disabled.upstreams()),
{
    let mut r: Vec<String> = Vec::new();
    let mut i: usize = 0;
    while i < names.len()
        invariant
            i <= names@.len(),
            texts(r@) == enabled_names(names@.take(i as int), disabled.upstreams()),
        decreases names@.len() - i,
    {
        proof {
            assert(names@.take(i + 1).drop_last() =~= names@.take(i as int));
        }
        if !disabled.is_upstream_disabled(names[i].as_str()) {
            r.push(names[i].clone());
            proof {
                assert(texts(r@) =~= texts(r@.drop_last()).push(names@[i as int]@));
            }
        }
        i = i + 1;
    }
    proof {
        assert(names@.take(names@.len() as int) =~= names@);
    }
    r
}

/// Whether a rebuild keeps the tool with this qualified name (it is not disabled).
pub fn keep_tool(disabled: &DisableSet, qualified: &str) -> (r: bool)
    ensures
        r == !disabled.tools().contains(qualified@),
{
    !disabled.is_tool_disabled(qualified)
}

/// How one upstream's ingest ended.
pub enum IngestOutcome {
    /// It did not finish within its call timeout.
    TimedOut,
    /// It failed with this message.
    Failed(String),
    /// Its tools were read.
    Ingested,
}

impl RebuildSummary {
    /// Records how upstream `name`'s ingest ended.
    pub fn note(&mut self, name: String, outcome: IngestOutcome)
        ensures
            match outcome {
                IngestOutcome::TimedOut => final(self).ingested == old(self).ingested
                    && final(self).skipped@.len() == old(self).skipped@.len() + 1
                    && final(self).skipped@.drop_last() == old(self).skipped@
                    && final(self).skipped@.last().0 == name
                    && final(self).skipped@.last().1@ == "ingest timed out"@,
                IngestOutcome::Failed(m) => final(self).ingested == old(self).ingested
                    && final(self).skipped@ == old(self).skipped@.push((name, m)),
                IngestOutcome::Ingested => final(self).skipped == old(self).skipped
                    && final(self).ingested@ == old(self).ingested@.push(name),
            },
    {
        match outcome {
            IngestOutcome::TimedOut => {
                self.skipped.push((name, string_of("ingest timed out")));
            },
            IngestOutcome::Failed(m) => {
                self.skipped.push((name, m));
            },
            IngestOutcome::Ingested => {
                self.ingested.push(name);
            },
        }
    }

    /// Records an ingest task that panicked or was cancelled, as a skipped upstream: under its
    /// upstream's name when that is known, else under a generic name.
    pub fn note_failed_task(&mut self, name: Option<String>, error: &str)
        ensures
            final(self).ingested == old(self).ingested,
            final(self).skipped@.len() == old(self).skipped@.len() + 1,
            final(self).skipped@.drop_last() == old(self).skipped@,
            final(self).skipped@.last().0@ == match name {
                Some(n) => n@,
                None => "<ingest task>"@,
            },
            final(self).skipped@.last().1@ == "task failed: "@ + error@,
    {
        let n = match name {
            Some(n) => n,
            None => string_of("<ingest task>"),
        };
        let mut reason = string_of("task failed: ");
        push_str(&mut reason, error);
        self.skipped.push((n, reason));
        proof {
            assert(self.skipped@.drop_last() =~= old(self).skipped@);
        }
    }

    /// Puts both lists in ascending order (the order the summary is reported in).
    pub fn finish(&mut self)
        ensures
            texts_ascending(final(self).ingested@),
            pairs_ascending(final(self).skipped@),
            forall|x: String| #[trigger] count_of(final(self).ingested@, x) == count_of(old(self).ingested@, x),
            forall|x: (String, String)| #[trigger] count_of(final(self).skipped@, x) == count_of(old(self).skipped@, x),
    {
        let mut ingested: Vec<String> = Vec::new();
        std::mem::swap(&mut ingested, &mut self.ingested);
        self.ingested = sort_texts(ingested);
        let mut skipped: Vec<(String, String)> = Vec::new();
        std::mem::swap(&mut skipped, &mut self.skipped);
        self.skipped = sort_pairs(skipped);
    }
}

/// One finished ingest task: the upstream it ran for, how it ended, and the tools it read
/// (used only when it was `Ingested`).
pub struct IngestReport {
    pub name: String,
    pub outcome: IngestOutcome,
    pub tools: Vec<ToolDef>,
}

/// Why a finished ingest is reported as skipped.
pub open spec fn skip_reason(o: IngestOutcome) -> Seq<char> {
    match o {
        IngestOutcome::TimedOut => "ingest timed out"@,
        IngestOutcome::Failed(m) => m@,
        IngestOutcome::Ingested => Seq::empty(),
    }
}

/// The names of the upstreams of `rs` that are reported, in order.
pub open spec fn report_names(rs: Seq<IngestReport>) -> Seq<Seq<char>>
    decreases rs.len(),
{
    if rs.len() == 0 {
        Seq::empty()
    } else {
        report_names(rs.drop_last()).push(rs.last().name@)
    }
}

/// The upstreams of `rs` whose tools were read, in order.
pub open spec fn ingested_of(rs: Seq<IngestReport>) -> Seq<Seq<char>>
    decreases rs.len(),
{
    if rs.len() == 0 {
        Seq::empty()
    } else if rs.last().outcome is Ingested {
        ingested_of(rs.drop_last()).push(rs.last().name@)
    } else {
        ingested_of(rs.drop_last())
    }
}

/// The `(upstream, reason)` pairs of the ingests of `rs` that failed or timed out, in order.
pub open spec fn skipped_of(rs: Seq<IngestReport>) -> Seq<(Seq<char>, Seq<char>)>
    decreases rs.len(),
{
    if rs.len() == 0 {
        Seq::empty()
    } else if rs.last().outcome is Ingested {
        skipped_of(rs.drop_last())
    } else {
        skipped_of(rs.drop_last()).push((rs.last().name@, skip_reason(rs.last().outcome)))
    }
}

/// The tools of `tools` that are not disabled, in order.
pub open spec fn kept_of(tools: Seq<ToolDef>, disabled: Set<Seq<char>>) -> Seq<ToolDef>
    decreases tools.len(),
{
    if tools.len() == 0 {
        Seq::empty()
    } else if disabled.contains(qualified(tools.last())) {
        kept_of(tools.drop_last(), disabled)
    } else {
        kept_of(tools.drop_last(), disabled).push(tools.last())
    }
}

/// The tools a rebuild puts in the new catalog, in order: the tools that are not disabled of
/// every upstream whose tools were read.
pub open spec fn kept_tools(rs: Seq<IngestReport>, disabled: Set<Seq<char>>) -> Seq<ToolDef>
    decreases rs.len(),
{
    if rs.len() == 0 {
        Seq::empty()
    } else if rs.last().outcome is Ingested {
        kept_tools(rs.drop_last(), disabled) + kept_of(rs.last().tools@, disabled)
    } else {
        kept_tools(rs.drop_last(), disabled)
    }
}

/// The views of `(name, reason)` pairs.
pub open spec fn pair_texts(v: Seq<(String, String)>) -> Seq<(Seq<char>, Seq<char>)> {
    v.map_values(|p: (String, String)| (p.0@, p.1@))
}

/// How many pairs of `ps` are about upstream `x`.
pub open spec fn count_named(ps: Seq<(Seq<char>, Seq<char>)>, x: Seq<char>) -> nat
    decreases ps.len(),
{
    if ps.len() == 0 {
        0
    } else {
        count_named(ps.drop_last(), x) + if ps.last().0 == x {
            1nat
        } else {
            0nat
        }
    }
}

fn copy_tool(t: &ToolDef) -> (r: ToolDef)
    ensures
        r == *t,
{
    ToolDef {
        server: t.server.clone(),
        name: t.name.clone(),
        description: t.description.clone(),
        input_schema: t.input_schema.clone(),
    }
}

/// Appends the tools of `tools` that are not disabled to `catalog`.
fn keep_tools_into(catalog: &mut Vec<ToolDef>, tools: &Vec<ToolDef>, disabled: &DisableSet)
    ensures
        final(catalog)@ == old(catalog)@ + kept_of(tools@, disabled.tools()),
{
    let ghost start = catalog@;
    let mut i: usize = 0;
    while i < tools.len()
        invariant
            i <= tools@.len(),
            catalog@ == start + kept_of(tools@.take(i as int), disabled.tools()),
        decreases tools@.len() - i,
    {
        proof {
            assert(tools@.take(i + 1).drop_last() =~= tools@.take(i as int));
            assert(tools@.take(i + 1).last() == tools@[i as int]);
        }
        let q = tools[i].qualified_name();
        if keep_tool(disabled, q.as_str()) {
            catalog.push(copy_tool(&tools[i]));
            proof {
                assert(catalog@ =~= start + kept_of(tools@.take(i + 1), disabled.tools()));
            }
        }
        i = i + 1;
    }
    proof {
        assert(tools@.take(tools@.len() as int) =~= tools@);
    }
}

/// Puts a rebuild together from its finished ingest tasks, in the order they finished: each
/// upstream whose tools were read is listed as ingested and its tools that are not disabled
/// go to the new catalog; each one that failed or timed out is listed as skipped with the
/// reason. (`RebuildSummary::finish` then orders the summary.)
pub fn assemble_rebuild(reports: &Vec<IngestReport>, disabled: &DisableSet) -> (r: (RebuildSummary, Vec<ToolDef>))
    ensures
        texts(r.0.ingested@) == ingested_of(reports@),
        pair_texts(r.0.skipped@) == skipped_of(reports@),
        r.1@ == kept_tools(reports@, disabled.tools()),
{
    let mut summary = RebuildSummary { ingested: Vec::new(), skipped: Vec::new() };
    let mut catalog: Vec<ToolDef> = Vec::new();
    let mut i: usize = 0;
    proof {
        assert(texts(summary.ingested@) =~= Seq::<Seq<char>>::empty());
        assert(pair_texts(summary.skipped@) =~= Seq::<(Seq<char>, Seq<char>)>::empty());
    }
    while i < reports.len()
        invariant
            i <= reports@.len(),
            texts(summary.ingested@) == ingested_of(reports@.take(i as int)),
            pair_texts(summary.skipped@) == skipped_of(reports@.take(i as int)),
            catalog@ == kept_tools(reports@.take(i as int), disabled.tools()),
        decreases reports@.len() - i,
    {
        let ghost pre = reports@.take(i as int);
        proof {
            assert(reports@.take(i + 1).drop_last() =~= pre);
            assert(reports@.take(i + 1).last() == reports@[i as int]);
        }
        let rep = &reports[i];
        match &rep.outcome {
            IngestOutcome::Ingested => {
                summary.ingested.push(rep.name.clone());
                keep_tools_into(&mut catalog, &rep.tools, disabled);
                proof {
                    assert(texts(summary.ingested@) =~= texts(summary.ingested@.drop_last()).push(rep.name@));
                }
            },
            IngestOutcome::TimedOut => {
                summary.skipped.push((rep.name.clone(), string_of("ingest timed out")));
                proof {
                    assert(pair_texts(summary.skipped@) =~= pair_texts(summary.skipped@.drop_last()).push(
                        (rep.name@, skip_reason(rep.outcome)),
                    ));
                }
            },
            IngestOutcome::Failed(m) => {
                summary.skipped.push((rep.name.clone(), m.clone()));
                proof {
                    assert(pair_texts(summary.skipped@) =~= pair_texts(summary.skipped@.drop_last()).push(
                        (rep.name@, skip_reason(rep.outcome)),
                    ));
                }
            },
        }
        i = i + 1;
    }
    proof {
        assert(reports@.take(reports@.len() as int) =~= reports@);
    }
    (summary, catalog)
}

/// Every finished ingest is reported exactly once: for each upstream, the times it is listed
/// as ingested plus the times it is listed as skipped is the number of its finished ingest
/// tasks. So when the tasks are one per rebuild target (no two targets share a name), every
/// target is either ingested or skipped, never both, and nothing else is listed.
pub proof fn lemma_rebuild_partition(rs: Seq<IngestReport>, x: Seq<char>)
    ensures
        count_of(ingested_of(rs), x) + count_named(skipped_of(rs), x) == count_of(report_names(rs), x),
    decreases rs.len(),
{
    if rs.len() > 0 {
        let pre = rs.drop_last();
        lemma_rebuild_partition(pre, x);
        assert(report_names(rs).drop_last() =~= report_names(pre));
        if rs.last().outcome is Ingested {
            assert(ingested_of(rs).drop_last() =~= ingested_of(pre));
        } else {
            assert(skipped_of(rs).drop_last() =~= skipped_of(pre));
        }
    }
}

proof fn lemma_enabled_excludes_disabled(names: Seq<String>, disabled: Set<Seq<char>>, x: Seq<char>)
    requires
        disabled.contains(x),
    ensures
        count_of(enabled_names(names, disabled), x) == 0,
    decreases names.len(),
{
    if names.len() > 0 {
        lemma_enabled_excludes_disabled(names.drop_last(), disabled, x);
        let p = enabled_names(names.drop_last(), disabled);
        if !disabled.contains(names.last()@) {
            assert(p.push(names.last()@).drop_last() =~= p);
        }
    }
}

/// When the finished ingest tasks are one per rebuild target (`ingest_targets` of the
/// registered `names` and the disabled upstreams), each upstream is listed, as ingested or as
/// skipped, exactly as often as it is a target, and a disabled upstream never.
pub proof fn lemma_rebuild_within_targets(rs: Seq<IngestReport>, names: Seq<String>, disabled: Set<Seq<char>>, x: Seq<char>)
    requires
        forall|y: Seq<char>| #[trigger] count_of(report_names(rs), y) == count_of(enabled_names(names, disabled), y),
    ensures
        count_of(ingested_of(rs), x) + count_named(skipped_of(rs), x) == count_of(enabled_names(names, disabled), x),
        disabled.contains(x) ==> count_of(ingested_of(rs), x) == 0 && count_named(skipped_of(rs), x) == 0,
{
    lemma_rebuild_partition(rs, x);
    assert(count_of(report_names(rs), x) == count_of(enabled_names(names, disabled), x));
    if disabled.contains(x) {
        lemma_enabled_excludes_disabled(names, disabled, x);
    }
}

/// The new catalog holds only tools of ingested upstreams, and none that is disabled.
pub proof fn lemma_kept_tools_allowed(rs: Seq<IngestReport>, disabled: Set<Seq<char>>, k: int)
    requires
        0 <= k < kept_tools(rs, disabled).len(),
    ensures
        !disabled.contains(qualified(kept_tools(rs, disabled)[k])),
        exists|j: int| 0 <= j < rs.len() && rs[j].outcome is Ingested
            && rs[j].tools@.contains(#[trigger] kept_tools(rs, disabled)[k]),
    decreases rs.len(),
{
    let pre = rs.drop_last();
    if rs.last().outcome is Ingested {
        let n = kept_tools(pre, disabled).len();
        if k < n {
            lemma_kept_tools_allowed(pre, disabled, k);
            let j = choose|j: int| 0 <= j < pre.len() && pre[j].outcome is Ingested
                && pre[j].tools@.contains(#[trigger] kept_tools(pre, disabled)[k]);
            assert(rs[j] == pre[j]);
        } else {
            lemma_kept_of_allowed(rs.last().tools@, disabled, k - n);
            assert(rs[rs.len() - 1] == rs.last());
        }
    } else {
        lemma_kept_tools_allowed(pre, disabled, k);
        let j = choose|j: int| 0 <= j < pre.len() && pre[j].outcome is Ingested
            && pre[j].tools@.contains(#[trigger] kept_tools(pre, disabled)[k]);
        assert(rs[j] == pre[j]);
    }
}

proof fn lemma_kept_of_allowed(tools: Seq<ToolDef>, disabled: Set<Seq<char>>, k: int)
    requires
        0 <= k < kept_of(tools, disabled).len(),
    ensures
        !disabled.contains(qualified(kept_of(tools, disabled)[k])),
        tools.contains(kept_of(tools, disabled)[k]),
    decreases tools.len(),
{
    let pre = tools.drop_last();
    if k < kept_of(pre, disabled).len() {
        lemma_kept_of_allowed(pre, disabled, k);
        let j = choose|j: int| 0 <= j < pre.len() && pre[j] == kept_of(pre, disabled)[k];
        assert(tools[j] == pre[j]);
    } else {
        assert(tools[tools.len() - 1] == tools.last());
    }
}

fn copy_pairs(v: &Vec<(String, String)>) -> (r: Vec<(String, String)>)
    ensures
        r@ == v@,
{
    let mut r: Vec<(String, String)> = Vec::new();
    let mut i: usize = 0;
    while i < v.len()
        invariant
            i <= v@.len(),
            r@ == v@.take(i as int),
        decreases v@.len() - i,
    {
        r.push((v[i].0.clone(), v[i].1.clone()));
        assert(v@.take(i + 1) == v@.take(i as int).push(v@[i as int]));
        i = i + 1;
    }
    assert(v@.take(v@.len() as int) == v@);
    r
}

/// The part of the gateway state a rebuild replaces: the catalog the snapshot serves, and
/// the summary of the last rebuild (`None` before the first).
pub struct RebuildState {
    pub catalog: Vec<ToolDef>,
    pub last_summary: Option<RebuildSummary>,
}

impl RebuildState {
    /// The state before any rebuild: an empty catalog and no summary.
    pub fn new() -> (r: RebuildState)
        ensures
            r.catalog@ == Seq::<ToolDef>::empty(),
            r.last_summary is None,
    {
        RebuildState { catalog: Vec::new(), last_summary: None }
    }

    /// Applies one rebuild from its finished ingest tasks (see `assemble_rebuild`). `strategy`
    /// is whether the retrieval strategy could be built, with the reason when it could not;
    /// then nothing changes and the rebuild fails. Otherwise the new catalog holds the kept
    /// tools, and the summary, in ascending order (a reordering of what the tasks reported),
    /// becomes the last summary and is answered.
    pub fn apply(&mut self, reports: &Vec<IngestReport>, disabled: &DisableSet, strategy: Result<(), String>) -> (r: Result<RebuildSummary, GatewayError>)
        ensures
            match strategy {
                Err(m) => r == Err::<RebuildSummary, GatewayError>(GatewayError::Strategy(m)) && *final(self) == *old(self),
                Ok(_) => r matches Ok(s) && {
                    &&& final(self).catalog@ == kept_tools(reports@, disabled.tools())
                    &&& final(self).last_summary matches Some(l) && l.ingested@ == s.ingested@ && l.skipped@ == s.skipped@
                    &&& texts_ascending(s.ingested@)
                    &&& pairs_ascending(s.skipped@)
                    &&& exists|a: RebuildSummary| {
                        &&& texts(a.ingested@) == ingested_of(reports@)
                        &&& pair_texts(a.skipped@) == skipped_of(reports@)
                        &&& forall|x: String| #[trigger] count_of(s.ingested@, x) == count_of(a.ingested@, x)
                        &&& forall|x: (String, String)| #[trigger] count_of(s.skipped@, x) == count_of(a.skipped@, x)
                    }
                },
            },
    {
        let (mut summary, catalog) = assemble_rebuild(reports, disabled);
        let ghost assembled = summary;
        summary.finish();
        match strategy {
            Err(m) => Err(GatewayError::Strategy(m)),
            Ok(_) => {
                self.catalog = catalog;
                self.last_summary = Some(
                    RebuildSummary { ingested: copy_strings(&summary.ingested), skipped: copy_pairs(&summary.skipped) },
                );
                proof {
                    assert(texts(assembled.ingested@) == ingested_of(reports@));
                }
                Ok(summary)
            },
        }
    }
}

proof fn lemma_removed_is_filter(old: Seq<UpstreamConfig>, new: Seq<UpstreamConfig>)
    ensures
        removed_names(old, new) == names(old.filter(|o: UpstreamConfig| !has_name(new, o.name@))),
    decreases old.len(),
{
    reveal(Seq::filter);
    let f = |o: UpstreamConfig| !has_name(new, o.name@);
    if old.len() == 0 {
        assert(names(old.filter(f)) =~= Seq::<Seq<char>>::empty());
    } else {
        lemma_removed_is_filter(old.drop_last(), new);
        let q = old.drop_last().filter(f);
        assert(names(q.push(old.last())) =~= names(q).push(old.last().name@));
    }
}

proof fn lemma_new_where_is_filter(new: Seq<UpstreamConfig>, p: spec_fn(UpstreamConfig) -> bool)
    ensures
        new_where(new, p) == new.filter(p),
    decreases new.len(),
{
    reveal(Seq::filter);
    if new.len() == 0 {
        assert(new_where(new, p) =~= new.filter(p));
    } else {
        lemma_new_where_is_filter(new.drop_last(), p);
    }
}

/// The reconcile plan's lists are plain comprehensions: the removed names are the names of
/// the `old` entries whose name `new` lacks, in `old` order; the entries to connect (and the
/// added and changed ones) are the `new` entries that satisfy their test, in `new` order.
pub proof fn lemma_reconcile_lists_are_filters(
    old: Seq<UpstreamConfig>,
    new: Seq<UpstreamConfig>,
    p: spec_fn(UpstreamConfig) -> bool,
)
    ensures
        removed_names(old, new) == names(old.filter(|o: UpstreamConfig| !has_name(new, o.name@))),
        new_where(new, p) == new.filter(p),
{
    lemma_removed_is_filter(old, new);
    lemma_new_where_is_filter(new, p);
}

/// A name is removed exactly when an `old` entry has it and no `new` entry does.
pub proof fn lemma_removed_names_members(old: Seq<UpstreamConfig>, new: Seq<UpstreamConfig>, n: Seq<char>)
    ensures
        removed_names(old, new).contains(n) <==> (has_name(old, n) && !has_name(new, n)),
    decreases old.len(),
{
    if old.len() > 0 {
        let p = old.drop_last();
        lemma_removed_names_members(p, new, n);
        let r = removed_names(p, new);
        if has_name(old, n) {
            let i = choose|i: int| 0 <= i < old.len() && (#[trigger] old[i]).name@ == n;
            if i < p.len() {
                assert(p[i] == old[i]);
            }
        }
        if has_name(p, n) {
            let i = choose|i: int| 0 <= i < p.len() && (#[trigger] p[i]).name@ == n;
            assert(old[i] == p[i]);
        }
        if !has_name(new, old.last().name@) {
            assert(r.push(old.last().name@)[r.len() as int] == old.last().name@);
            if r.push(old.last().name@).contains(n) {
                let k = choose|k: int| 0 <= k < r.len() + 1 && r.push(old.last().name@)[k] == n;
                if k < r.len() {
                    assert(r.contains(n));
                }
            }
            if r.contains(n) {
                let k = choose|k: int| 0 <= k < r.len() && r[k] == n;
                assert(r.push(old.last().name@)[k] == n);
            }
        }
        assert(old[old.len() - 1] == old.last());
    }
}

/// No two entries share a name (what configuration validation guarantees).
pub open spec fn distinct_names(s: Seq<UpstreamConfig>) -> bool {
    forall|i: int, j: int| 0 <= i < s.len() && 0 <= j < s.len() && i != j ==> (#[trigger] s[i]).name@ != (#[trigger] s[j]).name@
}

proof fn lemma_last_named_is(s: Seq<UpstreamConfig>, i: int)
    requires
        distinct_names(s),
        0 <= i < s.len(),
    ensures
        last_named(s, s[i].name@) == s[i],
    decreases s.len(),
{
    if i < s.len() - 1 {
        assert(s.last().name@ != s[i].name@);
        lemma_last_named_is(s.drop_last(), i);
    }
}

proof fn lemma_same_upstream_reflexive(u: UpstreamConfig)
    ensures
        same_upstream(u, u),
{
}

proof fn lemma_new_where_none(new: Seq<UpstreamConfig>, p: spec_fn(UpstreamConfig) -> bool)
    requires
        forall|i: int| 0 <= i < new.len() ==> !p(#[trigger] new[i]),
    ensures
        new_where(new, p).len() == 0,
    decreases new.len(),
{
    if new.len() > 0 {
        assert(!p(new[new.len() - 1]));
        lemma_new_where_none(new.drop_last(), p);
    }
}

proof fn lemma_removed_none(old: Seq<UpstreamConfig>, new: Seq<UpstreamConfig>)
    requires
        forall|i: int| 0 <= i < old.len() ==> has_name(new, (#[trigger] old[i]).name@),
    ensures
        removed_names(old, new).len() == 0,
    decreases old.len(),
{
    if old.len() > 0 {
        assert(has_name(new, old[old.len() - 1].name@));
        lemma_removed_none(old.drop_last(), new);
    }
}

/// Reconciling a list of uniquely named upstreams against itself changes nothing: nothing is
/// removed, added, reconnected or connected.
pub proof fn lemma_reconcile_same_is_noop(s: Seq<UpstreamConfig>)
    requires
        distinct_names(s),
    ensures
        removed_names(s, s).len() == 0,
        new_where(s, |u: UpstreamConfig| is_added(s, u)).len() == 0,
        new_where(s, |u: UpstreamConfig| is_changed(s, u)).len() == 0,
        new_where(s, |u: UpstreamConfig| is_added(s, u) || is_changed(s, u)).len() == 0,
{
    assert forall|i: int| 0 <= i < s.len() implies has_name(s, (#[trigger] s[i]).name@) && !is_changed(s, s[i]) by {
        lemma_last_named_is(s, i);
        lemma_same_upstream_reflexive(s[i]);
    }
    lemma_removed_none(s, s);
    lemma_new_where_none(s, |u: UpstreamConfig| is_added(s, u));
    lemma_new_where_none(s, |u: UpstreamConfig| is_changed(s, u));
    lemma_new_where_none(s, |u: UpstreamConfig| is_added(s, u) || is_changed(s, u));
}

/// Two stdio upstreams judged configured alike run the same command with the same
/// arguments, one for one, and pass the same env vars: a change in any of them is a change.
pub proof fn lemma_alike_stdio_run_the_same_process(
    a: UpstreamConfig,
    b: UpstreamConfig,
    c1: String,
    a1: Vec<String>,
    e1: Vec<String>,
    c2: String,
    a2: Vec<String>,
    e2: Vec<String>,
)
    requires
        same_upstream(a, b),
        a.transport == (UpstreamTransport::Stdio { command: c1, args: a1, env_passthrough: e1 }),
        b.transport == (UpstreamTransport::Stdio { command: c2, args: a2, env_passthrough: e2 }),
    ensures
        a.name@ == b.name@,
        a.call_timeout_ms == b.call_timeout_ms,
        c1@ == c2@,
        a1@.len() == a2@.len(),
        forall|i: int| 0 <= i < a1@.len() ==> (#[trigger] a1@[i])@ == a2@[i]@,
        e1@.len() == e2@.len(),
        forall|i: int| 0 <= i < e1@.len() ==> (#[trigger] e1@[i])@ == e2@[i]@,
{
    assert(same_transport(a.transport, b.transport));
    assert(texts(a1@) == texts(a2@) && texts(e1@) == texts(e2@));
    assert(texts(a1@).len() == a1@.len() && texts(a2@).len() == a2@.len());
    assert(texts(e1@).len() == e1@.len() && texts(e2@).len() == e2@.len());
    assert forall|i: int| 0 <= i < a1@.len() implies (#[trigger] a1@[i])@ == a2@[i]@ by {
        assert(texts(a1@)[i] == texts(a2@)[i]);
    }
    assert forall|i: int| 0 <= i < e1@.len() implies (#[trigger] e1@[i])@ == e2@[i]@ by {
        assert(texts(e1@)[i] == texts(e2@)[i]);
    }
}

proof fn lemma_new_where_holds(new: Seq<UpstreamConfig>, p: spec_fn(UpstreamConfig) -> bool, j: int)
    requires
        0 <= j < new.len(),
        p(new[j]),
    ensures
        new_where(new, p).contains(new[j]),
    decreases new.len(),
{
    if j == new.len() - 1 {
        assert(new_where(new, p).last() == new[j]);
        assert(new_where(new, p)[new_where(new, p).len() - 1] == new[j]);
    } else {
        lemma_new_where_holds(new.drop_last(), p, j);
        assert(new.drop_last()[j] == new[j]);
        let w = new_where(new.drop_last(), p);
        let k = choose|k: int| 0 <= k < w.len() && w[k] == new[j];
        if p(new.last()) {
            assert(w.push(new.last())[k] == new[j]);
        }
    }
}

/// On reload, a stdio upstream whose arguments changed (same name, another argument list) is
/// reconnected: it is among the entries to connect, and counted as changed.
pub proof fn lemma_changed_args_reconnect(old: Seq<UpstreamConfig>, new: Seq<UpstreamConfig>, j: int)
    requires
        0 <= j < new.len(),
        has_name(old, new[j].name@),
        last_named(old, new[j].name@).transport matches UpstreamTransport::Stdio { args: a1, .. }
            && new[j].transport matches UpstreamTransport::Stdio { args: a2, .. }
            && (a1@.len() != a2@.len() || exists|i: int| 0 <= i < a1@.len() && (#[trigger] a1@[i])@ != a2@[i]@),
    ensures
        is_changed(old, new[j]),
        new_where(new, |u: UpstreamConfig| is_changed(old, u)).contains(new[j]),
        new_where(new, |u: UpstreamConfig| is_added(old, u) || is_changed(old, u)).contains(new[j]),
{
    let o = last_named(old, new[j].name@);
    if same_upstream(o, new[j]) {
        match (o.transport, new[j].transport) {
            (
                UpstreamTransport::Stdio { command: c1, args: a1, env_passthrough: e1 },
                UpstreamTransport::Stdio { command: c2, args: a2, env_passthrough: e2 },
            ) => {
                lemma_alike_stdio_run_the_same_process(o, new[j], c1, a1, e1, c2, a2, e2);
            },
            _ => {},
        }
    }
    assert(is_changed(old, new[j]));
    lemma_new_where_holds(new, |u: UpstreamConfig| is_changed(old, u), j);
    lemma_new_where_holds(new, |u: UpstreamConfig| is_added(old, u) || is_changed(old, u), j);
}

/// Some header of `h` has the name and the variable of `p`.
pub open spec fn header_listed(h: Seq<(String, String)>, p: (String, String)) -> bool {
    exists|j: int| 0 <= j < h.len() && (#[trigger] h[j]).0@ == p.0@ && h[j].1@ == p.1@
}

/// Two HTTP upstreams judged configured alike use the same URL and bearer variable, and
/// every header of one (name and variable) is a header of the other.
pub proof fn lemma_alike_http_reach_the_same_server(
    a: UpstreamConfig,
    b: UpstreamConfig,
    u1: String,
    b1: Option<String>,
    h1: Vec<(String, String)>,
    u2: String,
    b2: Option<String>,
    h2: Vec<(String, String)>,
)
    requires
        same_upstream(a, b),
        a.transport == (UpstreamTransport::Http { url: u1, bearer_env: b1, headers: h1 }),
        b.transport == (UpstreamTransport::Http { url: u2, bearer_env: b2, headers: h2 }),
    ensures
        a.name@ == b.name@,
        a.call_timeout_ms == b.call_timeout_ms,
        u1@ == u2@,
        opt_view(b1) == opt_view(b2),
        forall|i: int| 0 <= i < h1@.len() ==> header_listed(h2@, #[trigger] h1@[i]),
{
    assert(same_transport(a.transport, b.transport));
    assert(a.transport->Http_headers == h1 && b.transport->Http_headers == h2);
    assert forall|i: int| 0 <= i < h1@.len() implies header_listed(h2@, #[trigger] h1@[i]) by {
        let k = h1@[i].0@;
        let e = h1@[i].1@;
        assert(has_header(h1@, k, e));
        assert(has_header(h2@, k, e));
        let j = choose|j: int| 0 <= j < h2@.len() && (#[trigger] h2@[j]).0@ == k && h2@[j].1@ == e;
        assert(h2@[j].0@ == h1@[i].0@ && h2@[j].1@ == h1@[i].1@);
    }
}

} // verus!
