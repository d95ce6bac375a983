//! Start-up decisions taken from the configuration: which secrets must be read from the
//! environment and how a missing or blank one is reported, and whether an HTTP bind exposes an
//! unauthenticated server beyond this host. Reading the environment and parsing socket
//! addresses happen at the edge.

use vstd::prelude::*;
use crate::config::{Config, RetrievalConfig, UpstreamTransport, debug_quote, debug_quoted};
use crate::text::{is_blank, str_is_blank, string_of, push_str, chars_of, string_of_range, str_eq};
use crate::observe::{opt_view, clone_opt_string};

verus! {

/// The HTTP server is configured and switched on.
pub open spec fn http_enabled(cfg: Config) -> bool {
    cfg.server.http is Some && cfg.server.http->0.enabled
}

/// The `(label, env var)` of every API key to resolve: those of an enabled HTTP server, none
/// otherwise.
pub fn api_key_refs(cfg: &Config) -> (r: Vec<(String, String)>)
    ensures
        http_enabled(*cfg) ==> r@.len() == cfg.server.http->0.api_keys@.len() && forall|i: int|
            0 <= i < r@.len() ==> (#[trigger] r@[i]).0@ == cfg.server.http->0.api_keys@[i].name@
                && r@[i].1@ == cfg.server.http->0.api_keys@[i].env@,
        !http_enabled(*cfg) ==> r@.len() == 0,
{
    let mut r: Vec<(String, String)> = Vec::new();
    match &cfg.server.http {
        Some(h) => {
            if h.enabled {
                let mut i: usize = 0;
                while i < h.api_keys.len()
                    invariant
                        i <= h.api_keys@.len(),
                        r@.len() == i,
                        forall|k: int|
                            0 <= k < i ==> (#[trigger] r@[k]).0@ == h.api_keys@[k].name@ && r@[k].1@
                                == h.api_keys@[k].env@,
                    decreases h.api_keys@.len() - i,
                {
                    r.push((h.api_keys[i].name.clone(), h.api_keys[i].env.clone()));
                    i = i + 1;
                }
            }
        },
        None => {},
    }
    r
}

/// An API key secret read from env var `env` (`None` when unset): refused when unset or
/// blank, with a message naming the key and the variable, never the value.
pub fn api_key_secret(name: &str, env: &str, value: Option<String>) -> (r: Result<String, String>)
    ensures
        match value {
            None => r matches Err(m) && m@ == "api_key "@ + debug_quoted(name@) + ": env "@ + debug_quoted(env@)
                + " is not set"@,
            Some(v) => if is_blank(v@) {
                r matches Err(m) && m@ == "api_key "@ + debug_quoted(name@) + ": env "@ + debug_quoted(env@)
                    + " is set but empty"@
            } else {
                r matches Ok(s) && s == v
            },
        },
{
    match value {
        None => {
            let mut m = string_of("api_key ");
            push_str(&mut m, debug_quote(name).as_str());
            push_str(&mut m, ": env ");
            push_str(&mut m, debug_quote(env).as_str());
            push_str(&mut m, " is not set");
            Err(m)
        },
        Some(v) => {
            if str_is_blank(v.as_str()) {
                let mut m = string_of("api_key ");
                push_str(&mut m, debug_quote(name).as_str());
                push_str(&mut m, ": env ");
                push_str(&mut m, debug_quote(env).as_str());
                push_str(&mut m, " is set but empty");
                Err(m)
            } else {
                Ok(v)
            }
        },
    }
}

/// The env var holding the dashboard admin token, when the dashboard is on and one is named.
pub fn admin_token_ref(cfg: &Config) -> (r: Option<String>)
    ensures
        opt_view(r) == if cfg.dashboard.enabled {
            opt_view(cfg.dashboard.admin_token_env)
        } else {
            None
        },
{
    if !cfg.dashboard.enabled {
        return None;
    }
    match &cfg.dashboard.admin_token_env {
        Some(e) => Some(e.clone()),
        None => None,
    }
}

/// The admin token read from env var `env` (`None` when unset): refused when unset or blank.
pub fn admin_token_secret(env: &str, value: Option<String>) -> (r: Result<String, String>)
    ensures
        match value {
            None => r matches Err(m) && m@ == "[dashboard].admin_token_env: env "@ + debug_quoted(env@)
                + " is not set"@,
            Some(v) => if is_blank(v@) {
                r matches Err(m) && m@ == "[dashboard].admin_token_env: env "@ + debug_quoted(env@)
                    + " is set but empty"@
            } else {
                r matches Ok(s) && s == v
            },
        },
{
    match value {
        None => {
            let mut m = string_of("[dashboard].admin_token_env: env ");
            push_str(&mut m, debug_quote(env).as_str());
            push_str(&mut m, " is not set");
            Err(m)
        },
        Some(v) => {
            if str_is_blank(v.as_str()) {
                let mut m = string_of("[dashboard].admin_token_env: env ");
                push_str(&mut m, debug_quote(env).as_str());
                push_str(&mut m, " is set but empty");
                Err(m)
            } else {
                Ok(v)
            }
        },
    }
}

/// One env var an HTTP upstream needs: its bearer token, or the value of one header.
pub struct EnvRef {
    pub upstream: String,
    /// The header the variable fills; `None` for the bearer token.
    pub header: Option<String>,
    pub env: String,
}

/// The message for an env var that is not set.
pub open spec fn missing_env_message(upstream: Seq<char>, header: Option<Seq<char>>, env: Seq<char>) -> Seq<char> {
    match header {
        None => "upstream "@ + debug_quoted(upstream) + ": bearer_env "@ + debug_quoted(env) + " is not set"@,
        Some(h) => "upstream "@ + debug_quoted(upstream) + ": header "@ + debug_quoted(h) + " env "@
            + debug_quoted(env) + " is not set"@,
    }
}

impl EnvRef {
    /// The message reporting that this variable is not set.
    pub fn missing_message(&self) -> (r: String)
        ensures
            r@ == missing_env_message(self.upstream@, opt_view(self.header), self.env@),
    {
        let mut m = string_of("upstream ");
        push_str(&mut m, debug_quote(self.upstream.as_str()).as_str());
        match &self.header {
            None => {
                push_str(&mut m, ": bearer_env ");
            },
            Some(h) => {
                push_str(&mut m, ": header ");
                push_str(&mut m, debug_quote(h.as_str()).as_str());
                push_str(&mut m, " env ");
            },
        }
        push_str(&mut m, debug_quote(self.env.as_str()).as_str());
        push_str(&mut m, " is not set");
        m
    }
}

/// The env vars the HTTP upstreams reference, in configuration order: for each, its bearer
/// variable (if any) then its header variables.
pub open spec fn upstream_env_refs(ups: Seq<crate::config::UpstreamConfig>) -> Seq<(Seq<char>, Option<Seq<char>>, Seq<char>)>
    decreases ups.len(),
{
    if ups.len() == 0 {
        Seq::empty()
    } else {
        let u = ups.last();
        upstream_env_refs(ups.drop_last()) + match u.transport {
            UpstreamTransport::Http { bearer_env, headers, .. } => (match bearer_env {
                Some(b) => seq![(u.name@, None, b@)],
                None => Seq::empty(),
            }) + headers@.map_values(|h: (String, String)| (u.name@, Some(h.0@), h.1@)),
            UpstreamTransport::Stdio { .. } => Seq::empty(),
        }
    }
}

pub open spec fn env_ref_view(e: EnvRef) -> (Seq<char>, Option<Seq<char>>, Seq<char>) {
    (e.upstream@, opt_view(e.header), e.env@)
}

/// Every env var the HTTP upstreams need, to check before starting.
pub fn env_refs(cfg: &Config) -> (r: Vec<EnvRef>)
    ensures
        r@.map_values(|e: EnvRef| env_ref_view(e)) == upstream_env_refs(cfg.upstreams@),
{
    let ghost ups = cfg.upstreams@;
    let mut r: Vec<EnvRef> = Vec::new();
    let mut i: usize = 0;
    while i < cfg.upstreams.len()
        invariant
            i <= ups.len(),
            ups == cfg.upstreams@,
            r@.map_values(|e: EnvRef| env_ref_view(e)) == upstream_env_refs(ups.take(i as int)),
        decreases ups.len() - i,
    {
        let u = &cfg.upstreams[i];
        let ghost before = r@.map_values(|e: EnvRef| env_ref_view(e));
        proof {
            assert(ups.take(i + 1).drop_last() =~= ups.take(i as int));
        }
        match &u.transport {
            UpstreamTransport::Http { bearer_env, headers, .. } => {
                match bearer_env {
                    Some(b) => {
                        r.push(EnvRef { upstream: u.name.clone(), header: None, env: b.clone() });
                    },
                    None => {},
                }
                let ghost mid = r@.map_values(|e: EnvRef| env_ref_view(e));
                let mut k: usize = 0;
                while k < headers.len()
                    invariant
                        k <= headers@.len(),
                        r@.map_values(|e: EnvRef| env_ref_view(e)) == mid + headers@.take(k as int).map_values(
                            |h: (String, String)| (u.name@, Some(h.0@), h.1@),
                        ),
                    decreases headers@.len() - k,
                {
                    let ghost rb = r@;
                    let e = EnvRef { upstream: u.name.clone(), header: Some(headers[k].0.clone()), env: headers[k].1.clone() };
                    r.push(e);
                    proof {
                        assert(r@ == rb.push(e));
                        assert(r@.map_values(|e: EnvRef| env_ref_view(e)) =~= rb.map_values(|e: EnvRef| env_ref_view(e)).push(env_ref_view(e)));
                        assert(headers@.take(k + 1) =~= headers@.take(k as int).push(headers@[k as int]));
                        assert(r@.map_values(|e: EnvRef| env_ref_view(e)) =~= mid + headers@.take(k + 1).map_values(
                            |h: (String, String)| (u.name@, Some(h.0@), h.1@),
                        ));
                    }
                    k = k + 1;
                }
                proof {
                    assert(headers@.take(headers@.len() as int) =~= headers@);
                    assert(r@.map_values(|e: EnvRef| env_ref_view(e)) =~= upstream_env_refs(ups.take(i + 1)));
                }
            },
            UpstreamTransport::Stdio { .. } => {
                proof {
                    assert(r@.map_values(|e: EnvRef| env_ref_view(e)) =~= upstream_env_refs(ups.take(i + 1)));
                }
            },
        }
        i = i + 1;
    }
    proof {
        assert(ups.take(ups.len() as int) =~= ups);
    }
    r
}

/// The host of a bind that is not a socket address: the text before the last `:` (all of it
/// when there is none).
pub open spec fn bind_host(bind: Seq<char>) -> Seq<char> {
    if exists|i: int| 0 <= i < bind.len() && bind[i] == ':' {
        bind.take(choose|i: int| 0 <= i < bind.len() && bind[i] == ':' && forall|j: int| i < j < bind.len() ==> bind[j] != ':')
    } else {
        bind
    }
}

/// Does an HTTP server without API keys on this bind warrant the "unauthenticated and
/// reachable off this host" warning. `loopback` is whether the bind, read as a socket address,
/// is a loopback address (`None` when it is not a socket address); an unparseable bind is
/// trusted only when its host is the literal `localhost`.
pub fn unauthenticated_public_bind(bind: &str, has_keys: bool, loopback: Option<bool>) -> (r: bool)
    ensures
        r == (!has_keys && match loopback {
            Some(l) => !l,
            None => bind_host(bind@) != "localhost"@,
        }),
{
    if has_keys {
        return false;
    }
    match loopback {
        Some(l) => !l,
        None => {
            let cs = chars_of(bind);
            let n = cs.len();
            let mut k: usize = n;
            while k > 0 && cs[k - 1] != ':'
                invariant
                    k <= n,
                    n == cs@.len(),
                    cs@ == bind@,
                    forall|j: int| k <= j < n ==> cs@[j] != ':',
                decreases k,
            {
                k = k - 1;
            }
            let host = if k == 0 {
                proof {
                    assert(!exists|i: int| 0 <= i < bind@.len() && bind@[i] == ':');
                    assert(cs@.subrange(0, n as int) =~= bind@);
                }
                string_of_range(&cs, 0, n)
            } else {
                proof {
                    let w = choose|i: int| 0 <= i < bind@.len() && bind@[i] == ':' && forall|j: int| i < j < bind@.len() ==> bind@[j] != ':';
                    assert(bind@[k - 1] == ':');
                    assert(w == k - 1) by {
                        if w < k - 1 {
                        } else if w > k - 1 {
                        }
                    }
                }
                string_of_range(&cs, 0, k - 1)
            };
            proof {
                assert(host@ =~= bind_host(bind@));
            }
            !str_eq(host.as_str(), "localhost")
        },
    }
}

/// The dashboard part of what `serve` runs.
pub struct DashboardPlan {
    pub bind: String,
    /// Capacity of the live calls ring.
    pub call_buffer: usize,
    /// Discovery capture, when traces are on: the ring's capacity and the optional log path.
    pub traces: Option<(usize, Option<String>)>,
    /// The discovery log the history view replays, when one is configured.
    pub discovery_path: Option<String>,
    /// The audit log the history views replay, when auditing is on.
    pub audit_path: Option<String>,
}

/// What `serve` runs, decided from the configuration.
pub struct ServePlan {
    pub stdio: bool,
    /// The HTTP server's bind address and mount path, when it is on.
    pub http: Option<(String, String)>,
    /// The audit log's path, when auditing is on.
    pub audit_path: Option<String>,
    /// The most bytes of call content kept per call.
    pub payload_max_bytes: usize,
    /// The dashboard, when it is on.
    pub dashboard: Option<DashboardPlan>,
}

/// The message when neither transport is on.
pub open spec fn no_transport_message() -> Seq<char> {
    "no server transport enabled (set [server].stdio or [server.http].enabled)"@
}

/// The audit path when auditing is on.
pub open spec fn audit_of(cfg: Config) -> Option<Seq<char>> {
    if cfg.audit.enabled {
        Some(cfg.audit.path@)
    } else {
        None
    }
}

/// `p` is what `serve` runs for `cfg`: the enabled transports, the audit log, and the
/// dashboard with its calls ring, its discovery capture (only with `trace_queries`) and the
/// logs its history views replay.
pub open spec fn plans(cfg: Config, p: ServePlan) -> bool {
            &&& p.stdio == cfg.server.stdio
            &&& match p.http {
                Some((bind, path)) => http_enabled(cfg) && bind@ == cfg.server.http->0.bind@
                    && path@ == cfg.server.http->0.path@,
                None => !http_enabled(cfg),
            }
            &&& opt_view(p.audit_path) == audit_of(cfg)
            &&& p.payload_max_bytes == cfg.dashboard.payload_max_bytes
            &&& match p.dashboard {
                None => !cfg.dashboard.enabled,
                Some(d) => {
                    &&& cfg.dashboard.enabled
                    &&& d.bind@ == cfg.dashboard.bind@
                    &&& d.call_buffer == cfg.dashboard.call_buffer
                    &&& match d.traces {
                        None => !cfg.dashboard.trace_queries,
                        Some((cap, path)) => cfg.dashboard.trace_queries && cap == cfg.dashboard.trace_buffer
                            && opt_view(path) == opt_view(cfg.dashboard.trace_path),
                    }
                    &&& opt_view(d.discovery_path) == opt_view(cfg.dashboard.trace_path)
                    &&& opt_view(d.audit_path) == audit_of(cfg)
                },
            }
}

/// What `serve` runs: refused when neither stdio nor an enabled HTTP server is configured;
/// otherwise the enabled transports, the audit log, and the dashboard with its calls ring, its
/// discovery capture (only with `trace_queries`) and the logs its history views replay.
pub fn serve_plan(cfg: &Config) -> (r: Result<ServePlan, String>)
    ensures
        !cfg.server.stdio && !http_enabled(*cfg) ==> (r matches Err(m) && m@ == no_transport_message()),
        cfg.server.stdio || http_enabled(*cfg) ==> (r matches Ok(p) && plans(*cfg, p)),
{
    let http = match &cfg.server.http {
        Some(h) => {
            if h.enabled {
                Some((h.bind.clone(), h.path.clone()))
            } else {
                None
            }
        },
        None => None,
    };
    if !cfg.server.stdio && http.is_none() {
        return Err(string_of("no server transport enabled (set [server].stdio or [server.http].enabled)"));
    }
    let audit_path = if cfg.audit.enabled {
        Some(cfg.audit.path.clone())
    } else {
        None
    };
    let d = &cfg.dashboard;
    let dashboard = if d.enabled {
        let traces = if d.trace_queries {
            Some((d.trace_buffer, clone_opt_string(&d.trace_path)))
        } else {
            None
        };
        Some(DashboardPlan {
            bind: d.bind.clone(),
            call_buffer: d.call_buffer,
            traces,
            discovery_path: clone_opt_string(&d.trace_path),
            audit_path: clone_opt_string(&audit_path),
        })
    } else {
        None
    };
    Ok(ServePlan { stdio: cfg.server.stdio, http, audit_path, payload_max_bytes: d.payload_max_bytes, dashboard })
}

/// Why an API key read from env var `env` (`None` when unset) is refused, if it is.
pub open spec fn api_key_problem(name: Seq<char>, env: Seq<char>, value: Option<Seq<char>>) -> Option<Seq<char>> {
    match value {
        None => Some("api_key "@ + debug_quoted(name) + ": env "@ + debug_quoted(env) + " is not set"@),
        Some(v) => if is_blank(v) {
            Some("api_key "@ + debug_quoted(name) + ": env "@ + debug_quoted(env) + " is set but empty"@)
        } else {
            None
        },
    }
}

/// Why the admin token read from env var `env` (`None` when unset) is refused, if it is.
pub open spec fn admin_token_problem(env: Seq<char>, value: Option<Seq<char>>) -> Option<Seq<char>> {
    match value {
        None => Some("[dashboard].admin_token_env: env "@ + debug_quoted(env) + " is not set"@),
        Some(v) => if is_blank(v) {
            Some("[dashboard].admin_token_env: env "@ + debug_quoted(env) + " is set but empty"@)
        } else {
            None
        },
    }
}

/// The first problem of a run of checks, in order.
pub open spec fn first_problem(ps: Seq<Option<Seq<char>>>) -> Option<Seq<char>>
    decreases ps.len(),
{
    if ps.len() == 0 {
        None
    } else if ps[0] is Some {
        ps[0]
    } else {
        first_problem(ps.drop_first())
    }
}

/// The API keys an enabled HTTP server names (none otherwise).
pub open spec fn api_keys_of(cfg: Config) -> Seq<crate::config::ApiKeyConfig> {
    if http_enabled(cfg) {
        cfg.server.http->0.api_keys@
    } else {
        Seq::empty()
    }
}

/// The env var of the admin token that `serve` must read, when there is one.
pub open spec fn admin_env_of(cfg: Config) -> Option<Seq<char>> {
    if cfg.dashboard.enabled {
        opt_view(cfg.dashboard.admin_token_env)
    } else {
        None
    }
}

/// The checks `serve` makes on the environment before it connects, opens or binds anything,
/// in their order: each API key (given the values read for them), the admin token, then
/// each env var of the HTTP upstreams (given whether each is set).
pub open spec fn secret_checks(cfg: Config, api_values: Seq<Option<Seq<char>>>, admin_value: Option<Seq<char>>, env_set: Seq<bool>) -> Seq<Option<Seq<char>>> {
    let keys = api_keys_of(cfg);
    let refs = upstream_env_refs(cfg.upstreams@);
    Seq::new(keys.len(), |i: int| api_key_problem(keys[i].name@, keys[i].env@, api_values[i])).push(
        match admin_env_of(cfg) {
            Some(e) => admin_token_problem(e, admin_value),
            None => None,
        },
    ) + Seq::new(refs.len(), |i: int| if env_set[i] {
        None
    } else {
        Some(missing_env_message(refs[i].0, refs[i].1, refs[i].2))
    })
}

/// The secrets `serve` starts with.
pub struct Secrets {
    /// The value of each API key, in configuration order.
    pub api_keys: Vec<String>,
    /// The dashboard admin token, when one is configured.
    pub admin_token: Option<String>,
}

proof fn lemma_first_problem_at(ps: Seq<Option<Seq<char>>>, i: int)
    requires
        0 <= i < ps.len(),
        ps[i] is Some,
        forall|j: int| 0 <= j < i ==> ps[j] is None,
    ensures
        first_problem(ps) == ps[i],
    decreases i,
{
    if i > 0 {
        lemma_first_problem_at(ps.drop_first(), i - 1);
    }
}

proof fn lemma_first_problem_none(ps: Seq<Option<Seq<char>>>)
    requires
        forall|j: int| 0 <= j < ps.len() ==> ps[j] is None,
    ensures
        first_problem(ps) is None,
    decreases ps.len(),
{
    if ps.len() > 0 {
        lemma_first_problem_none(ps.drop_first());
    }
}

/// How `serve` starts, before any outside work: refused when no transport is on; otherwise
/// every secret is checked first, in order (see `secret_checks`), and the first problem is
/// the answer; only when there is none does it answer what to run and the secrets to run it
/// with. `api_values` holds what was read for each API key of `api_key_refs`, `admin_value`
/// what was read for `admin_token_ref`, and `env_set` whether each variable of `env_refs` is set.
pub fn start_serve(cfg: &Config, api_values: &Vec<Option<String>>, admin_value: Option<String>, env_set: &Vec<bool>) -> (r: Result<(ServePlan, Secrets), String>)
    requires
        api_values@.len() == api_keys_of(*cfg).len(),
        env_set@.len() == upstream_env_refs(cfg.upstreams@).len(),
    ensures
        !cfg.server.stdio && !http_enabled(*cfg) ==> (r matches Err(m) && m@ == no_transport_message()),
        cfg.server.stdio || http_enabled(*cfg) ==> match first_problem(
            secret_checks(*cfg, api_values@.map_values(|v: Option<String>| opt_view(v)), opt_view(admin_value), env_set@),
        ) {
            Some(m) => r matches Err(e) && e@ == m,
            None => r matches Ok((p, sec)) && plans(*cfg, p)
                && sec.api_keys@.len() == api_values@.len()
                && (forall|i: int| 0 <= i < api_values@.len() ==> api_values@[i] == Some(#[trigger] sec.api_keys@[i]))
                && sec.admin_token == (if admin_env_of(*cfg) is Some { admin_value } else { None }),
        },
{
    let plan = match serve_plan(cfg) {
        Err(m) => return Err(m),
        Ok(p) => p,
    };
    let ghost checks = secret_checks(*cfg, api_values@.map_values(|v: Option<String>| opt_view(v)), opt_view(admin_value), env_set@);
    let ghost keys = api_keys_of(*cfg);
    let refs = api_key_refs(cfg);
    let mut api_keys: Vec<String> = Vec::new();
    let mut i: usize = 0;
    while i < refs.len()
        invariant
            refs@.len() == keys.len() == api_values@.len(),
            forall|k: int| 0 <= k < refs@.len() ==> (#[trigger] refs@[k]).0@ == keys[k].name@ && refs@[k].1@ == keys[k].env@,
            checks == secret_checks(*cfg, api_values@.map_values(|v: Option<String>| opt_view(v)), opt_view(admin_value), env_set@),
            keys == api_keys_of(*cfg),
            i <= refs@.len(),
            api_keys@.len() == i,
            forall|k: int| 0 <= k < i ==> api_values@[k] == Some(#[trigger] api_keys@[k]),
            forall|k: int| 0 <= k < i ==> (#[trigger] checks[k]) is None,
        decreases refs@.len() - i,
    {
        let v = clone_opt_string(&api_values[i]);
        proof {
            assert(checks[i as int] == api_key_problem(keys[i as int].name@, keys[i as int].env@, opt_view(api_values@[i as int])));
        }
        match api_key_secret(refs[i].0.as_str(), refs[i].1.as_str(), v) {
            Err(m) => {
                proof {
                    lemma_first_problem_at(checks, i as int);
                }
                return Err(m);
            },
            Ok(s) => {
                api_keys.push(s);
            },
        }
        i = i + 1;
    }
    let n = refs.len();
    let admin_ref = admin_token_ref(cfg);
    let admin_token = match admin_ref {
        None => None,
        Some(e) => match admin_token_secret(e.as_str(), admin_value) {
            Err(m) => {
                proof {
                    lemma_first_problem_at(checks, n as int);
                }
                return Err(m);
            },
            Ok(t) => Some(t),
        },
    };
    proof {
        assert(checks[n as int] is None);
    }
    let er = env_refs(cfg);
    let mut k: usize = 0;
    while k < env_set.len()
        invariant
            er@.map_values(|e: EnvRef| env_ref_view(e)) == upstream_env_refs(cfg.upstreams@),
            env_set@.len() == upstream_env_refs(cfg.upstreams@).len(),
            checks == secret_checks(*cfg, api_values@.map_values(|v: Option<String>| opt_view(v)), opt_view(admin_value), env_set@),
            checks.len() == n + 1 + env_set@.len(),
            cfg.server.stdio || http_enabled(*cfg),
            k <= env_set@.len(),
            forall|j: int| 0 <= j < n + 1 + k ==> (#[trigger] checks[j]) is None,
        decreases env_set@.len() - k,
    {
        proof {
            assert(er@.map_values(|e: EnvRef| env_ref_view(e))[k as int] == env_ref_view(er@[k as int]));
        }
        if !env_set[k] {
            let m = er[k].missing_message();
            proof {
                lemma_first_problem_at(checks, n + 1 + k);
            }
            return Err(m);
        }
        k = k + 1;
    }
    proof {
        lemma_first_problem_none(checks);
    }
    Ok((plan, Secrets { api_keys, admin_token }))
}

/// The retrieval backend `serve` builds for the configured strategy.
pub enum BackendPlan {
    /// None: the lexical strategy needs no provider.
    Lexical,
    /// An embedding provider, used behind the embedding cache.
    Embedder { base_url: String, model: String, api_key: String, dim: Option<usize>, timeout_ms: Option<u64> },
    /// A chat model, for the subagent reranker.
    Chat { base_url: String, model: String, api_key: String, timeout_ms: Option<u64>, candidates: Option<usize> },
}

/// The strategy uses embeddings.
pub open spec fn embeds(strategy: Seq<char>) -> bool {
    strategy == "vector"@ || strategy == "hybrid"@
}

/// The env var holding the retrieval provider's API key, when the strategy needs one and its
/// section names it.
pub open spec fn backend_key_env_of(r: RetrievalConfig) -> Option<Seq<char>> {
    if embeds(r.strategy@) {
        match r.vector {
            Some(v) => Some(v.api_key_env@),
            None => None,
        }
    } else if r.strategy@ == "subagent"@ {
        match r.subagent {
            Some(s) => Some(s.api_key_env@),
            None => None,
        }
    } else {
        None
    }
}

/// The env var to read for the retrieval provider's API key (see `backend_key_env_of`).
pub fn backend_key_env(r: &RetrievalConfig) -> (e: Option<String>)
    ensures
        opt_view(e) == backend_key_env_of(*r),
{
    if str_eq(r.strategy.as_str(), "vector") || str_eq(r.strategy.as_str(), "hybrid") {
        match &r.vector {
            Some(v) => Some(v.api_key_env.clone()),
            None => None,
        }
    } else if str_eq(r.strategy.as_str(), "subagent") {
        match &r.subagent {
            Some(s) => Some(s.api_key_env.clone()),
            None => None,
        }
    } else {
        None
    }
}

/// The backend for retrieval settings `r`, given the API key read from `backend_key_env`
/// (`None` when it is not set): the embedding strategies need `[retrieval.vector]` and its
/// key, the subagent strategy needs `[retrieval.subagent]` and its key, and the lexical one
/// needs nothing. Each refusal says which section or variable is missing.
pub fn backend_plan(r: &RetrievalConfig, key: Option<String>) -> (b: Result<BackendPlan, String>)
    ensures
        embeds(r.strategy@) ==> match r.vector {
            None => b matches Err(m) && m@ == "strategy="@ + debug_quoted(r.strategy@) + " requires [retrieval.vector]"@,
            Some(v) => match key {
                None => b matches Err(m) && m@ == "[retrieval.vector]: env "@ + debug_quoted(v.api_key_env@) + " is not set"@,
                Some(k) => b matches Ok(BackendPlan::Embedder { base_url, model, api_key, dim, timeout_ms })
                    && base_url == v.base_url && model == v.model && api_key == k && dim == v.dim
                    && timeout_ms == v.timeout_ms,
            },
        },
        r.strategy@ == "subagent"@ ==> match r.subagent {
            None => b matches Err(m) && m@ == "strategy=\"subagent\" requires [retrieval.subagent]"@,
            Some(s) => match key {
                None => b matches Err(m) && m@ == "[retrieval.subagent]: env "@ + debug_quoted(s.api_key_env@) + " is not set"@,
                Some(k) => b matches Ok(BackendPlan::Chat { base_url, model, api_key, timeout_ms, candidates })
                    && base_url == s.base_url && model == s.model && api_key == k && timeout_ms == s.timeout_ms
                    && candidates == s.candidates,
            },
        },
        !embeds(r.strategy@) && r.strategy@ != "subagent"@ ==> b matches Ok(BackendPlan::Lexical),
{
    proof {
        reveal_strlit("vector");
        reveal_strlit("hybrid");
        reveal_strlit("subagent");
        assert("subagent"@.len() == 8 && "vector"@.len() == 6 && "hybrid"@.len() == 6);
    }
    if str_eq(r.strategy.as_str(), "vector") || str_eq(r.strategy.as_str(), "hybrid") {
        match &r.vector {
            None => {
                let mut m = string_of("strategy=");
                push_str(&mut m, debug_quote(r.strategy.as_str()).as_str());
                push_str(&mut m, " requires [retrieval.vector]");
                Err(m)
            },
            Some(v) => match key {
                None => {
                    let mut m = string_of("[retrieval.vector]: env ");
                    push_str(&mut m, debug_quote(v.api_key_env.as_str()).as_str());
                    push_str(&mut m, " is not set");
                    Err(m)
                },
                Some(k) => Ok(BackendPlan::Embedder {
                    base_url: v.base_url.clone(),
                    model: v.model.clone(),
                    api_key: k,
                    dim: v.dim,
                    timeout_ms: v.timeout_ms,
                }),
            },
        }
    } else if str_eq(r.strategy.as_str(), "subagent") {
        match &r.subagent {
            None => Err(string_of("strategy=\"subagent\" requires [retrieval.subagent]")),
            Some(s) => match key {
                None => {
                    let mut m = string_of("[retrieval.subagent]: env ");
                    push_str(&mut m, debug_quote(s.api_key_env.as_str()).as_str());
                    push_str(&mut m, " is not set");
                    Err(m)
                },
                Some(k) => Ok(BackendPlan::Chat {
                    base_url: s.base_url.clone(),
                    model: s.model.clone(),
                    api_key: k,
                    timeout_ms: s.timeout_ms,
                    candidates: s.candidates,
                }),
            },
        }
    } else {
        Ok(BackendPlan::Lexical)
    }
}

} // verus!
