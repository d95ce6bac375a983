//! The read-only About view: the non-sensitive effective settings and limits, assembled at
//! start-up from the configuration, plus the build version. Its fields cannot hold a key, a
//! token, an env var name or value.

use vstd::prelude::*;
use crate::config::{Config, UpstreamConfig, UpstreamTransport};
use crate::text::string_of;
use crate::observe::{clone_opt_string, opt_view};

verus! {

#[derive(Debug, Clone)]
pub struct AboutInfo {
    pub version: VersionInfo,
    pub retrieval: RetrievalInfo,
    pub dashboard: DashboardInfo,
    pub audit: AuditInfo,
    pub server: ServerInfo,
    pub upstreams: Vec<UpstreamConfigInfo>,
}

#[derive(Debug, Clone)]
pub struct VersionInfo {
    pub version: String,
    pub git_sha: String,
    pub build_time: String,
}

#[derive(Debug, Clone)]
pub struct RetrievalInfo {
    pub strategy: String,
    pub top_k: usize,
}

#[derive(Debug, Clone)]
pub struct DashboardInfo {
    pub call_buffer: usize,
    pub payload_max_bytes: usize,
    pub trace_queries: bool,
    pub trace_buffer: usize,
    pub trace_path: Option<String>,
    /// Whether an admin token env var is configured (the admin write API is on); never the
    /// name or the value.
    pub admin_enabled: bool,
}

#[derive(Debug, Clone)]
pub struct AuditInfo {
    pub enabled: bool,
    pub path: Option<String>,
}

#[derive(Debug, Clone)]
pub struct ServerInfo {
    pub stdio: bool,
    pub http_enabled: bool,
    pub http_bind: Option<String>,
    pub http_path: Option<String>,
    pub http_auth: bool,
}

#[derive(Debug, Clone)]
pub struct UpstreamConfigInfo {
    pub name: String,
    pub transport: String,
    pub call_timeout_ms: u64,
}

/// The short label of a transport.
pub open spec fn transport_name(t: UpstreamTransport) -> Seq<char> {
    match t {
        UpstreamTransport::Stdio { .. } => "stdio"@,
        UpstreamTransport::Http { .. } => "http"@,
    }
}

/// The short label of a transport.
pub fn transport_label(t: &UpstreamTransport) -> (r: &'static str)
    ensures
        r@ == transport_name(*t),
{
    match t {
        UpstreamTransport::Stdio { .. } => "stdio",
        UpstreamTransport::Http { .. } => "http",
    }
}

/// `info` shows upstream `u`'s name, transport label and timeout.
pub open spec fn upstream_info(info: UpstreamConfigInfo, u: UpstreamConfig) -> bool {
    &&& info.name@ == u.name@
    &&& info.transport@ == transport_name(u.transport)
    &&& info.call_timeout_ms == u.call_timeout_ms
}

/// The HTTP server counts as enabled only when its section is present and switched on.
pub open spec fn http_on(cfg: Config) -> bool {
    cfg.server.http is Some && cfg.server.http->0.enabled
}

impl AboutInfo {
    /// Assembles the About view from the effective configuration and the build version.
    pub fn from_config(cfg: &Config, version: VersionInfo) -> (a: AboutInfo)
        ensures
            a.version == version,
            a.retrieval.strategy@ == cfg.retrieval.strategy@,
            a.retrieval.top_k == cfg.retrieval.top_k,
            a.dashboard.call_buffer == cfg.dashboard.call_buffer,
            a.dashboard.payload_max_bytes == cfg.dashboard.payload_max_bytes,
            a.dashboard.trace_queries == cfg.dashboard.trace_queries,
            a.dashboard.trace_buffer == cfg.dashboard.trace_buffer,
            opt_view(a.dashboard.trace_path) == opt_view(cfg.dashboard.trace_path),
            a.dashboard.admin_enabled == cfg.dashboard.admin_token_env is Some,
            a.audit.enabled == cfg.audit.enabled,
            opt_view(a.audit.path) == (if cfg.audit.enabled {
                Some(cfg.audit.path@)
            } else {
                None
            }),
            a.server.stdio == cfg.server.stdio,
            a.server.http_enabled == http_on(*cfg),
            opt_view(a.server.http_bind) == (if http_on(*cfg) {
                Some(cfg.server.http->0.bind@)
            } else {
                None
            }),
            opt_view(a.server.http_path) == (if http_on(*cfg) {
                Some(cfg.server.http->0.path@)
            } else {
                None
            }),
            a.server.http_auth == (http_on(*cfg) && cfg.server.http->0.api_keys@.len() > 0),
            a.upstreams@.len() == cfg.upstreams@.len(),
            forall|i: int|
                0 <= i < cfg.upstreams@.len() ==> upstream_info(
                    #[trigger] a.upstreams@[i],
                    cfg.upstreams@[i],
                ),
    {
        let (http_enabled, http_bind, http_path, http_auth) = match &cfg.server.http {
            Some(h) => {
                if h.enabled {
                    (true, Some(h.bind.clone()), Some(h.path.clone()), h.api_keys.len() > 0)
                } else {
                    (false, None, None, false)
                }
            },
            None => (false, None, None, false),
        };
        let mut upstreams: Vec<UpstreamConfigInfo> = Vec::new();
        let mut i: usize = 0;
        while i < cfg.upstreams.len()
            invariant
                i <= cfg.upstreams@.len(),
                upstreams@.len() == i,
                forall|k: int| 0 <= k < i ==> upstream_info(#[trigger] upstreams@[k], cfg.upstreams@[k]),
            decreases cfg.upstreams@.len() - i,
        {
            let u = &cfg.upstreams[i];
            upstreams.push(
                UpstreamConfigInfo {
                    name: u.name.clone(),
                    transport: string_of(transport_label(&u.transport)),
                    call_timeout_ms: u.call_timeout_ms,
                },
            );
            i = i + 1;
        }
        AboutInfo {
            version,
            retrieval: RetrievalInfo {
                strategy: cfg.retrieval.strategy.clone(),
                top_k: cfg.retrieval.top_k,
            },
            dashboard: DashboardInfo {
                call_buffer: cfg.dashboard.call_buffer,
                payload_max_bytes: cfg.dashboard.payload_max_bytes,
                trace_queries: cfg.dashboard.trace_queries,
                trace_buffer: cfg.dashboard.trace_buffer,
                trace_path: clone_opt_string(&cfg.dashboard.trace_path),
                admin_enabled: cfg.dashboard.admin_token_env.is_some(),
            },
            audit: AuditInfo {
                enabled: cfg.audit.enabled,
                path: if cfg.audit.enabled {
                    Some(cfg.audit.path.clone())
                } else {
                    None
                },
            },
            server: ServerInfo {
                stdio: cfg.server.stdio,
                http_enabled,
                http_bind,
                http_path,
                http_auth,
            },
            upstreams,
        }
    }
}

} // verus!
