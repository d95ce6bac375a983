//! The gateway configuration as plain data, its defaults, and its validation. Reading the
//! TOML text into these types is serde's work and happens at the edge.

use vstd::prelude::*;
use crate::text::{is_blank, is_substring, str_is_blank, str_contains, str_eq, string_of, push_str};

verus! {

/// Top-level configuration.
#[derive(Debug, Clone, PartialEq)]
pub struct Config {
    pub retrieval: RetrievalConfig,
    pub upstreams: Vec<UpstreamConfig>,
    pub server: ServerConfig,
    pub dashboard: DashboardConfig,
    pub audit: AuditConfig,
}

/// `[retrieval]`.
#[derive(Debug, Clone, PartialEq)]
pub struct RetrievalConfig {
    /// `"bm25"`, `"vector"`, `"hybrid"` or `"subagent"`.
    pub strategy: String,
    /// Number of tools `search_tools` returns.
    pub top_k: usize,
    /// `[retrieval.vector]`; required by the `"vector"` and `"hybrid"` strategies.
    pub vector: Option<VectorConfig>,
    /// `[retrieval.subagent]`; required by the `"subagent"` strategy.
    pub subagent: Option<SubagentConfig>,
}

/// `[retrieval.subagent]`: an OpenAI-compatible chat model that reranks the lexical shortlist.
/// Secrets by env name only.
#[derive(Debug, Clone, PartialEq)]
pub struct SubagentConfig {
    pub base_url: String,
    pub model: String,
    pub api_key_env: String,
    pub timeout_ms: Option<u64>,
    /// Size of the shortlist handed to the model (the default when unset).
    pub candidates: Option<usize>,
}

/// `[retrieval.vector]`: an OpenAI-compatible embedding provider. Secrets by env name only.
#[derive(Debug, Clone, PartialEq)]
pub struct VectorConfig {
    pub base_url: String,
    pub model: String,
    pub api_key_env: String,
    pub dim: Option<usize>,
    pub timeout_ms: Option<u64>,
    pub batch_size: Option<usize>,
}

/// `[server]`: which downstream transports to serve.
#[derive(Debug, Clone, PartialEq)]
pub struct ServerConfig {
    pub stdio: bool,
    pub http: Option<HttpConfig>,
}

/// `[server.http]`: the Streamable HTTP server.
#[derive(Debug, Clone, PartialEq)]
pub struct HttpConfig {
    pub enabled: bool,
    pub bind: String,
    pub path: String,
    pub api_keys: Vec<ApiKeyConfig>,
}

/// One accepted API key: a label and the env var holding the secret.
#[derive(Debug, Clone, PartialEq)]
pub struct ApiKeyConfig {
    pub name: String,
    pub env: String,
}

/// One upstream MCP server.
#[derive(Debug, Clone, PartialEq)]
pub struct UpstreamConfig {
    /// Namespace prefix of this server's tools: non-blank, without `"__"`.
    pub name: String,
    pub call_timeout_ms: u64,
    pub transport: UpstreamTransport,
}

/// How an upstream is reached.
#[derive(Debug, Clone, PartialEq)]
pub enum UpstreamTransport {
    /// A child process speaking MCP over stdio; only the listed env vars reach it.
    Stdio { command: String, args: Vec<String>, env_passthrough: Vec<String> },
    /// A remote Streamable HTTP server. `headers` maps header names to the env vars holding
    /// their values.
    Http { url: String, bearer_env: Option<String>, headers: Vec<(String, String)> },
}

/// `[dashboard]`: the read-only web dashboard and its admin API.
#[derive(Debug, Clone, PartialEq)]
pub struct DashboardConfig {
    pub enabled: bool,
    pub bind: String,
    pub call_buffer: usize,
    pub payload_max_bytes: usize,
    pub trace_queries: bool,
    pub trace_buffer: usize,
    pub trace_path: Option<String>,
    pub admin_token_env: Option<String>,
    pub disabled_state_path: Option<String>,
}

/// `[audit]`: the metadata-only JSONL audit log.
#[derive(Debug, Clone, PartialEq)]
pub struct AuditConfig {
    pub enabled: bool,
    pub path: String,
}

/// Why a configuration was refused.
#[derive(Debug)]
pub enum ConfigError {
    /// The text is not a configuration (the TOML reader's message).
    Parse(String),
    /// The configuration breaks a rule.
    Invalid(String),
}

/// The default embedding endpoint.
pub fn default_vector_base_url() -> (r: String)
    ensures
        r@ == "https://api.openai.com/v1"@,
{
    string_of("https://api.openai.com/v1")
}

/// The default per-call timeout of an upstream, in milliseconds.
pub fn default_call_timeout_ms() -> (r: u64)
    ensures
        r == 30_000,
{
    30_000
}

impl Default for RetrievalConfig {
    fn default() -> (r: RetrievalConfig)
        ensures
            r.strategy@ == "bm25"@,
            r.top_k == 8,
            r.vector is None,
            r.subagent is None,
    {
        RetrievalConfig { strategy: string_of("bm25"), top_k: 8, vector: None, subagent: None }
    }
}

impl Default for ServerConfig {
    fn default() -> (r: ServerConfig)
        ensures
            r.stdio,
            r.http is None,
    {
        ServerConfig { stdio: true, http: None }
    }
}

impl Default for HttpConfig {
    fn default() -> (r: HttpConfig)
        ensures
            !r.enabled,
            r.bind@ == "127.0.0.1:8970"@,
            r.path@ == "/mcp"@,
            r.api_keys@.len() == 0,
    {
        HttpConfig {
            enabled: false,
            bind: string_of("127.0.0.1:8970"),
            path: string_of("/mcp"),
            api_keys: Vec::new(),
        }
    }
}

impl Default for DashboardConfig {
    fn default() -> (r: DashboardConfig)
        ensures
            !r.enabled,
            r.bind@ == "127.0.0.1:8971"@,
            r.call_buffer == 200,
            r.payload_max_bytes == 16384,
            !r.trace_queries,
            r.trace_buffer == 200,
            r.trace_path is None,
            r.admin_token_env is None,
            r.disabled_state_path is None,
    {
        DashboardConfig {
            enabled: false,
            bind: string_of("127.0.0.1:8971"),
            call_buffer: 200,
            payload_max_bytes: 16384,
            trace_queries: false,
            trace_buffer: 200,
            trace_path: None,
            admin_token_env: None,
            disabled_state_path: None,
        }
    }
}

impl Default for AuditConfig {
    fn default() -> (r: AuditConfig)
        ensures
            !r.enabled,
            r.path@ == "mcpgw-audit.jsonl"@,
    {
        AuditConfig { enabled: false, path: string_of("mcpgw-audit.jsonl") }
    }
}

/// What `format!("{:?}", s)` writes for a string: the quoted, escaped Debug form.
pub uninterp spec fn debug_quoted(s: Seq<char>) -> Seq<char>;

/// The Debug form of a string (`format!("{:?}", s)`): quoted, with std's escapes.
#[verifier::external_body]
pub(crate) fn debug_quote(s: &str) -> (r: String)
    ensures
        r@ == debug_quoted(s@),
{
    format!("{:?}", s)
}

/// The strategy names this gateway knows.
pub open spec fn known_strategy(s: Seq<char>) -> bool {
    s == "bm25"@ || s == "vector"@ || s == "hybrid"@ || s == "subagent"@
}

/// The strategies that need an embedding provider.
pub open spec fn needs_vector(s: Seq<char>) -> bool {
    s == "vector"@ || s == "hybrid"@
}

/// The first rule upstream `i` breaks, if any, given that the ones before it broke none.
pub open spec fn upstream_problem(ups: Seq<UpstreamConfig>, i: int) -> Option<Seq<char>> {
    let u = ups[i];
    if is_blank(u.name@) {
        Some("upstream.name must not be empty or blank"@)
    } else if is_substring(u.name@, "__"@) {
        Some("upstream.name "@ + debug_quoted(u.name@) + " must not contain \"__\" (namespace separator)"@)
    } else if exists|j: int| 0 <= j < i && (#[trigger] ups[j]).name@ == u.name@ {
        Some("duplicate upstream.name "@ + debug_quoted(u.name@))
    } else {
        match u.transport {
            UpstreamTransport::Http { url, .. } => if is_blank(url@) {
                Some("upstream "@ + debug_quoted(u.name@) + ": http url must not be empty"@)
            } else {
                None
            },
            UpstreamTransport::Stdio { .. } => None,
        }
    }
}

/// The first problem among the upstreams from position `i` on.
pub open spec fn first_upstream_problem(ups: Seq<UpstreamConfig>, i: int) -> Option<Seq<char>>
    decreases ups.len() - i,
{
    if i >= ups.len() || i < 0 {
        None
    } else {
        match upstream_problem(ups, i) {
            Some(m) => Some(m),
            None => first_upstream_problem(ups, i + 1),
        }
    }
}

/// The message of the first rule the configuration breaks, checked in order: a known
/// strategy, a positive `top_k`, a non-blank vector section where the strategy needs one,
/// then each upstream in turn; `None` when it breaks none.
pub open spec fn config_problem(cfg: Config) -> Option<Seq<char>> {
    let r = cfg.retrieval;
    if !known_strategy(r.strategy@) {
        Some("unknown retrieval.strategy "@ + debug_quoted(r.strategy@)
            + " (expected one of [\"bm25\", \"vector\", \"hybrid\", \"subagent\"])"@)
    } else if r.top_k == 0 {
        Some("retrieval.top_k must be > 0"@)
    } else if needs_vector(r.strategy@) && r.vector is None {
        Some("strategy="@ + debug_quoted(r.strategy@) + " requires a [retrieval.vector] section"@)
    } else if needs_vector(r.strategy@) && (is_blank(r.vector->0.base_url@) || is_blank(
        r.vector->0.model@,
    ) || is_blank(r.vector->0.api_key_env@)) {
        Some("[retrieval.vector] base_url/model/api_key_env must be non-empty"@)
    } else if r.strategy@ == "subagent"@ && r.subagent is None {
        Some("strategy=\"subagent\" requires a [retrieval.subagent] section"@)
    } else if r.strategy@ == "subagent"@ && (is_blank(r.subagent->0.base_url@) || is_blank(
        r.subagent->0.model@,
    ) || is_blank(r.subagent->0.api_key_env@)) {
        Some("[retrieval.subagent] base_url/model/api_key_env must be non-empty"@)
    } else {
        first_upstream_problem(cfg.upstreams@, 0)
    }
}

/// `a + b + c` as a fresh string.
fn concat3(a: &str, b: &str, c: &str) -> (r: String)
    ensures
        r@ == a@ + b@ + c@,
{
    let mut s = string_of(a);
    push_str(&mut s, b);
    push_str(&mut s, c);
    s
}

/// Is some upstream before position `i` named `name`.
fn named_before(ups: &Vec<UpstreamConfig>, i: usize, name: &str) -> (r: bool)
    requires
        i <= ups@.len(),
    ensures
        r == exists|j: int| 0 <= j < i && (#[trigger] ups@[j]).name@ == name@,
{
    let mut j: usize = 0;
    while j < i
        invariant
            j <= i <= ups@.len(),
            forall|k: int| 0 <= k < j ==> (#[trigger] ups@[k]).name@ != name@,
        decreases i - j,
    {
        if str_eq(ups[j].name.as_str(), name) {
            return true;
        }
        j = j + 1;
    }
    false
}

/// The problem of upstream `i`, as `upstream_problem` states it.
fn check_upstream(ups: &Vec<UpstreamConfig>, i: usize) -> (r: Option<String>)
    requires
        i < ups@.len(),
    ensures
        match upstream_problem(ups@, i as int) {
            Some(m) => r is Some && r->0@ == m,
            None => r is None,
        },
{
    let u = &ups[i];
    let name = u.name.as_str();
    if str_is_blank(name) {
        return Some(string_of("upstream.name must not be empty or blank"));
    }
    if str_contains(name, "__") {
        let q = debug_quote(name);
        return Some(concat3("upstream.name ", q.as_str(), " must not contain \"__\" (namespace separator)"));
    }
    if named_before(ups, i, name) {
        let q = debug_quote(name);
        let mut m = string_of("duplicate upstream.name ");
        push_str(&mut m, q.as_str());
        return Some(m);
    }
    match &u.transport {
        UpstreamTransport::Http { url, .. } => {
            if str_is_blank(url.as_str()) {
                let q = debug_quote(name);
                Some(concat3("upstream ", q.as_str(), ": http url must not be empty"))
            } else {
                None
            }
        },
        UpstreamTransport::Stdio { .. } => None,
    }
}

impl Config {
    /// The all-defaults configuration (what an empty document reads as).
    pub fn default_from_empty() -> (r: Config)
        ensures
            r.retrieval.strategy@ == "bm25"@,
            r.retrieval.top_k == 8,
            r.retrieval.vector is None,
            r.retrieval.subagent is None,
            r.upstreams@.len() == 0,
            r.server.stdio,
            r.server.http is None,
            r.dashboard.bind@ == "127.0.0.1:8971"@,
            !r.dashboard.enabled,
            r.dashboard.call_buffer == 200,
            r.dashboard.payload_max_bytes == 16384,
            !r.dashboard.trace_queries,
            r.dashboard.trace_buffer == 200,
            r.dashboard.trace_path is None,
            r.dashboard.admin_token_env is None,
            r.dashboard.disabled_state_path is None,
            !r.audit.enabled,
            r.audit.path@ == "mcpgw-audit.jsonl"@,
            config_problem(r) is None,
    {
        let r = Config {
            retrieval: RetrievalConfig::default(),
            upstreams: Vec::new(),
            server: ServerConfig::default(),
            dashboard: DashboardConfig::default(),
            audit: AuditConfig::default(),
        };
        proof {
            reveal_strlit("bm25");
            reveal_strlit("vector");
            reveal_strlit("hybrid");
            reveal_strlit("subagent");
            assert("bm25"@.len() != "subagent"@.len());
            assert(r.retrieval.strategy@ == "bm25"@);
            assert(known_strategy(r.retrieval.strategy@));
            assert("bm25"@.len() != "vector"@.len());
            assert("bm25"@.len() != "hybrid"@.len());
            assert(r.upstreams@.len() == 0);
            assert(first_upstream_problem(r.upstreams@, 0) is None);
        }
        r
    }

    /// Checks the rules a parsed configuration must satisfy.
    pub fn validate(&self) -> (r: Result<(), ConfigError>)
        ensures
            match config_problem(*self) {
                None => r is Ok,
                Some(m) => r matches Err(ConfigError::Invalid(s)) && s@ == m,
            },
    {
        let strategy = self.retrieval.strategy.as_str();
        let is_bm25 = str_eq(strategy, "bm25");
        let is_vector = str_eq(strategy, "vector");
        let is_hybrid = str_eq(strategy, "hybrid");
        let is_subagent = str_eq(strategy, "subagent");
        if !(is_bm25 || is_vector || is_hybrid || is_subagent) {
            let q = debug_quote(strategy);
            return Err(ConfigError::Invalid(concat3(
                "unknown retrieval.strategy ",
                q.as_str(),
                " (expected one of [\"bm25\", \"vector\", \"hybrid\", \"subagent\"])",
            )));
        }
        if self.retrieval.top_k == 0 {
            return Err(ConfigError::Invalid(string_of("retrieval.top_k must be > 0")));
        }
        if is_vector || is_hybrid {
            match &self.retrieval.vector {
                None => {
                    let q = debug_quote(strategy);
                    return Err(ConfigError::Invalid(concat3(
                        "strategy=",
                        q.as_str(),
                        " requires a [retrieval.vector] section",
                    )));
                },
                Some(v) => {
                    if str_is_blank(v.base_url.as_str()) || str_is_blank(v.model.as_str())
                        || str_is_blank(v.api_key_env.as_str()) {
                        return Err(ConfigError::Invalid(string_of(
                            "[retrieval.vector] base_url/model/api_key_env must be non-empty",
                        )));
                    }
                },
            }
        }
        if is_subagent {
            match &self.retrieval.subagent {
                None => {
                    return Err(ConfigError::Invalid(string_of(
                        "strategy=\"subagent\" requires a [retrieval.subagent] section",
                    )));
                },
                Some(a) => {
                    if str_is_blank(a.base_url.as_str()) || str_is_blank(a.model.as_str())
                        || str_is_blank(a.api_key_env.as_str()) {
                        return Err(ConfigError::Invalid(string_of(
                            "[retrieval.subagent] base_url/model/api_key_env must be non-empty",
                        )));
                    }
                },
            }
        }
        let ghost ups = self.upstreams@;
        assert(config_problem(*self) == first_upstream_problem(ups, 0));
        let mut i: usize = 0;
        while i < self.upstreams.len()
            invariant
                i <= ups.len(),
                ups == self.upstreams@,
                config_problem(*self) == first_upstream_problem(ups, 0),
                first_upstream_problem(ups, 0) == first_upstream_problem(ups, i as int),
            decreases ups.len() - i,
        {
            match check_upstream(&self.upstreams, i) {
                Some(m) => {
                    return Err(ConfigError::Invalid(m));
                },
                None => {},
            }
            i = i + 1;
        }
        Ok(())
    }
}

} // verus!
