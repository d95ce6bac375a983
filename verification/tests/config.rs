use mcpgw::config::{
    default_call_timeout_ms, default_vector_base_url, ApiKeyConfig, Config, ConfigError, HttpConfig,
    SubagentConfig, UpstreamConfig, UpstreamTransport, VectorConfig,
};

fn invalid(cfg: &Config) -> String {
    match cfg.validate() {
        Err(ConfigError::Invalid(m)) => m,
        other => panic!("expected Invalid, got {other:?}"),
    }
}

fn stdio(name: &str) -> UpstreamConfig {
    UpstreamConfig {
        name: name.into(),
        call_timeout_ms: default_call_timeout_ms(),
        transport: UpstreamTransport::Stdio { command: "x".into(), args: vec![], env_passthrough: vec![] },
    }
}

fn vector() -> VectorConfig {
    VectorConfig {
        base_url: default_vector_base_url(),
        model: "m".into(),
        api_key_env: "K".into(),
        dim: None,
        timeout_ms: None,
        batch_size: None,
    }
}

#[test]
fn empty_config_uses_defaults() {
    let cfg = Config::default_from_empty();
    assert_eq!(cfg.retrieval.strategy, "bm25");
    assert_eq!(cfg.retrieval.top_k, 8);
    assert!(cfg.upstreams.is_empty());
    assert!(cfg.server.stdio);
    assert!(cfg.server.http.is_none());
    assert!(cfg.validate().is_ok());
    let http = HttpConfig::default();
    assert_eq!(http.bind, "127.0.0.1:8970");
    assert_eq!(http.path, "/mcp");
    assert_eq!(default_vector_base_url(), "https://api.openai.com/v1");
    assert_eq!(default_call_timeout_ms(), 30_000);
}

#[test]
fn rejects_unknown_strategy_and_zero_top_k() {
    let mut cfg = Config::default_from_empty();
    cfg.retrieval.strategy = "magic".into();
    assert_eq!(
        invalid(&cfg),
        "unknown retrieval.strategy \"magic\" (expected one of [\"bm25\", \"vector\", \"hybrid\", \"subagent\"])"
    );
    let mut cfg = Config::default_from_empty();
    cfg.retrieval.top_k = 0;
    assert_eq!(invalid(&cfg), "retrieval.top_k must be > 0");
}

#[test]
fn vector_and_hybrid_require_a_non_blank_vector_section() {
    for s in ["vector", "hybrid"] {
        let mut cfg = Config::default_from_empty();
        cfg.retrieval.strategy = s.into();
        assert_eq!(invalid(&cfg), format!("strategy=\"{s}\" requires a [retrieval.vector] section"));
        cfg.retrieval.vector = Some(vector());
        assert!(cfg.validate().is_ok());
        let mut v = vector();
        v.model = "  ".into();
        cfg.retrieval.vector = Some(v);
        assert_eq!(invalid(&cfg), "[retrieval.vector] base_url/model/api_key_env must be non-empty");
    }
}

#[test]
fn upstream_names_must_be_non_blank_unique_and_free_of_separator() {
    let mut cfg = Config::default_from_empty();
    cfg.upstreams = vec![stdio("   ")];
    assert_eq!(invalid(&cfg), "upstream.name must not be empty or blank");
    cfg.upstreams = vec![stdio("a__b")];
    assert_eq!(invalid(&cfg), "upstream.name \"a__b\" must not contain \"__\" (namespace separator)");
    cfg.upstreams = vec![stdio("a"), stdio("a")];
    assert_eq!(invalid(&cfg), "duplicate upstream.name \"a\"");
    cfg.upstreams = vec![stdio("a"), stdio("b")];
    assert!(cfg.validate().is_ok());
}

#[test]
fn http_upstream_url_must_not_be_blank() {
    let mut cfg = Config::default_from_empty();
    cfg.upstreams = vec![UpstreamConfig {
        name: "r".into(),
        call_timeout_ms: 1,
        transport: UpstreamTransport::Http { url: "  ".into(), bearer_env: None, headers: vec![] },
    }];
    assert_eq!(invalid(&cfg), "upstream \"r\": http url must not be empty");
    cfg.server.http = Some(HttpConfig {
        api_keys: vec![ApiKeyConfig { name: "k".into(), env: "E".into() }],
        ..HttpConfig::default()
    });
    assert_eq!(invalid(&cfg), "upstream \"r\": http url must not be empty");
}

#[test]
fn first_problem_wins() {
    let mut cfg = Config::default_from_empty();
    cfg.upstreams = vec![stdio("ok"), stdio(""), stdio("x__y")];
    assert_eq!(invalid(&cfg), "upstream.name must not be empty or blank");
}

// Configurations as a TOML document would describe them, written as values and validated.

#[test]
fn rejects_unknown_strategy() {
    let mut cfg = Config::default_from_empty();
    cfg.retrieval.strategy = "magic".into();
    assert!(matches!(cfg.validate(), Err(ConfigError::Invalid(_))));
}

#[test]
fn rejects_zero_top_k() {
    let mut cfg = Config::default_from_empty();
    cfg.retrieval.top_k = 0;
    assert!(matches!(cfg.validate(), Err(ConfigError::Invalid(_))));
}

#[test]
fn rejects_upstream_name_with_double_underscore() {
    let mut cfg = Config::default_from_empty();
    cfg.upstreams = vec![stdio("a__b")];
    assert!(matches!(cfg.validate(), Err(ConfigError::Invalid(_))));
}

#[test]
fn rejects_duplicate_upstream_names() {
    let mut cfg = Config::default_from_empty();
    cfg.upstreams = vec![stdio("a"), stdio("a")];
    assert!(matches!(cfg.validate(), Err(ConfigError::Invalid(_))));
}

#[test]
fn rejects_blank_upstream_name() {
    let mut cfg = Config::default_from_empty();
    cfg.upstreams = vec![stdio("   ")];
    assert!(matches!(cfg.validate(), Err(ConfigError::Invalid(_))));
}

#[test]
fn vector_strategy_requires_vector_section() {
    let mut cfg = Config::default_from_empty();
    cfg.retrieval.strategy = "vector".into();
    assert!(matches!(cfg.validate(), Err(ConfigError::Invalid(_))));
    cfg.retrieval.vector = Some(vector());
    assert!(cfg.validate().is_ok());
}

#[test]
fn hybrid_strategy_requires_vector_section() {
    let mut cfg = Config::default_from_empty();
    cfg.retrieval.strategy = "hybrid".into();
    assert!(matches!(cfg.validate(), Err(ConfigError::Invalid(_))));
    cfg.retrieval.vector = Some(vector());
    assert!(cfg.validate().is_ok());
}

#[test]
fn upstreams_default_to_empty() {
    assert!(Config::default_from_empty().upstreams.is_empty());
}

fn subagent(model: &str, key: &str, candidates: Option<usize>) -> SubagentConfig {
    SubagentConfig {
        base_url: default_vector_base_url(),
        model: model.into(),
        api_key_env: key.into(),
        timeout_ms: None,
        candidates,
    }
}

#[test]
fn subagent_strategy_with_its_section_is_valid() {
    // [retrieval] strategy="subagent" with [retrieval.subagent] model, api_key_env, candidates=15.
    let mut cfg = Config::default_from_empty();
    cfg.retrieval.strategy = "subagent".into();
    cfg.retrieval.subagent = Some(subagent("m", "MCPGW_M2T5_KEY", Some(15)));
    assert!(cfg.validate().is_ok());
    assert_eq!(cfg.retrieval.subagent.as_ref().unwrap().candidates, Some(15));
}

#[test]
fn subagent_strategy_requires_a_non_blank_subagent_section() {
    let mut cfg = Config::default_from_empty();
    cfg.retrieval.strategy = "subagent".into();
    assert_eq!(invalid(&cfg), "strategy=\"subagent\" requires a [retrieval.subagent] section");
    cfg.retrieval.subagent = Some(subagent(" ", "K", None));
    assert_eq!(invalid(&cfg), "[retrieval.subagent] base_url/model/api_key_env must be non-empty");
}
