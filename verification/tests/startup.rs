use mcpgw::config::{ApiKeyConfig, Config, HttpConfig, SubagentConfig, UpstreamConfig, UpstreamTransport, VectorConfig};
use mcpgw::startup::{
    admin_token_ref, admin_token_secret, api_key_refs, api_key_secret, backend_key_env, backend_plan, env_refs, serve_plan,
    start_serve, BackendPlan,
    unauthenticated_public_bind,
};

#[test]
fn unauthenticated_public_bind_flags_only_public_no_key() {
    // `loopback` is what the address parser reports for a socket address; `None` otherwise.
    let f = unauthenticated_public_bind;
    assert!(f("0.0.0.0:9000", false, Some(false)), "public bind + no key -> warn");
    assert!(!f("0.0.0.0:9000", true, Some(false)), "public bind WITH key -> ok");
    assert!(!f("127.0.0.1:8970", false, Some(true)), "loopback v4 -> ok");
    assert!(!f("[::1]:9000", false, Some(true)), "loopback v6 -> ok");
    assert!(f("[::]:9000", false, Some(false)), "v6 all-interfaces -> warn");
    assert!(f("203.0.113.5:9000", false, Some(false)), "routable public IP -> warn");
    assert!(!f("localhost:9000", false, None), "localhost hostname is loopback -> ok");
    assert!(f("example.com:9000", false, None), "unparseable non-localhost host + no key -> conservatively warn");
}

fn with_http(enabled: bool) -> Config {
    let mut cfg = Config::default_from_empty();
    cfg.server.http = Some(HttpConfig {
        enabled,
        api_keys: vec![ApiKeyConfig { name: "laptop".into(), env: "MCPGW_KEY_LAPTOP".into() }],
        ..HttpConfig::default()
    });
    cfg
}

#[test]
fn resolve_api_keys_empty_when_no_http() {
    assert!(api_key_refs(&Config::default_from_empty()).is_empty());
}

#[test]
fn resolve_api_keys_empty_when_http_disabled_even_with_keys() {
    assert!(api_key_refs(&with_http(false)).is_empty());
    assert_eq!(
        api_key_refs(&with_http(true)),
        vec![("laptop".to_string(), "MCPGW_KEY_LAPTOP".to_string())]
    );
}

#[test]
fn api_key_secrets_fail_fast_on_missing_or_blank() {
    assert_eq!(api_key_secret("laptop", "E", Some("s3".into())), Ok("s3".to_string()));
    assert_eq!(
        api_key_secret("laptop", "E", None),
        Err("api_key \"laptop\": env \"E\" is not set".to_string())
    );
    assert_eq!(
        api_key_secret("laptop", "E", Some("  \t".into())),
        Err("api_key \"laptop\": env \"E\" is set but empty".to_string())
    );
}

#[test]
fn resolve_admin_token_none_when_unconfigured() {
    assert_eq!(admin_token_ref(&Config::default_from_empty()), None);
    let mut cfg = Config::default_from_empty();
    cfg.dashboard.admin_token_env = Some("T".into());
    assert_eq!(admin_token_ref(&cfg), None, "dashboard disabled -> not read");
    cfg.dashboard.enabled = true;
    assert_eq!(admin_token_ref(&cfg).as_deref(), Some("T"));
    assert_eq!(
        admin_token_secret("T", None),
        Err("[dashboard].admin_token_env: env \"T\" is not set".to_string())
    );
    assert_eq!(
        admin_token_secret("T", Some(" ".into())),
        Err("[dashboard].admin_token_env: env \"T\" is set but empty".to_string())
    );
    assert_eq!(admin_token_secret("T", Some("tok".into())), Ok("tok".to_string()));
}

#[test]
fn validate_upstream_http_env_fails_fast_on_missing_bearer() {
    let mut cfg = Config::default_from_empty();
    cfg.upstreams = vec![UpstreamConfig {
        name: "r".into(),
        call_timeout_ms: 1,
        transport: UpstreamTransport::Http {
            url: "https://x".into(),
            bearer_env: Some("MCPGW_T_MISSING_BEARER".into()),
            headers: vec![("X-Api-Version".into(), "VER".into())],
        },
    }];
    let refs = env_refs(&cfg);
    assert_eq!(refs.len(), 2);
    assert_eq!(refs[0].missing_message(), "upstream \"r\": bearer_env \"MCPGW_T_MISSING_BEARER\" is not set");
    assert_eq!(refs[1].missing_message(), "upstream \"r\": header \"X-Api-Version\" env \"VER\" is not set");
}

#[test]
fn serve_plan_refuses_when_no_transport_is_enabled() {
    let mut cfg = Config::default_from_empty();
    cfg.server.stdio = false;
    match serve_plan(&cfg) {
        Err(m) => assert_eq!(m, "no server transport enabled (set [server].stdio or [server.http].enabled)"),
        Ok(_) => panic!("expected a refusal"),
    }
    let mut off = with_http(false);
    off.server.stdio = false;
    assert!(serve_plan(&off).is_err(), "a disabled HTTP section is no transport");
}

#[test]
fn serve_plan_follows_the_configuration() {
    let cfg = Config::default_from_empty();
    let p = serve_plan(&cfg).ok().expect("stdio is on by default");
    assert!(p.stdio);
    assert!(p.http.is_none());
    assert!(p.audit_path.is_none());
    assert!(p.dashboard.is_none());

    let mut cfg = with_http(true);
    cfg.server.stdio = false;
    cfg.audit.enabled = true;
    cfg.audit.path = "audit.jsonl".into();
    cfg.dashboard.enabled = true;
    cfg.dashboard.bind = "127.0.0.1:9999".into();
    cfg.dashboard.call_buffer = 5;
    cfg.dashboard.trace_queries = true;
    cfg.dashboard.trace_buffer = 3;
    cfg.dashboard.trace_path = Some("disc.jsonl".into());
    let p = serve_plan(&cfg).ok().unwrap();
    assert!(!p.stdio);
    let (bind, path) = p.http.clone().expect("http on");
    assert_eq!(bind, cfg.server.http.as_ref().unwrap().bind);
    assert_eq!(path, cfg.server.http.as_ref().unwrap().path);
    assert_eq!(p.audit_path.as_deref(), Some("audit.jsonl"));
    let d = p.dashboard.expect("dashboard on");
    assert_eq!(d.bind, "127.0.0.1:9999");
    assert_eq!(d.call_buffer, 5);
    assert_eq!(d.traces, Some((3, Some("disc.jsonl".to_string()))));
    assert_eq!(d.discovery_path.as_deref(), Some("disc.jsonl"));
    assert_eq!(d.audit_path.as_deref(), Some("audit.jsonl"));

    cfg.dashboard.trace_queries = false;
    let d = serve_plan(&cfg).ok().unwrap().dashboard.unwrap();
    assert!(d.traces.is_none());
    assert_eq!(d.discovery_path.as_deref(), Some("disc.jsonl"), "history still replays a configured log");
}

fn with_bearer_upstream(mut cfg: Config) -> Config {
    cfg.upstreams = vec![UpstreamConfig {
        name: "r".into(),
        call_timeout_ms: 1,
        transport: UpstreamTransport::Http { url: "https://x".into(), bearer_env: Some("TOK".into()), headers: Vec::new() },
    }];
    cfg
}

#[test]
fn start_serve_checks_every_secret_before_anything_runs() {
    let mut cfg = with_bearer_upstream(with_http(true));
    cfg.dashboard.enabled = true;
    cfg.dashboard.admin_token_env = Some("ADMIN".into());

    // The first problem in order wins: the API key before the admin token and the upstream env.
    match start_serve(&cfg, &vec![None], None, &vec![false]) {
        Err(m) => assert_eq!(m, "api_key \"laptop\": env \"MCPGW_KEY_LAPTOP\" is not set"),
        Ok(_) => panic!("expected a refusal"),
    }
    match start_serve(&cfg, &vec![Some("k".into())], Some("  ".into()), &vec![false]) {
        Err(m) => assert_eq!(m, "[dashboard].admin_token_env: env \"ADMIN\" is set but empty"),
        Ok(_) => panic!("expected a refusal"),
    }
    match start_serve(&cfg, &vec![Some("k".into())], Some("t".into()), &vec![false]) {
        Err(m) => assert_eq!(m, "upstream \"r\": bearer_env \"TOK\" is not set"),
        Ok(_) => panic!("expected a refusal"),
    }
    match start_serve(&cfg, &vec![Some("k".into())], Some("t".into()), &vec![true]) {
        Ok((plan, secrets)) => {
            assert_eq!(secrets.api_keys, vec!["k".to_string()]);
            assert_eq!(secrets.admin_token.as_deref(), Some("t"));
            assert!(plan.dashboard.is_some());
            assert!(plan.http.is_some());
        },
        Err(m) => panic!("unexpected refusal {m}"),
    }
}

#[test]
fn start_serve_without_transport_is_refused_first() {
    let mut cfg = Config::default_from_empty();
    cfg.server.stdio = false;
    match start_serve(&cfg, &Vec::new(), None, &Vec::new()) {
        Err(m) => assert_eq!(m, "no server transport enabled (set [server].stdio or [server.http].enabled)"),
        Ok(_) => panic!("expected a refusal"),
    }
}

fn retrieval_with_vector(strategy: &str, key_env: &str) -> Config {
    let mut cfg = Config::default_from_empty();
    cfg.retrieval.strategy = strategy.into();
    cfg.retrieval.vector = Some(VectorConfig {
        base_url: "https://api.openai.com/v1".into(),
        model: "m".into(),
        api_key_env: key_env.into(),
        dim: None,
        timeout_ms: None,
        batch_size: None,
    });
    cfg
}

#[test]
fn build_backends_empty_for_bm25() {
    let cfg = Config::default_from_empty();
    assert_eq!(backend_key_env(&cfg.retrieval), None);
    assert!(matches!(backend_plan(&cfg.retrieval, None), Ok(BackendPlan::Lexical)));
}

#[test]
fn build_backends_fails_fast_on_missing_vector_key() {
    let cfg = retrieval_with_vector("vector", "MCPGW_M2_NO_KEY");
    assert_eq!(backend_key_env(&cfg.retrieval).as_deref(), Some("MCPGW_M2_NO_KEY"));
    match backend_plan(&cfg.retrieval, None) {
        Err(m) => assert_eq!(m, "[retrieval.vector]: env \"MCPGW_M2_NO_KEY\" is not set"),
        Ok(_) => panic!("expected a refusal"),
    }
}

#[test]
fn build_backends_embedder_for_vector_with_key() {
    let cfg = retrieval_with_vector("vector", "MCPGW_M2_KEY");
    match backend_plan(&cfg.retrieval, Some("sk-x".into())) {
        Ok(BackendPlan::Embedder { model, api_key, .. }) => assert_eq!((model.as_str(), api_key.as_str()), ("m", "sk-x")),
        _ => panic!("expected an embedder"),
    }
}

#[test]
fn build_backends_embedder_for_hybrid_with_key() {
    let cfg = retrieval_with_vector("hybrid", "MCPGW_M2B_KEY");
    assert!(matches!(backend_plan(&cfg.retrieval, Some("sk-x".into())), Ok(BackendPlan::Embedder { .. })));
    let mut no_section = cfg.clone();
    no_section.retrieval.vector = None;
    match backend_plan(&no_section.retrieval, Some("sk-x".into())) {
        Err(m) => assert_eq!(m, "strategy=\"hybrid\" requires [retrieval.vector]"),
        Ok(_) => panic!("expected a refusal"),
    }
}

#[test]
fn build_backends_chat_for_subagent_with_key() {
    let mut cfg = Config::default_from_empty();
    cfg.retrieval.strategy = "subagent".into();
    cfg.retrieval.subagent = Some(SubagentConfig {
        base_url: "https://api.openai.com/v1".into(),
        model: "m".into(),
        api_key_env: "MCPGW_M2T5_KEY".into(),
        timeout_ms: None,
        candidates: Some(15),
    });
    assert!(cfg.validate().is_ok());
    assert_eq!(backend_key_env(&cfg.retrieval).as_deref(), Some("MCPGW_M2T5_KEY"));
    match backend_plan(&cfg.retrieval, Some("sk-x".into())) {
        Ok(BackendPlan::Chat { api_key, candidates, .. }) => {
            assert_eq!(api_key, "sk-x");
            assert_eq!(candidates, Some(15));
        },
        _ => panic!("expected a chat model"),
    }
    match backend_plan(&cfg.retrieval, None) {
        Err(m) => assert_eq!(m, "[retrieval.subagent]: env \"MCPGW_M2T5_KEY\" is not set"),
        Ok(_) => panic!("expected a refusal"),
    }
}
