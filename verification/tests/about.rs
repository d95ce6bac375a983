use mcpgw::about::{transport_label, AboutInfo, VersionInfo};
use mcpgw::config::{ApiKeyConfig, Config, HttpConfig, UpstreamConfig, UpstreamTransport};

fn ver() -> VersionInfo {
    VersionInfo { version: "0.1.0".into(), git_sha: "abc123".into(), build_time: "0".into() }
}

#[test]
fn from_config_maps_non_sensitive_fields() {
    let mut cfg = Config::default_from_empty();
    cfg.retrieval.top_k = 7;
    cfg.dashboard.enabled = true;
    cfg.dashboard.call_buffer = 1234;
    cfg.dashboard.payload_max_bytes = 4096;
    cfg.upstreams = vec![UpstreamConfig {
        name: "mock".into(),
        call_timeout_ms: 30_000,
        transport: UpstreamTransport::Stdio { command: "x".into(), args: vec![], env_passthrough: vec![] },
    }];
    let a = AboutInfo::from_config(&cfg, ver());
    assert_eq!(a.retrieval.strategy, "bm25");
    assert_eq!(a.retrieval.top_k, 7);
    assert_eq!(a.dashboard.call_buffer, 1234);
    assert_eq!(a.dashboard.payload_max_bytes, 4096);
    assert!(!a.audit.enabled);
    assert_eq!(a.audit.path, None);
    assert!(!a.server.http_enabled);
    assert_eq!(a.upstreams.len(), 1);
    assert_eq!(a.upstreams[0].name, "mock");
    assert_eq!(a.upstreams[0].transport, "stdio");
    assert!(!a.dashboard.admin_enabled, "no admin_token_env -> false");
    assert_eq!(a.version.version, "0.1.0");
}

#[test]
fn http_auth_true_and_no_secrets_leak() {
    let mut cfg = Config::default_from_empty();
    cfg.server.http = Some(HttpConfig {
        enabled: true,
        bind: "0.0.0.0:9000".into(),
        path: "/mcp".into(),
        api_keys: vec![ApiKeyConfig { name: "keylabel".into(), env: "SECRET_KEY".into() }],
    });
    cfg.upstreams = vec![UpstreamConfig {
        name: "remote".into(),
        call_timeout_ms: 5000,
        transport: UpstreamTransport::Http {
            url: "https://example.com/mcp".into(),
            bearer_env: Some("REMOTE_TOKEN".into()),
            headers: vec![],
        },
    }];
    let a = AboutInfo::from_config(&cfg, ver());
    assert!(a.server.http_enabled);
    assert!(a.server.http_auth, "api_key present -> auth enabled");
    assert_eq!(a.server.http_bind.as_deref(), Some("0.0.0.0:9000"));
    assert_eq!(a.upstreams[0].transport, "http");
    assert_eq!(a.upstreams[0].call_timeout_ms, 5000);
    let text = format!("{a:?}");
    for secret in ["SECRET_KEY", "REMOTE_TOKEN", "keylabel", "example.com", "bearer_env", "api_key"] {
        assert!(!text.contains(secret), "About must not leak {secret:?}: {text}");
    }
}

#[test]
fn admin_enabled_reflects_config_without_leaking_env_name() {
    let mut cfg = Config::default_from_empty();
    cfg.dashboard.enabled = true;
    cfg.dashboard.admin_token_env = Some("MCPGW_DASH_ADMIN".into());
    let a = AboutInfo::from_config(&cfg, ver());
    assert!(a.dashboard.admin_enabled, "admin_token_env set -> true");
    assert!(!format!("{a:?}").contains("MCPGW_DASH_ADMIN"));
}

#[test]
fn disabled_http_and_audit_paths() {
    let mut cfg = Config::default_from_empty();
    cfg.server.http = Some(HttpConfig { enabled: false, ..HttpConfig::default() });
    cfg.audit.enabled = true;
    cfg.audit.path = "/var/log/a.jsonl".into();
    let a = AboutInfo::from_config(&cfg, ver());
    assert!(!a.server.http_enabled);
    assert_eq!(a.server.http_bind, None);
    assert!(!a.server.http_auth);
    assert_eq!(a.audit.path.as_deref(), Some("/var/log/a.jsonl"));
    assert_eq!(
        transport_label(&UpstreamTransport::Http { url: "u".into(), bearer_env: None, headers: vec![] }),
        "http"
    );
}
