use mcpgw::auth::{authorize, key_authorized, presented_bearer, AdminAuth};

#[test]
fn authorize_maps_config_and_token_to_decision() {
    assert_eq!(authorize(None, Some("x")), AdminAuth::NotConfigured);
    assert_eq!(authorize(Some("sekret"), Some("sekret")), AdminAuth::Allowed);
    assert_eq!(authorize(Some("sekret"), Some("wrong")), AdminAuth::Denied);
    assert_eq!(authorize(Some("sekret"), None), AdminAuth::Denied);
}

#[test]
fn presented_bearer_parses_scheme_case_insensitively_and_rejects_others() {
    for h in ["Bearer tok", "bearer tok", "BEARER tok"] {
        assert_eq!(presented_bearer(Some(h)), Some("tok".to_string()));
    }
    assert_eq!(presented_bearer(Some("Bearer ")), None);
    assert_eq!(presented_bearer(Some("Basic tok")), None);
    assert_eq!(presented_bearer(None), None);
}

#[test]
fn presented_bearer_extracts_token() {
    assert_eq!(presented_bearer(Some("Bearer sk-123")), Some("sk-123".to_string()));
}

#[test]
fn presented_bearer_treats_empty_token_as_absent() {
    assert_eq!(presented_bearer(Some("Bearer ")), None);
}

#[test]
fn presented_bearer_scheme_is_case_insensitive() {
    for header in ["Bearer sk-123", "bearer sk-123", "BEARER sk-123", "BeArEr sk-123"] {
        assert_eq!(presented_bearer(Some(header)), Some("sk-123".to_string()), "{header:?}");
    }
}

#[test]
fn presented_bearer_rejects_other_schemes() {
    for header in ["Basic sk-123", "Token sk-123", "sk-123", "Bearersk-123"] {
        assert_eq!(presented_bearer(Some(header)), None, "{header:?}");
    }
}

#[test]
fn presented_bearer_token_value_stays_case_sensitive() {
    assert_eq!(presented_bearer(Some("bearer SK-Abc")), Some("SK-Abc".to_string()));
}

#[test]
fn api_key_matches_any_configured_key() {
    let keys = vec!["alpha".to_string(), "béta".to_string()];
    assert!(key_authorized(&keys, "béta".as_bytes()));
    assert!(key_authorized(&keys, b"alpha"));
    assert!(!key_authorized(&keys, b"alph"));
    assert!(!key_authorized(&[], b"alpha"));
}
