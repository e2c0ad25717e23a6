use mkd_gcm::config::_assert_no_legacy_env;
use mkd_gcm::{Error, MemoryConfig, build_memory_store, memory_config_from_env};

fn env(pairs: &[(&str, &str)]) -> Vec<(String, String)> {
    pairs.iter().map(|(k, v)| (k.to_string(), v.to_string())).collect()
}

#[test]
fn rejects_legacy_env_vars() {
    let set = env(&[("MKD_MEMORY_BACKEND", "dual"), ("MKD_MEMORY_READ_PRIMARY", "nntp")]);
    assert!(_assert_no_legacy_env(&set).is_err());
    let cleared = env(&[]);
    assert!(_assert_no_legacy_env(&cleared).is_ok());
}

#[test]
fn legacy_env_error_names_the_variable() {
    let set = env(&[("MKD_MEMORY_NNTP_SOFT", "1")]);
    match _assert_no_legacy_env(&set) {
        Err(Error::Config(m)) => assert_eq!(m, "MKD_MEMORY_NNTP_SOFT=1 is no longer supported; use MKD_GCM_URL"),
        _ => panic!("expected a configuration error"),
    }
    let blank = env(&[("MKD_MEMORY_BACKEND", "   ")]);
    assert!(_assert_no_legacy_env(&blank).is_ok());
}

#[test]
fn config_prefers_gcm_url() {
    let c = memory_config_from_env(&env(&[
        ("MKD_NNTP_URL", "legacy:1"),
        ("MKD_GCM_URL", "gcm:2"),
        ("MKD_GCM_HOST", "h"),
    ]));
    assert_eq!(c.nntp_url.as_deref(), Some("gcm:2"));
}

#[test]
fn config_builds_url_from_host_and_port() {
    let both = memory_config_from_env(&env(&[("MKD_GCM_HOST", "h"), ("MKD_NNTP_PORT", "2")]));
    assert_eq!(both.nntp_url.as_deref(), Some("h:2"));
    let host = memory_config_from_env(&env(&[("MKD_NNTP_HOST", "h")]));
    assert_eq!(host.nntp_url.as_deref(), Some("h:1119"));
    let port = memory_config_from_env(&env(&[("MKD_GCM_PORT", "2")]));
    assert_eq!(port.nntp_url.as_deref(), Some("127.0.0.1:2"));
    let none = memory_config_from_env(&env(&[]));
    assert_eq!(none.nntp_url, None);
}

#[test]
fn config_skips_empty_values() {
    let c = MemoryConfig::from_env(&env(&[
        ("MKD_GCM_USER", ""),
        ("MKD_NNTP_USER", "old"),
        ("MKD_GCM_PASS", "p"),
        ("MKD_GCM_FROM", "me <me@x>"),
        ("MKD_NNTP_ROOT", "/srv"),
    ]));
    assert_eq!(c.nntp_user.as_deref(), Some("old"));
    assert_eq!(c.nntp_pass.as_deref(), Some("p"));
    assert_eq!(c.default_from.as_deref(), Some("me <me@x>"));
    assert_eq!(c.mkd_nntp_root.as_deref(), Some("/srv"));
}

fn config(url: Option<&str>, user: Option<&str>, pass: Option<&str>, from: Option<&str>) -> MemoryConfig {
    MemoryConfig {
        nntp_url: url.map(|s| s.to_string()),
        nntp_user: user.map(|s| s.to_string()),
        nntp_pass: pass.map(|s| s.to_string()),
        default_from: from.map(|s| s.to_string()),
        mkd_nntp_root: None,
    }
}

#[test]
fn build_store_without_url_is_none() {
    assert!(matches!(build_memory_store(&config(None, None, None, None)), Ok(None)));
}

#[test]
fn build_store_reports_bad_url() {
    match build_memory_store(&config(Some("bad:99999"), None, None, None)) {
        Err(Error::Config(m)) => assert_eq!(m, "bad NNTP port in bad:99999"),
        _ => panic!("expected a configuration error"),
    }
}

#[test]
fn build_store_sets_endpoint_and_from() {
    let s = build_memory_store(&config(Some("nntp://gcm:1200"), Some("u"), None, Some("a <a@b>")))
        .unwrap()
        .unwrap();
    assert_eq!(s.host(), "gcm");
    assert_eq!(s.port(), 1200);
    assert_eq!(s.default_from(), "a <a@b>");
}

#[test]
fn store_from_env_uses_the_configured_endpoint() {
    let s = mkd_gcm::memory_store_from_env(&env(&[
        ("MKD_GCM_HOST", "gcm.local"),
        ("MKD_GCM_USER", "u"),
        ("MKD_NNTP_PASS", "p"),
    ]))
    .unwrap()
    .unwrap();
    assert_eq!((s.host(), s.port()), ("gcm.local", 1119));
    assert!(matches!(mkd_gcm::memory_store_from_env(&env(&[])), Ok(None)));
    match mkd_gcm::memory_store_from_env(&env(&[("MKD_GCM_URL", "nntp://:5")])) {
        Err(Error::Config(m)) => assert_eq!(m, "empty NNTP host"),
        _ => panic!("expected a configuration error"),
    }
}
