use soar_agent::api::authorized;
use soar_agent::config::{default_cgroup, default_history, default_listen, default_policy, panel_port_of, Config};

#[test]
fn config_defaults() {
    let c = Config::default();
    assert_eq!(c.listen, "127.0.0.1:8787");
    assert_eq!(c.token, "");
    assert!(c.token_file.is_none());
    assert!(c.panel);
    assert_eq!(c.cgroup, "/sys/fs/cgroup");
    assert_eq!(c.policy, "/etc/soar-agent/policy.yaml");
    assert!(c.log.is_none());
    assert_eq!(c.history, 500);
    assert_eq!(default_listen(), "127.0.0.1:8787");
    assert_eq!(default_cgroup(), "/sys/fs/cgroup");
    assert_eq!(default_policy(), "/etc/soar-agent/policy.yaml");
    assert_eq!(default_history(), 500);
}

#[test]
fn overrides_replace_given_values_only() {
    let c = Config::default().with_overrides(Some("0.0.0.0:9000".to_string()), None, Some("/sys/fs/cgroup/app".to_string()));
    assert_eq!(c.listen, "0.0.0.0:9000");
    assert_eq!(c.token, "");
    assert_eq!(c.cgroup, "/sys/fs/cgroup/app");
    assert_eq!(c.history, 500);
    let c = c.with_overrides(None, Some("s3cret".to_string()), None);
    assert_eq!(c.token, "s3cret");
    assert_eq!(c.listen, "0.0.0.0:9000");
}

#[test]
fn panel_port_from_listen() {
    assert_eq!(panel_port_of("127.0.0.1:8787"), Some(8787));
    assert_eq!(panel_port_of("[::1]:80"), Some(80));
    assert_eq!(panel_port_of("8080"), Some(8080));
    assert_eq!(panel_port_of("host:70000"), None);
    assert_eq!(panel_port_of("host:"), None);
    assert_eq!(panel_port_of("host: 80"), None);
    assert_eq!(Config::default().panel_port(), Some(8787));
}

#[test]
fn token_resolution() {
    let mut c = Config::default();
    assert_eq!(c.resolved_token(None), None);
    assert_eq!(c.resolved_token(Some("  abc\n")), Some("abc".to_string()));
    assert_eq!(c.resolved_token(Some(" \n")), None);
    c.token = "xyz".to_string();
    assert_eq!(c.resolved_token(Some("abc")), Some("xyz".to_string()));
}

#[test]
fn no_token_lets_everything_through() {
    assert!(authorized(None, None, None));
    assert!(authorized(None, Some("garbage"), Some("a=b")));
}

#[test]
fn bearer_header_grants() {
    assert!(authorized(Some("t0k"), Some("Bearer t0k"), None));
    assert!(!authorized(Some("t0k"), Some("Bearer t0"), None));
    assert!(!authorized(Some("t0k"), Some("bearer t0k"), None));
    assert!(!authorized(Some("t0k"), Some("t0k"), None));
    assert!(!authorized(Some("t0k"), None, None));
}

#[test]
fn query_token_grants() {
    assert!(authorized(Some("t0k"), None, Some("token=t0k")));
    assert!(authorized(Some("t0k"), None, Some("a=1&token=t0k&b")));
    assert!(!authorized(Some("t0k"), None, Some("token=bad&token=t0k")));
    assert!(authorized(Some("t0k"), None, Some("novalue&token=t0k")));
    assert!(!authorized(Some("t0k"), None, Some("tokens=t0k")));
    assert!(authorized(Some("a=b"), None, Some("token=a=b")));
    assert!(authorized(Some("t0k"), Some("Bearer x"), Some("token=t0k")));
}
