use condor_credmon::config::{ConfigMap, ConfigValue};
use condor_credmon::data::{compare_scopes, resolve_provider, Args, ClientInfo};

fn text(s: &str) -> ConfigValue {
    ConfigValue::Text(String::from(s))
}

#[test]
fn test_args_none() {
    let fake_args = vec![];
    let ret = Args::from_env_impl(fake_args);
    assert!(ret.err().unwrap().message().contains("ArgumentError"));
}

#[test]
fn test_args_no_options() {
    let fake_args = vec![String::from("exec"), String::from("scopes=foo")];
    let ret = Args::from_env_impl(fake_args);
    let s = ret.err().unwrap().message();
    assert!(s.contains("specify provider"));
}

#[test]
fn test_args_no_scopes() {
    let fake_args = vec![String::from("exec"), String::from("options=provider")];
    let ret = Args::from_env_impl(fake_args).ok().unwrap();
    assert_eq!(ret.provider, "provider");
    assert_eq!(ret.scopes, "");
    assert_eq!(ret.handle, None);
}

#[test]
fn test_args_scopes() {
    let fake_args = vec![
        String::from("exec"),
        String::from("scopes=foo,bar&options=provider"),
    ];
    let ret = Args::from_env_impl(fake_args).ok().unwrap();
    assert_eq!(ret.provider, "provider");
    assert_eq!(ret.scopes, "foo bar");
    assert_eq!(ret.handle, None);
}

#[test]
fn test_args_handle() {
    let fake_args = vec![
        String::from("exec"),
        String::from("scopes=foo,bar&options=provider&handle=baz"),
    ];
    let ret = Args::from_env_impl(fake_args).ok().unwrap();
    assert_eq!(ret.provider, "provider");
    assert_eq!(ret.scopes, "foo bar");
    assert_eq!(ret.handle, Some(String::from("baz")));
}

#[test]
fn test_args_last_entry_wins() {
    let fake_args = vec![
        String::from("exec"),
        String::from("options=first&options=second"),
    ];
    let ret = Args::from_env_impl(fake_args).ok().unwrap();
    assert_eq!(ret.provider, "second");
}

#[test]
fn test_client_info() {
    let mut config = ConfigMap::new();
    config.insert(String::from("test_ISSUER"), text("http://foo"));
    config.insert(String::from("test_CLIENT_ID"), text("client"));
    config.insert(String::from("test_CLIENT_SECRET_FILE"), text("test_secret_file"));

    let ret = ClientInfo::new("test", &config, String::from("secret"));
    match ret {
        Err(e) => {
            panic!("should not fail: {}", e.message())
        }
        Ok(x) => {
            assert_eq!(x.issuer_url, "http://foo");
            assert_eq!(x.client_id, "client");
            assert_eq!(x.client_secret, "secret");
        }
    }
}

#[test]
fn test_client_info_missing_issuer() {
    let config = ConfigMap::new();
    let ret = ClientInfo::new("test", &config, String::from("secret"));
    let msg = ret.err().unwrap().message();
    assert!(msg.contains("IssuerError"));
    assert!(msg.contains("test_ISSUER"));
}

#[test]
fn test_client_info_missing_client_id() {
    let mut config = ConfigMap::new();
    config.insert(String::from("test_ISSUER"), text("http://foo"));
    let ret = ClientInfo::new("test", &config, String::from("secret"));
    let msg = ret.err().unwrap().message();
    assert!(msg.contains("ConfigError"));
    assert!(msg.contains("test_CLIENT_ID"));
}

#[test]
fn test_scope_change_order_insensitive() {
    assert!(compare_scopes("a b", "b a"));
    assert!(!compare_scopes("a", "a b"));
}

#[test]
fn test_scope_change_duplicate_insensitive() {
    assert!(compare_scopes("a a b", "b a"));
    assert!(compare_scopes("", "   "));
    assert!(!compare_scopes("", "a"));
    assert!(compare_scopes("read write", "write  read"));
}

#[test]
fn test_resolver_fallback() {
    let mut config = ConfigMap::new();
    config.insert(String::from("foo_ISSUER"), text("https://issuer.example"));
    config.insert(String::from("foo_CLIENT_ID"), text("the-client"));
    config.insert(String::from("foo_CLIENT_SECRET_FILE"), text("/etc/foo-secret"));

    let with_handle = resolve_provider("foo_bar", &config).ok().unwrap();
    let plain = resolve_provider("foo", &config).ok().unwrap();
    assert_eq!(with_handle.issuer_url, plain.issuer_url);
    assert_eq!(with_handle.client_id, plain.client_id);
    assert_eq!(with_handle.client_secret_file, plain.client_secret_file);
    assert_eq!(plain.issuer_url, "https://issuer.example");
}

#[test]
fn test_resolver_exact_match_wins() {
    let mut config = ConfigMap::new();
    config.insert(String::from("foo_ISSUER"), text("https://base"));
    config.insert(String::from("foo_CLIENT_ID"), text("base-client"));
    config.insert(String::from("foo_CLIENT_SECRET_FILE"), text("/etc/base"));
    config.insert(String::from("foo_bar_ISSUER"), text("https://handle"));
    config.insert(String::from("foo_bar_CLIENT_ID"), text("handle-client"));
    config.insert(String::from("foo_bar_CLIENT_SECRET_FILE"), text("/etc/handle"));

    let r = resolve_provider("foo_bar", &config).ok().unwrap();
    assert_eq!(r.issuer_url, "https://handle");
}

#[test]
fn test_resolver_unresolvable() {
    let config = ConfigMap::new();
    let e = resolve_provider("nowhere", &config).err().unwrap();
    assert!(e.message().contains("IssuerError"));
    let e2 = resolve_provider("no_where", &config).err().unwrap();
    assert!(e2.message().contains("no_ISSUER"));
}
