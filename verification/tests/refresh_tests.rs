use condor_credmon::config::{ConfigMap, ConfigValue};
use condor_credmon::data::{AccessFile, RefreshFile};
use condor_credmon::exchange::{build_records, TokenGrant};
use condor_credmon::refresh::{
    companion_access_name, credential_identifier, is_access_expired, is_refresh_record_name,
    parse_locator, plan_credential, should_refresh, RenewalAction,
};

fn access_with_expiry(expires_at: u64) -> AccessFile {
    AccessFile {
        access_token: String::from("foo"),
        token_type: String::from("bearer"),
        expires_in: 10,
        expires_at,
        scope: vec![],
    }
}

#[test]
fn test_is_access_expired() {
    let now: u64 = 1_000_000;
    let access = Some(access_with_expiry(now + 10));
    assert!(!is_access_expired(&access, 5, now));
    assert!(is_access_expired(&access, 20, now));
}

#[test]
fn test_expiry_scenario_long_lived() {
    let now: u64 = 1_700_000_000;
    let access = Some(access_with_expiry(now + 3600));
    assert!(!is_access_expired(&access, 60, now));
}

#[test]
fn test_expiry_scenario_short_lived() {
    let now: u64 = 1_700_000_000;
    let access = Some(access_with_expiry(now + 30));
    assert!(is_access_expired(&access, 60, now));
}

#[test]
fn test_expiry_scenario_missing_access() {
    let now: u64 = 1_700_000_000;
    assert!(is_access_expired(&None, 60, now));
    assert!(is_access_expired(&None, 0, now));
}

#[test]
fn test_expiry_boundary() {
    let now: u64 = 1_700_000_000;
    // exactly at the floor: expires_at - min == now forces a renewal
    let access = Some(access_with_expiry(now + 60));
    assert!(is_access_expired(&access, 60, now));
    let access2 = Some(access_with_expiry(now + 61));
    assert!(!is_access_expired(&access2, 60, now));
}

#[test]
fn test_should_refresh_uses_configured_floor() {
    let now: u64 = 1_700_000_000;
    let mut config = ConfigMap::new();
    let access = Some(access_with_expiry(now + 100));
    // default floor of 60: plenty of lifetime left
    assert!(!should_refresh(&access, &config, now).unwrap());
    config.insert(
        String::from("CREDMON_OAUTH_TOKEN_MINIMUM"),
        ConfigValue::Int(200),
    );
    assert!(should_refresh(&access, &config, now).unwrap());
    config.insert(
        String::from("CREDMON_OAUTH_TOKEN_MINIMUM"),
        ConfigValue::Text(String::from("not a number")),
    );
    assert!(should_refresh(&access, &config, now).is_err());
}

#[test]
fn test_record_names() {
    assert!(is_refresh_record_name("provider.top"));
    assert!(is_refresh_record_name("provider_handle.top"));
    assert!(!is_refresh_record_name("provider.use"));
    assert!(!is_refresh_record_name("top"));
    assert_eq!(credential_identifier("provider_handle.top"), "provider_handle");
    assert_eq!(companion_access_name("provider_handle.top"), "provider_handle.use");
}

fn provider_config(config: &mut ConfigMap, name: &str) {
    config.insert(
        format!("{name}_ISSUER"),
        ConfigValue::Text(String::from("https://issuer.example")),
    );
    config.insert(
        format!("{name}_CLIENT_ID"),
        ConfigValue::Text(String::from("client")),
    );
    config.insert(
        format!("{name}_CLIENT_SECRET_FILE"),
        ConfigValue::Text(String::from("/etc/secret")),
    );
}

#[test]
fn test_parse_locator_handle_rules() {
    let mut config = ConfigMap::new();
    provider_config(&mut config, "foo");

    // only the provider part resolves: the suffix is a handle
    let l = parse_locator(String::from("alice"), "foo_bar.top", &config);
    assert_eq!(l.owner, "alice");
    assert_eq!(l.provider, "foo");
    assert_eq!(l.handle, Some(String::from("bar")));

    // the whole stem resolves: no handle
    provider_config(&mut config, "foo_bar");
    let l2 = parse_locator(String::from("alice"), "foo_bar.top", &config);
    assert_eq!(l2.provider, "foo_bar");
    assert_eq!(l2.handle, None);

    // nothing resolves: the whole stem is the provider
    let l3 = parse_locator(String::from("bob"), "mystery_x.top", &config);
    assert_eq!(l3.provider, "mystery_x");
    assert_eq!(l3.handle, None);
}

#[test]
fn test_plan_credential_skips_fresh_token() {
    let now: u64 = 1_700_000_000;
    let mut config = ConfigMap::new();
    provider_config(&mut config, "prov");
    let refresh = RefreshFile {
        refresh_token: String::from("rt"),
        scopes: String::from("a b"),
    };
    let access = Some(access_with_expiry(now + 3600));
    let plan = plan_credential(&refresh, &access, "prov", &config, now).unwrap();
    assert!(matches!(plan, RenewalAction::Skip));
}

#[test]
fn test_plan_credential_renews_stale_token() {
    let now: u64 = 1_700_000_000;
    let mut config = ConfigMap::new();
    provider_config(&mut config, "prov");
    let refresh = RefreshFile {
        refresh_token: String::from("rt"),
        scopes: String::from("a b"),
    };
    let plan = plan_credential(&refresh, &None, "prov_handle", &config, now).unwrap();
    match plan {
        RenewalAction::Renew {
            provider,
            refresh_token,
        } => {
            assert_eq!(provider.issuer_url, "https://issuer.example");
            assert_eq!(provider.client_id, "client");
            assert_eq!(provider.client_secret_file, "/etc/secret");
            assert_eq!(refresh_token, "rt");
        }
        RenewalAction::Skip => panic!("expected a renewal"),
    }
}

#[test]
fn test_scan_pass_isolates_failures() {
    // Two credentials in one pass: the first one's provider has no usable
    // configuration (its discovery can never start), the second renews.
    let now: u64 = 1_700_000_000;
    let mut config = ConfigMap::new();
    provider_config(&mut config, "good");
    let refresh_bad = RefreshFile {
        refresh_token: String::from("rt-bad"),
        scopes: String::from("a"),
    };
    let refresh_good = RefreshFile {
        refresh_token: String::from("rt-good"),
        scopes: String::from("a"),
    };

    let first = plan_credential(&refresh_bad, &None, "downprov", &config, now);
    assert!(first.is_err());

    // the first credential's failure leaves the second untouched
    let second = plan_credential(&refresh_good, &None, "good", &config, now).unwrap();
    let plan = match second {
        RenewalAction::Renew { provider, refresh_token } => (provider, refresh_token),
        RenewalAction::Skip => panic!("expected a renewal"),
    };
    assert_eq!(plan.1, "rt-good");

    // the exchange for the second credential succeeds and its records are built
    let grant = TokenGrant {
        access_token: String::from("at-new"),
        token_type: String::from("Bearer"),
        expires_in: Some(3600),
        refresh_token: Some(String::from("rt-new")),
        scopes: Some(vec![String::from("a")]),
    };
    let (new_refresh, new_access) = build_records(&grant, now).unwrap();
    assert_eq!(new_refresh.refresh_token, "rt-new");
    assert_eq!(new_access.access_token, "at-new");
    assert_eq!(new_access.expires_at, now + 3600);
}
