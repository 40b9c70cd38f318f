use condor_credmon::config::{coerce_to_int, reload_config, ConfigCache, ConfigMap, ConfigValue};

fn text(s: &str) -> ConfigValue {
    ConfigValue::Text(String::from(s))
}

#[test]
fn test_coerce_to_int() {
    let mut config = ConfigMap::new();
    config.insert(String::from("foo"), text("10"));
    config.insert(String::from("bar"), ConfigValue::Int(20));
    config.insert(String::from("baz"), text("10Mb"));

    assert_eq!(coerce_to_int(config.get("foo").unwrap()).unwrap(), 10);
    assert_eq!(coerce_to_int(config.get("bar").unwrap()).unwrap(), 20);
    assert!(coerce_to_int(config.get("baz").unwrap()).is_err());
}

#[test]
fn test_coerce_to_int_rejects_overflow_and_sign() {
    assert!(coerce_to_int(&text("18446744073709551616")).is_err());
    assert_eq!(
        coerce_to_int(&text("18446744073709551615")).unwrap(),
        u64::MAX
    );
    assert_eq!(coerce_to_int(&text("+7")).unwrap(), 7);
    assert!(coerce_to_int(&text("-7")).is_err());
    assert!(coerce_to_int(&text("")).is_err());
}

#[test]
fn test_config_map_replaces_on_insert() {
    let mut config = ConfigMap::new();
    config.insert(String::from("k"), text("old"));
    config.insert(String::from("k"), text("new"));
    match config.get("k").unwrap() {
        ConfigValue::Text(s) => assert_eq!(s, "new"),
        _ => panic!("expected text"),
    }
    assert!(config.get("missing").is_none());
}

#[test]
fn test_config_cache_invalidate() {
    let mut cache = ConfigCache::new();
    assert!(cache.cached().is_none());
    cache.store(ConfigMap::new());
    assert!(cache.cached().is_some());
    reload_config(&mut cache);
    assert!(cache.cached().is_none());
}
