use condor_credmon::config::{ConfigMap, ConfigValue};
use condor_credmon::logging::{file_log_settings, get_log_level, get_size, LogLevel};

fn text(s: &str) -> ConfigValue {
    ConfigValue::Text(String::from(s))
}

#[test]
fn test_get_size() {
    let mut config = ConfigMap::new();
    config.insert(String::from("test"), ConfigValue::Int(100));

    assert_eq!(get_size(&config, "test"), 100);

    config.insert(String::from("test2"), text("100"));
    assert_eq!(get_size(&config, "test2"), 100);

    config.insert(String::from("test3"), text("10Kb"));
    assert_eq!(get_size(&config, "test3"), 10000);

    config.insert(String::from("test4"), text("10Mb"));
    assert_eq!(get_size(&config, "test4"), 10000000);

    config.insert(String::from("test5"), text("1Gb"));
    assert_eq!(get_size(&config, "test5"), 1000000000);

    assert_eq!(get_size(&config, "none"), 1000000000);
}

#[test]
fn test_get_level() {
    let mut config = ConfigMap::new();

    assert_eq!(get_log_level(&config), LogLevel::Warn);

    config.insert(String::from("CREDMON_OAUTH_DEBUG"), text("D_ALWAYS"));
    assert_eq!(get_log_level(&config), LogLevel::Warn);

    config.insert(String::from("CREDMON_OAUTH_DEBUG"), text("D_FULLDEBUG"));
    assert_eq!(get_log_level(&config), LogLevel::Info);

    config.insert(String::from("CREDMON_OAUTH_DEBUG"), text("D_ANY"));
    assert_eq!(get_log_level(&config), LogLevel::Debug);
}

#[test]
fn test_file_log_settings() {
    let mut config = ConfigMap::new();
    let s = file_log_settings(&config);
    assert_eq!(s.path, "/var/log/condor/CredMonOAuthLog");
    assert_eq!(s.size, 1000000000);
    assert_eq!(s.rotations, 5);
    assert_eq!(s.level, LogLevel::Warn);

    config.insert(String::from("CREDMON_OAUTH_LOG"), text("/tmp/credlog"));
    config.insert(String::from("MAX_CREDMON_OAUTH_LOG"), text("10Mb"));
    config.insert(String::from("MAX_NUM_CREDMON_OAUTH_LOG"), ConfigValue::Int(3));
    config.insert(String::from("CREDMON_OAUTH_DEBUG"), text("D_FULLDEBUG"));
    let s2 = file_log_settings(&config);
    assert_eq!(s2.path, "/tmp/credlog");
    assert_eq!(s2.size, 10000000);
    assert_eq!(s2.rotations, 3);
    assert_eq!(s2.level, LogLevel::Info);
}
