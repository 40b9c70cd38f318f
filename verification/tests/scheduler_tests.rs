use condor_credmon::config::{ConfigMap, ConfigValue};
use condor_credmon::scheduler::{get_refresh_interval, Scheduler};

#[test]
fn test_get_refresh_interval() {
    let mut config = ConfigMap::new();

    let ret = get_refresh_interval(&config).unwrap();
    assert_eq!(ret, 60);

    config.insert(
        String::from("CREDMON_OAUTH_TOKEN_MINIMUM"),
        ConfigValue::Int(30),
    );
    let ret = get_refresh_interval(&config).unwrap();
    assert_eq!(ret, 15);

    config.insert(
        String::from("CREDMON_OAUTH_TOKEN_REFRESH"),
        ConfigValue::Int(10),
    );
    let ret = get_refresh_interval(&config).unwrap();
    assert_eq!(ret, 10);
}

#[test]
fn test_first_pass_runs_immediately() {
    let config = ConfigMap::new();
    let s = Scheduler::new(&config).unwrap();
    assert_eq!(s.last_refresh, 0);
    assert_eq!(s.refresh_interval, 60);
    let now: u64 = 1_700_000_000;
    assert!(s.pass_due(now));
}

#[test]
fn test_pass_not_due_within_interval() {
    let config = ConfigMap::new();
    let mut s = Scheduler::new(&config).unwrap();
    let now: u64 = 1_700_000_000;
    s.record_pass(now);
    assert!(!s.pass_due(now + 30));
    assert!(!s.pass_due(now + 60));
    assert!(s.pass_due(now + 61));
}

#[test]
fn test_reload_forces_immediate_scan() {
    // Scenario: a reload signal arrives mid-sleep; the next tick reloads the
    // configuration and scans at once even though the interval has not
    // elapsed since the last pass.
    let mut config = ConfigMap::new();
    let mut s = Scheduler::new(&config).unwrap();
    let now: u64 = 1_700_000_000;
    s.record_pass(now);
    assert!(!s.pass_due(now + 1));

    config.insert(
        String::from("CREDMON_OAUTH_TOKEN_REFRESH"),
        ConfigValue::Int(120),
    );
    s.reload(&config).unwrap();
    assert_eq!(s.refresh_interval, 120);
    assert_eq!(s.last_refresh, 0);
    assert!(s.pass_due(now + 1));
}

#[test]
fn test_reload_with_bad_config_keeps_state() {
    let config = ConfigMap::new();
    let mut s = Scheduler::new(&config).unwrap();
    let now: u64 = 1_700_000_000;
    s.record_pass(now);

    let mut bad = ConfigMap::new();
    bad.insert(
        String::from("CREDMON_OAUTH_TOKEN_REFRESH"),
        ConfigValue::Text(String::from("soon")),
    );
    assert!(s.reload(&bad).is_err());
    assert_eq!(s.last_refresh, now);
    assert_eq!(s.refresh_interval, 60);
}
