//! The daemon loop's state machine: when a scan pass is due, what completing
//! a pass records, and what a reload of the configuration resets.

use vstd::prelude::*;

use crate::config::{spec_coerce_to_int, coerce_to_int, ConfigMap};
use crate::error::CredmonError;

verus! {

/// The scan interval used when neither interval setting is configured.
pub const TOKEN_REFRESH_INTERVAL: u64 = 60;

/// The configured scan interval: the explicit `CREDMON_OAUTH_TOKEN_REFRESH`
/// value when set, else half of `CREDMON_OAUTH_TOKEN_MINIMUM` when set, else
/// the built-in default. `None` means a configured value cannot be read as
/// an integer.
pub open spec fn spec_refresh_interval(cfg: ConfigMap) -> Option<u64> {
    match cfg.spec_get("CREDMON_OAUTH_TOKEN_REFRESH"@) {
        Some(v) => spec_coerce_to_int(v),
        None => match cfg.spec_get("CREDMON_OAUTH_TOKEN_MINIMUM"@) {
            Some(v) => match spec_coerce_to_int(v) {
                Some(x) => Some((x / 2) as u64),
                None => None,
            },
            None => Some(TOKEN_REFRESH_INTERVAL),
        },
    }
}

/// Reads the scan interval from configuration.
pub fn get_refresh_interval(config: &ConfigMap) -> (r: Result<u64, CredmonError>)
    ensures
        match spec_refresh_interval(*config) {
            Some(x) => r == Ok::<u64, CredmonError>(x),
            None => r matches Err(e) && e is ConfigError,
        },
{
    match config.get("CREDMON_OAUTH_TOKEN_REFRESH") {
        Some(v) => coerce_to_int(v),
        None => match config.get("CREDMON_OAUTH_TOKEN_MINIMUM") {
            Some(v) => match coerce_to_int(v) {
                Ok(x) => Ok(x / 2),
                Err(e) => Err(e),
            },
            None => Ok(TOKEN_REFRESH_INTERVAL),
        },
    }
}

/// The scheduler's state between loop ticks: when the last pass completed
/// (epoch seconds; zero before any pass) and how far apart passes are due.
pub struct Scheduler {
    pub last_refresh: u64,
    pub refresh_interval: u64,
}

/// Whether a scan pass is due at `now`: more than one interval has elapsed
/// since the last completed pass.
pub open spec fn spec_due(s: Scheduler, now: u64) -> bool {
    now - s.last_refresh > s.refresh_interval
}

impl Scheduler {
    /// Starts the scheduler: the interval comes from configuration, and the
    /// last-pass mark starts at the epoch so the first pass runs at once.
    pub fn new(config: &ConfigMap) -> (r: Result<Scheduler, CredmonError>)
        ensures
            match spec_refresh_interval(*config) {
                Some(x) => r matches Ok(s) && s.refresh_interval == x && s.last_refresh == 0,
                None => r matches Err(e) && e is ConfigError,
            },
    {
        match get_refresh_interval(config) {
            Ok(interval) => Ok(Scheduler { last_refresh: 0, refresh_interval: interval }),
            Err(e) => Err(e),
        }
    }

    /// Whether a scan pass is due at `now`. The clock is monotone: `now`
    /// never precedes the last completed pass.
    pub fn pass_due(&self, now: u64) -> (r: bool)
        requires
            now >= self.last_refresh,
        ensures
            r == spec_due(*self, now),
    {
        now - self.last_refresh > self.refresh_interval
    }

    /// Records a completed scan pass, whether or not individual credentials
    /// in it failed.
    pub fn record_pass(&mut self, now: u64)
        ensures
            final(self).last_refresh == now,
            final(self).refresh_interval == old(self).refresh_interval,
    {
        self.last_refresh = now;
    }

    /// Applies a configuration reload: the interval is recomputed from the
    /// fresh snapshot and the last-pass mark is reset to the epoch, so the
    /// next tick scans immediately even if the old interval had not elapsed.
    /// When the fresh snapshot's interval cannot be read, the state is left
    /// as it was and the error is reported.
    pub fn reload(&mut self, config: &ConfigMap) -> (r: Result<(), CredmonError>)
        ensures
            match spec_refresh_interval(*config) {
                Some(x) => r is Ok && final(self).refresh_interval == x
                    && final(self).last_refresh == 0,
                None => (r matches Err(e) && e is ConfigError) && *final(self) == *old(self),
            },
    {
        match get_refresh_interval(config) {
            Ok(interval) => {
                self.refresh_interval = interval;
                self.last_refresh = 0;
                Ok(())
            },
            Err(e) => Err(e),
        }
    }
}

/// After a reload, the very next tick is due: the last-pass mark is back at
/// the epoch, so any later clock reading beyond one interval triggers a
/// scan — the previous interval need not have elapsed since the last pass.
pub proof fn lemma_reload_forces_scan(s: Scheduler, now: u64)
    requires
        s.last_refresh == 0,
        now > s.refresh_interval,
    ensures
        spec_due(s, now),
{
}

} // verus!
