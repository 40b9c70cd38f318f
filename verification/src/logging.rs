//! The verified half of log configuration: reading the log size, rotation
//! count, verbosity and path from the configuration snapshot. Wiring the
//! values into a log sink happens outside the library.

use vstd::prelude::*;

use crate::config::{spec_coerce_to_int, coerce_to_int, ConfigMap, ConfigValue};
use crate::strutil::{spec_parse_u64, parse_u64, str_eq, substr_to_string};

verus! {

/// The log size assumed when nothing usable is configured.
pub const LOG_DEFAULT_SIZE: u64 = 1000000000;

/// The number of rotated log files kept by default.
pub const LOG_DEFAULT_ROTATIONS: u32 = 5;

/// The daemon's verbosity, as the configuration names it.
#[derive(Clone, Copy, Debug, PartialEq, Eq, Structural)]
pub enum LogLevel {
    Warn,
    Info,
    Debug,
}

/// `a * b`, stopping at the largest representable value.
pub open spec fn mul_capped(a: u64, b: u64) -> u64 {
    if a * b > u64::MAX {
        u64::MAX
    } else {
        (a * b) as u64
    }
}

/// `a * b`, stopping at the largest representable value.
fn mul_capped_exec(a: u64, b: u64) -> (r: u64)
    ensures
        r == mul_capped(a, b),
{
    match a.checked_mul(b) {
        Some(v) => v,
        None => u64::MAX,
    }
}

/// The parsed value of `s`, or `d` when `s` is not a number.
pub open spec fn parse_or(s: Seq<char>, d: u64) -> u64 {
    match spec_parse_u64(s) {
        Some(x) => x,
        None => d,
    }
}

/// Whether `s` ends in the two-character unit `unit`.
pub open spec fn has_unit(s: Seq<char>, unit: Seq<char>) -> bool {
    s.len() >= 2 && s.subrange(s.len() - 2, s.len() as int) == unit
}

/// The size a textual setting denotes: a number with a `Kb`, `Mb` or `Gb`
/// unit, or a bare byte count; an unreadable number falls back to the
/// default expressed in the named unit.
pub open spec fn spec_size_text(s: Seq<char>) -> u64 {
    if has_unit(s, "Kb"@) {
        mul_capped(parse_or(s.take(s.len() - 2), LOG_DEFAULT_SIZE / 1000000), 1000)
    } else if has_unit(s, "Mb"@) {
        mul_capped(parse_or(s.take(s.len() - 2), LOG_DEFAULT_SIZE / 1000), 1000000)
    } else if has_unit(s, "Gb"@) {
        mul_capped(parse_or(s.take(s.len() - 2), LOG_DEFAULT_SIZE / 1000000000), 1000000000)
    } else {
        parse_or(s, LOG_DEFAULT_SIZE)
    }
}

/// The size the setting `key` denotes in `cfg`.
pub open spec fn spec_get_size(cfg: ConfigMap, key: Seq<char>) -> u64 {
    match cfg.spec_get(key) {
        Some(ConfigValue::Text(s)) => spec_size_text(s@),
        Some(ConfigValue::Int(x)) => x,
        None => LOG_DEFAULT_SIZE,
    }
}

/// Reads a size setting such as the log-rotation threshold: text may carry a
/// `Kb`, `Mb` or `Gb` unit; anything unusable falls back to a default.
pub fn get_size(config: &ConfigMap, key: &str) -> (r: u64)
    ensures
        r == spec_get_size(*config, key@),
{
    match config.get(key) {
        Some(ConfigValue::Int(x)) => *x,
        Some(ConfigValue::Text(s)) => {
            let st = s.as_str();
            let n = st.unicode_len();
            if n >= 2 {
                let unit = substr_to_string(st, n - 2, n);
                let prefix = substr_to_string(st, 0, n - 2);
                if str_eq(unit.as_str(), "Kb") {
                    let base = match parse_u64(prefix.as_str()) {
                        Some(z) => z,
                        None => LOG_DEFAULT_SIZE / 1000000,
                    };
                    return mul_capped_exec(base, 1000);
                }
                if str_eq(unit.as_str(), "Mb") {
                    let base = match parse_u64(prefix.as_str()) {
                        Some(z) => z,
                        None => LOG_DEFAULT_SIZE / 1000,
                    };
                    return mul_capped_exec(base, 1000000);
                }
                if str_eq(unit.as_str(), "Gb") {
                    let base = match parse_u64(prefix.as_str()) {
                        Some(z) => z,
                        None => LOG_DEFAULT_SIZE / 1000000000,
                    };
                    return mul_capped_exec(base, 1000000000);
                }
            }
            match parse_u64(st) {
                Some(z) => z,
                None => LOG_DEFAULT_SIZE,
            }
        },
        None => LOG_DEFAULT_SIZE,
    }
}

/// The verbosity the configuration asks for; unknown or missing settings
/// mean the default of warnings only.
pub open spec fn spec_log_level(cfg: ConfigMap) -> LogLevel {
    match cfg.spec_get("CREDMON_OAUTH_DEBUG"@) {
        Some(ConfigValue::Text(s)) => if s@ == "D_ALWAYS"@ {
            LogLevel::Warn
        } else if s@ == "D_FULLDEBUG"@ {
            LogLevel::Info
        } else if s@ == "D_ALL"@ || s@ == "D_ANY"@ {
            LogLevel::Debug
        } else {
            LogLevel::Warn
        },
        _ => LogLevel::Warn,
    }
}

/// Reads the verbosity setting.
pub fn get_log_level(config: &ConfigMap) -> (r: LogLevel)
    ensures
        r == spec_log_level(*config),
{
    match config.get("CREDMON_OAUTH_DEBUG") {
        Some(ConfigValue::Text(s)) => {
            let st = s.as_str();
            if str_eq(st, "D_ALWAYS") {
                LogLevel::Warn
            } else if str_eq(st, "D_FULLDEBUG") {
                LogLevel::Info
            } else if str_eq(st, "D_ALL") || str_eq(st, "D_ANY") {
                LogLevel::Debug
            } else {
                LogLevel::Warn
            }
        },
        _ => LogLevel::Warn,
    }
}

/// What file-based logging is set up with: the log path, the size that
/// triggers rotation, how many rotated files are kept, and the verbosity.
pub struct LogSettings {
    pub path: String,
    pub size: u64,
    pub rotations: u32,
    pub level: LogLevel,
}

/// The number of rotated files the configuration asks for, reduced modulo
/// the 32-bit range as the sink takes it.
pub open spec fn spec_log_rotations(cfg: ConfigMap) -> u32 {
    match cfg.spec_get("MAX_NUM_CREDMON_OAUTH_LOG"@) {
        Some(v) => match spec_coerce_to_int(v) {
            Some(x) => (x % 0x100000000) as u32,
            None => LOG_DEFAULT_ROTATIONS,
        },
        None => LOG_DEFAULT_ROTATIONS,
    }
}

/// The configured log path, if the setting holds text.
pub open spec fn spec_log_path(cfg: ConfigMap) -> Option<Seq<char>> {
    match cfg.spec_get("CREDMON_OAUTH_LOG"@) {
        Some(ConfigValue::Text(s)) => Some(s@),
        _ => None,
    }
}

/// Collects everything file-based logging is set up with. The default path
/// is used when none is configured.
pub fn file_log_settings(config: &ConfigMap) -> (r: LogSettings)
    ensures
        r.size == spec_get_size(*config, "MAX_CREDMON_OAUTH_LOG"@),
        r.rotations == spec_log_rotations(*config),
        r.level == spec_log_level(*config),
        match spec_log_path(*config) {
            Some(p) => r.path@ == p,
            None => r.path@ == "/var/log/condor/CredMonOAuthLog"@,
        },
{
    let size = get_size(config, "MAX_CREDMON_OAUTH_LOG");
    let level = get_log_level(config);
    let rotations: u32 = match config.get("MAX_NUM_CREDMON_OAUTH_LOG") {
        Some(v) => match coerce_to_int(v) {
            Ok(x) => (x % 0x100000000) as u32,
            Err(_) => LOG_DEFAULT_ROTATIONS,
        },
        None => LOG_DEFAULT_ROTATIONS,
    };
    let path = match config.get("CREDMON_OAUTH_LOG") {
        Some(ConfigValue::Text(s)) => s.clone(),
        _ => String::from_str("/var/log/condor/CredMonOAuthLog"),
    };
    LogSettings { path, size, rotations, level }
}

} // verus!
