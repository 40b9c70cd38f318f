//! The configuration snapshot: a key/value map of plain values, and the
//! process-wide cache object that holds at most one snapshot at a time.
//!
//! The snapshot itself is produced outside the library (the configuration
//! source is an external key/value provider); the library only reads it.

use vstd::prelude::*;

use crate::error::CredmonError;
use crate::strutil::{parse_u64, spec_parse_u64};

verus! {

/// A configuration value: the provider hands back either a number or a piece
/// of text.
pub enum ConfigValue {
    Int(u64),
    Text(String),
}

/// A configuration snapshot: keys to values, where a later insertion of the
/// same key replaces the earlier one.
pub struct ConfigMap {
    entries: Vec<(String, ConfigValue)>,
}

/// The value the last entry of `entries` with key `k` holds, if any.
pub open spec fn lookup(entries: Seq<(String, ConfigValue)>, k: Seq<char>) -> Option<ConfigValue>
    decreases entries.len(),
{
    if entries.len() == 0 {
        None
    } else if entries.last().0@ == k {
        Some(entries.last().1)
    } else {
        lookup(entries.drop_last(), k)
    }
}

impl ConfigMap {
    /// The value stored under key `k`, if any.
    pub closed spec fn spec_get(self, k: Seq<char>) -> Option<ConfigValue> {
        lookup(self.entries@, k)
    }

    /// An empty snapshot.
    pub fn new() -> (r: ConfigMap)
        ensures
            forall|k: Seq<char>| r.spec_get(k) is None,
    {
        ConfigMap { entries: Vec::new() }
    }

    /// Stores `value` under `key`, replacing any earlier value.
    pub fn insert(&mut self, key: String, value: ConfigValue)
        ensures
            final(self).spec_get(key@) == Some(value),
            forall|k: Seq<char>|
                k != key@ ==> final(self).spec_get(k) == old(self).spec_get(k),
    {
        let ghost pre = self.entries@;
        self.entries.push((key, value));
        proof {
            assert(self.entries@.drop_last() =~= pre);
        }
    }

    /// Looks up `key` in the snapshot.
    pub fn get(&self, key: &str) -> (r: Option<&ConfigValue>)
        ensures
            match r {
                Some(v) => self.spec_get(key@) == Some(*v),
                None => self.spec_get(key@) is None,
            },
    {
        let mut i = self.entries.len();
        assert(self.entries@.take(i as int) =~= self.entries@);
        while i > 0
            invariant
                i <= self.entries.len(),
                lookup(self.entries@, key@) == lookup(self.entries@.take(i as int), key@),
            decreases i,
        {
            i = i - 1;
            proof {
                assert(self.entries@.take(i + 1).last() == self.entries@[i as int]);
                assert(self.entries@.take(i + 1).drop_last() =~= self.entries@.take(i as int));
            }
            if crate::strutil::str_eq(self.entries[i].0.as_str(), key) {
                return Some(&self.entries[i].1);
            }
        }
        None
    }
}

/// The integer a configuration value denotes: a number as it is, text by
/// decimal parsing; `None` when neither reads as an integer.
pub open spec fn spec_coerce_to_int(v: ConfigValue) -> Option<u64> {
    match v {
        ConfigValue::Int(x) => Some(x),
        ConfigValue::Text(s) => spec_parse_u64(s@),
    }
}

/// Converts a configuration value to an integer: a number is taken as it is,
/// text is parsed as a decimal; anything else is a configuration error.
pub fn coerce_to_int(val: &ConfigValue) -> (r: Result<u64, CredmonError>)
    ensures
        match spec_coerce_to_int(*val) {
            Some(x) => r == Ok::<u64, CredmonError>(x),
            None => r matches Err(e) && e is ConfigError,
        },
{
    match val {
        ConfigValue::Int(x) => Ok(*x),
        ConfigValue::Text(s) => match parse_u64(s.as_str()) {
            Some(x) => Ok(x),
            None => Err(CredmonError::ConfigError(String::from_str("not an integer"))),
        },
    }
}

/// The process-wide configuration cache: it holds the current snapshot, if
/// one has been loaded, and can be invalidated so that the next reader
/// recomputes it.
pub struct ConfigCache {
    snapshot: Option<ConfigMap>,
}

impl ConfigCache {
    /// The cached snapshot, if any.
    pub closed spec fn spec_snapshot(self) -> Option<ConfigMap> {
        self.snapshot
    }

    /// A cache with no snapshot loaded.
    pub fn new() -> (r: ConfigCache)
        ensures
            r.spec_snapshot() is None,
    {
        ConfigCache { snapshot: None }
    }

    /// The current snapshot, if one is cached.
    pub fn cached(&self) -> (r: Option<&ConfigMap>)
        ensures
            match r {
                Some(m) => self.spec_snapshot() == Some(*m),
                None => self.spec_snapshot() is None,
            },
    {
        match &self.snapshot {
            Some(m) => Some(m),
            None => None,
        }
    }

    /// Installs a freshly computed snapshot.
    pub fn store(&mut self, snapshot: ConfigMap)
        ensures
            final(self).spec_snapshot() == Some(snapshot),
    {
        self.snapshot = Some(snapshot);
    }

    /// Drops the cached snapshot; the next reader recomputes it.
    pub fn invalidate(&mut self)
        ensures
            final(self).spec_snapshot() is None,
    {
        self.snapshot = None;
    }
}

/// Forces the next configuration read to recompute the snapshot.
pub fn reload_config(cache: &mut ConfigCache)
    ensures
        final(cache).spec_snapshot() is None,
{
    cache.invalidate()
}

} // verus!
