//! Credential refresh scheduler for a tree of OAuth2/OIDC tokens kept on disk.
//!
//! The library holds the verified core of a credential-monitor daemon: the
//! on-disk record codec, the expiry policy, the provider resolver with its
//! handle fallback rule, the scan planner and the scheduler state machine.
//! Network exchanges, signal handling and file input/output live outside the
//! library and hand it plain values.

pub mod codec;
pub mod config;
pub mod data;
pub mod error;
pub mod exchange;
pub mod logging;
pub mod refresh;
pub mod scheduler;
pub mod strutil;
