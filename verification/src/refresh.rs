//! The expiry policy and the per-credential renewal planner: pure decisions
//! over records, configuration and the clock; file and network work stays
//! with the caller.

use vstd::prelude::*;

use crate::config::{spec_coerce_to_int, coerce_to_int, ConfigMap};
use crate::data::{
    fallback_id, good_text, provider_resolves, resolve_provider, spec_resolves, text_of,
    AccessFile, ProviderConfig, RefreshFile,
};
use crate::error::CredmonError;
use crate::strutil::str_eq;

verus! {

/// The renewal floor used when `CREDMON_OAUTH_TOKEN_MINIMUM` is not set:
/// renew whatever expires within this many seconds.
pub const TOKEN_MINIMUM_EXPIRATION: u64 = 60;

/// Whether a credential needs renewal: always when no access record exists,
/// else exactly when fewer than `exp_min` seconds of validity remain at
/// `now` (both in epoch seconds).
pub open spec fn spec_needs_renewal(access: Option<AccessFile>, exp_min: u64, now: u64) -> bool {
    match access {
        None => true,
        Some(a) => a.expires_at - exp_min <= now,
    }
}

/// The expiry policy spelled out: a present record forces renewal exactly
/// when its remaining lifetime is below the floor, and an absent record
/// always does.
pub proof fn lemma_needs_renewal(a: AccessFile, exp_min: u64, now: u64)
    ensures
        spec_needs_renewal(Some(a), exp_min, now) <==> a.expires_at - exp_min <= now,
        spec_needs_renewal(None, exp_min, now),
{
}

/// Decides whether the access record is stale enough to renew.
pub fn is_access_expired(access: &Option<AccessFile>, exp_min: u64, now: u64) -> (r: bool)
    ensures
        r == spec_needs_renewal(*access, exp_min, now),
{
    match access {
        None => true,
        Some(a) => !(a.expires_at as u128 > exp_min as u128 + now as u128),
    }
}

/// The configured renewal floor, or its default; `None` means the configured
/// value cannot be read as an integer.
pub open spec fn spec_token_min(cfg: ConfigMap) -> Option<u64> {
    match cfg.spec_get("CREDMON_OAUTH_TOKEN_MINIMUM"@) {
        Some(v) => spec_coerce_to_int(v),
        None => Some(TOKEN_MINIMUM_EXPIRATION),
    }
}

/// Reads the renewal floor from configuration.
fn token_min(config: &ConfigMap) -> (r: Result<u64, CredmonError>)
    ensures
        match spec_token_min(*config) {
            Some(m) => r == Ok::<u64, CredmonError>(m),
            None => r matches Err(e) && e is ConfigError,
        },
{
    match config.get("CREDMON_OAUTH_TOKEN_MINIMUM") {
        Some(v) => coerce_to_int(v),
        None => Ok(TOKEN_MINIMUM_EXPIRATION),
    }
}

/// Decides whether the credential whose access record is `access` must be
/// renewed now, under the configured renewal floor.
pub fn should_refresh(access: &Option<AccessFile>, config: &ConfigMap, now: u64) -> (r: Result<
    bool,
    CredmonError,
>)
    ensures
        match spec_token_min(*config) {
            Some(m) => r == Ok::<bool, CredmonError>(spec_needs_renewal(*access, m, now)),
            None => r matches Err(e) && e is ConfigError,
        },
{
    let exp_min = match token_min(config) {
        Ok(m) => m,
        Err(e) => {
            return Err(e);
        },
    };
    Ok(is_access_expired(access, exp_min, now))
}

/// Whether `name` is a refresh-record file name.
pub open spec fn spec_is_refresh_name(name: Seq<char>) -> bool {
    name.len() >= 4 && name.subrange(name.len() - 4, name.len() as int) == ".top"@
}

/// Whether a directory entry's name marks a refresh record.
pub fn is_refresh_record_name(name: &str) -> (r: bool)
    ensures
        r == spec_is_refresh_name(name@),
{
    let n = name.unicode_len();
    if n < 4 {
        return false;
    }
    let suffix = name.substring_char(n - 4, n);
    str_eq(suffix, ".top")
}

/// The credential identifier (`provider` or `provider_handle`) encoded in a
/// refresh-record file name: the name with its extension removed.
pub fn credential_identifier(name: &str) -> (r: String)
    requires
        spec_is_refresh_name(name@),
    ensures
        r@ == name@.take(name@.len() - 4),
{
    let n = name.unicode_len();
    crate::strutil::substr_to_string(name, 0, n - 4)
}

/// The access record's file name for a refresh record: the same name with
/// the extension replaced, never a different directory.
pub fn companion_access_name(name: &str) -> (r: String)
    requires
        spec_is_refresh_name(name@),
    ensures
        r@ == name@.take(name@.len() - 4) + ".use"@,
{
    let n = name.unicode_len();
    let stem = name.substring_char(0, n - 4);
    stem.to_owned().concat(".use")
}

/// One managed credential, as the scanner derives it from the store: the
/// owning account (the subdirectory's name), the provider, and the optional
/// handle that lets one account hold several credentials from the same
/// provider.
pub struct CredentialLocator {
    pub owner: String,
    pub provider: String,
    pub handle: Option<String>,
}

/// Derives the locator a refresh-record file name encodes. The part after
/// the last underscore is a handle only when the whole stem has no provider
/// settings of its own but the part before the underscore has; otherwise
/// the whole stem is the provider and there is no handle.
pub fn parse_locator(owner: String, file_name: &str, config: &ConfigMap) -> (r: CredentialLocator)
    requires
        spec_is_refresh_name(file_name@),
    ensures
        r.owner@ == owner@,
        ({
            let stem = file_name@.take(file_name@.len() - 4);
            let cut = crate::strutil::last_index_of(stem, '_');
            if !spec_resolves(stem, *config) && cut >= 0 && spec_resolves(
                stem.take(cut),
                *config,
            ) {
                r.provider@ == stem.take(cut) && (r.handle matches Some(h) && h@ == stem.skip(
                    cut + 1,
                ))
            } else {
                r.provider@ == stem && r.handle is None
            }
        }),
{
    let n = file_name.unicode_len();
    let stem = crate::strutil::substr_to_string(file_name, 0, n - 4);
    if !provider_resolves(stem.as_str(), config) {
        match crate::strutil::rfind_char(stem.as_str(), '_') {
            Some(cut) => {
                proof {
                    crate::strutil::lemma_last_index_of(stem@, '_');
                }
                let stem_len = stem.as_str().unicode_len();
                let provider = crate::strutil::substr_to_string(stem.as_str(), 0, cut);
                let handle = crate::strutil::substr_to_string(stem.as_str(), cut + 1, stem_len);
                if provider_resolves(provider.as_str(), config) {
                    return CredentialLocator { owner, provider, handle: Some(handle) };
                }
            },
            None => {},
        }
    }
    CredentialLocator { owner, provider: stem, handle: None }
}

/// What a scan pass does for one credential: leave it alone, or renew it
/// against its resolved provider using the stored refresh token.
pub enum RenewalAction {
    Skip,
    Renew { provider: ProviderConfig, refresh_token: String },
}

/// Plans one credential's renewal: evaluate the expiry policy under the
/// configured floor, and if renewal is due, resolve the provider settings
/// for the credential's identifier (with the handle fallback). The caller
/// performs the network exchange the plan asks for.
pub fn plan_credential(
    refresh: &RefreshFile,
    access: &Option<AccessFile>,
    identifier: &str,
    config: &ConfigMap,
    now: u64,
) -> (r: Result<RenewalAction, CredmonError>)
    ensures
        match spec_token_min(*config) {
            None => r matches Err(e) && e is ConfigError,
            Some(m) => {
                if !spec_needs_renewal(*access, m, now) {
                    r matches Ok(a) && a is Skip
                } else if spec_resolves(fallback_id(identifier@, *config), *config) {
                    r matches Ok(a) && a matches RenewalAction::Renew { provider: p, refresh_token: t }
                        && p.issuer_url@ == text_of(
                        config.spec_get(fallback_id(identifier@, *config) + "_ISSUER"@),
                    ) && p.client_id@ == text_of(
                        config.spec_get(fallback_id(identifier@, *config) + "_CLIENT_ID"@),
                    ) && p.client_secret_file@ == text_of(
                        config.spec_get(fallback_id(identifier@, *config) + "_CLIENT_SECRET_FILE"@),
                    ) && t@ == refresh.refresh_token@
                } else {
                    r matches Err(e) && (if !good_text(
                        config.spec_get(fallback_id(identifier@, *config) + "_ISSUER"@),
                    ) {
                        e is IssuerError
                    } else {
                        e is ConfigError
                    })
                }
            },
        },
{
    let due = match should_refresh(access, config, now) {
        Ok(b) => b,
        Err(e) => {
            return Err(e);
        },
    };
    if !due {
        return Ok(RenewalAction::Skip);
    }
    let provider = match resolve_provider(identifier, config) {
        Ok(p) => p,
        Err(e) => {
            return Err(e);
        },
    };
    Ok(
        RenewalAction::Renew {
            provider,
            refresh_token: refresh.refresh_token.clone(),
        },
    )
}

} // verus!
