//! The compute side of the token exchange: the grant values handed back by
//! the provider as plain data, the form parameters of the exchange request,
//! and the records a successful grant persists. The network calls themselves
//! stay with the caller.

use vstd::prelude::*;

use crate::data::{AccessFile, ClientInfo, RefreshFile};
use crate::error::CredmonError;

verus! {

/// The extra field the token-exchange response carries beyond the standard
/// ones.
pub struct CustomTokenExtraFields {
    pub issued_token_type: String,
}

/// A token grant as plain values: what a successful exchange, client
/// credentials or refresh response contains.
pub struct TokenGrant {
    pub access_token: String,
    pub token_type: String,
    pub expires_in: Option<u64>,
    pub refresh_token: Option<String>,
    pub scopes: Option<Vec<String>>,
}

/// The access-token lifetime assumed when the grant does not state one.
pub const DEFAULT_EXPIRES_IN: u64 = 600;

/// The lifetime in seconds a grant promises, or the default.
pub open spec fn spec_grant_expires_in(g: TokenGrant) -> u64 {
    match g.expires_in {
        Some(e) => e,
        None => DEFAULT_EXPIRES_IN,
    }
}

/// The scope names a grant carries, or none.
pub open spec fn spec_grant_scopes(g: TokenGrant) -> Seq<Seq<char>> {
    match g.scopes {
        Some(v) => v@.map_values(|s: String| s@),
        None => Seq::empty(),
    }
}

/// `xs` joined with single spaces.
pub open spec fn join_spaces(xs: Seq<Seq<char>>) -> Seq<char>
    decreases xs.len(),
{
    if xs.len() == 0 {
        Seq::empty()
    } else if xs.len() == 1 {
        xs[0]
    } else {
        join_spaces(xs.drop_last()) + seq![' '] + xs.last()
    }
}

/// Joins scope names with single spaces.
fn join_with_spaces(v: &Vec<String>) -> (r: String)
    ensures
        r@ == join_spaces(v@.map_values(|s: String| s@)),
{
    let ghost xs = v@.map_values(|s: String| s@);
    let mut out = String::new();
    let mut i: usize = 0;
    while i < v.len()
        invariant
            i <= v@.len(),
            xs == v@.map_values(|s: String| s@),
            out@ =~= join_spaces(xs.take(i as int)),
        decreases v@.len() - i,
    {
        if i > 0 {
            proof {
                reveal_strlit(" ");
                assert(" "@ =~= seq![' ']);
            }
            out.append(" ");
        }
        out.append(v[i].as_str());
        proof {
            assert(xs[i as int] == v@[i as int]@);
            assert(xs.take(i + 1).drop_last() =~= xs.take(i as int));
            assert(xs.take(i + 1).last() == xs[i as int]);
        }
        i = i + 1;
    }
    proof {
        assert(xs.take(xs.len() as int) =~= xs);
    }
    out
}

/// Builds the two records a successful grant persists: the Refresh Record
/// with the new refresh token and the space-joined scopes, and the Access
/// Record with the token, its granted lifetime, and the absolute expiry
/// `now + lifetime`. A grant without a refresh token cannot be persisted and
/// is reported as `MissingRefreshToken`.
pub fn build_records(grant: &TokenGrant, now: u64) -> (r: Result<
    (RefreshFile, AccessFile),
    CredmonError,
>)
    requires
        now + spec_grant_expires_in(*grant) <= u64::MAX,
    ensures
        match grant.refresh_token {
            None => r matches Err(e) && e is MissingRefreshToken,
            Some(rt) => r matches Ok(p) && {
                &&& p.0.refresh_token@ == rt@
                &&& p.0.scopes@ == join_spaces(spec_grant_scopes(*grant))
                &&& p.1.access_token@ == grant.access_token@
                &&& p.1.token_type@ == grant.token_type@
                &&& p.1.expires_in == spec_grant_expires_in(*grant)
                &&& p.1.expires_at == now + spec_grant_expires_in(*grant)
                &&& p.1.scope@.map_values(|s: String| s@) == spec_grant_scopes(*grant)
            },
        },
{
    let refresh_token = match &grant.refresh_token {
        Some(rt) => rt.clone(),
        None => {
            return Err(
                CredmonError::MissingRefreshToken(
                    String::from_str("grant did not return a refresh token"),
                ),
            );
        },
    };
    let scope: Vec<String> = match &grant.scopes {
        Some(v) => v.clone(),
        None => Vec::new(),
    };
    proof {
        assert(scope@.map_values(|s: String| s@) =~= spec_grant_scopes(*grant));
    }
    let scopes = join_with_spaces(&scope);
    let expires_in = match grant.expires_in {
        Some(e) => e,
        None => DEFAULT_EXPIRES_IN,
    };
    let refresh_file = RefreshFile { refresh_token, scopes };
    let access_file = AccessFile {
        access_token: grant.access_token.clone(),
        token_type: grant.token_type.clone(),
        expires_in,
        expires_at: now + expires_in,
        scope,
    };
    Ok((refresh_file, access_file))
}

/// Checks that a grant carries the refresh token the credential store needs;
/// one without it is reported as `MissingRefreshToken`.
pub fn require_refresh_token(grant: TokenGrant) -> (r: Result<TokenGrant, CredmonError>)
    ensures
        match grant.refresh_token {
            Some(_) => r == Ok::<TokenGrant, CredmonError>(grant),
            None => r matches Err(e) && e is MissingRefreshToken,
        },
{
    match &grant.refresh_token {
        Some(_) => Ok(grant),
        None => Err(
            CredmonError::MissingRefreshToken(
                String::from_str("token exchange did not return a refresh token"),
            ),
        ),
    }
}

/// The form parameters of the token-exchange request: the fixed grant and
/// token types, the audience and subject, and the requested scopes.
pub fn token_exchange_params(info: &ClientInfo, subject_token: &str, username: &str, scopes: &str)
    -> (r: Vec<(String, String)>)
    ensures
        r@.len() == 7,
        r@[0].0@ == "grant_type"@ && r@[0].1@
            == "urn:ietf:params:oauth:grant-type:token-exchange"@,
        r@[1].0@ == "audience"@ && r@[1].1@ == info.client_id@,
        r@[2].0@ == "subject_token"@ && r@[2].1@ == subject_token@,
        r@[3].0@ == "subject_token_type"@ && r@[3].1@
            == "urn:ietf:params:oauth:token-type:access_token"@,
        r@[4].0@ == "requested_token_type"@ && r@[4].1@
            == "urn:ietf:params:oauth:token-type:refresh_token"@,
        r@[5].0@ == "requested_subject"@ && r@[5].1@ == username@,
        r@[6].0@ == "scope"@ && r@[6].1@ == scopes@,
{
    let mut params: Vec<(String, String)> = Vec::new();
    params.push(
        (
            String::from_str("grant_type"),
            String::from_str("urn:ietf:params:oauth:grant-type:token-exchange"),
        ),
    );
    params.push((String::from_str("audience"), info.client_id.clone()));
    params.push((String::from_str("subject_token"), subject_token.to_owned()));
    params.push(
        (
            String::from_str("subject_token_type"),
            String::from_str("urn:ietf:params:oauth:token-type:access_token"),
        ),
    );
    params.push(
        (
            String::from_str("requested_token_type"),
            String::from_str("urn:ietf:params:oauth:token-type:refresh_token"),
        ),
    );
    params.push((String::from_str("requested_subject"), username.to_owned()));
    params.push((String::from_str("scope"), scopes.to_owned()));
    params
}

} // verus!
