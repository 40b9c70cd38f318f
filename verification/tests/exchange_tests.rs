use condor_credmon::data::ClientInfo;
use condor_credmon::error::CredmonError;
use condor_credmon::exchange::{
    build_records, require_refresh_token, token_exchange_params, TokenGrant,
};

fn grant() -> TokenGrant {
    TokenGrant {
        access_token: String::from("at"),
        token_type: String::from("Bearer"),
        expires_in: Some(1800),
        refresh_token: Some(String::from("rt")),
        scopes: Some(vec![String::from("read"), String::from("write")]),
    }
}

#[test]
fn test_build_records_fields() {
    let now: u64 = 1_700_000_000;
    let (refresh, access) = build_records(&grant(), now).unwrap();
    assert_eq!(refresh.refresh_token, "rt");
    assert_eq!(refresh.scopes, "read write");
    assert_eq!(access.access_token, "at");
    assert_eq!(access.token_type, "Bearer");
    assert_eq!(access.expires_in, 1800);
    assert_eq!(access.expires_at, now + 1800);
    assert_eq!(access.scope, vec![String::from("read"), String::from("write")]);
}

#[test]
fn test_build_records_defaults() {
    let now: u64 = 1_700_000_000;
    let g = TokenGrant {
        access_token: String::from("at"),
        token_type: String::from("Bearer"),
        expires_in: None,
        refresh_token: Some(String::from("rt")),
        scopes: None,
    };
    let (refresh, access) = build_records(&g, now).unwrap();
    assert_eq!(refresh.scopes, "");
    assert_eq!(access.expires_in, 600);
    assert_eq!(access.expires_at, now + 600);
    assert!(access.scope.is_empty());
}

#[test]
fn test_build_records_missing_refresh_token() {
    let now: u64 = 1_700_000_000;
    let mut g = grant();
    g.refresh_token = None;
    let e = build_records(&g, now).err().unwrap();
    assert!(e.message().contains("MissingRefreshToken"));
}

#[test]
fn test_require_refresh_token() {
    assert!(require_refresh_token(grant()).is_ok());
    let mut g = grant();
    g.refresh_token = None;
    let e = require_refresh_token(g).err().unwrap();
    assert!(e.message().contains("MissingRefreshToken"));
}

#[test]
fn test_token_exchange_params() {
    let info = ClientInfo {
        issuer_url: String::from("https://issuer.example"),
        client_id: String::from("the-client"),
        client_secret: String::from("hush"),
    };
    let params = token_exchange_params(&info, "subject-at", "alice", "read write");
    assert_eq!(params.len(), 7);
    assert_eq!(
        params[0],
        (
            String::from("grant_type"),
            String::from("urn:ietf:params:oauth:grant-type:token-exchange")
        )
    );
    assert_eq!(params[1], (String::from("audience"), String::from("the-client")));
    assert_eq!(params[2], (String::from("subject_token"), String::from("subject-at")));
    assert_eq!(
        params[3],
        (
            String::from("subject_token_type"),
            String::from("urn:ietf:params:oauth:token-type:access_token")
        )
    );
    assert_eq!(
        params[4],
        (
            String::from("requested_token_type"),
            String::from("urn:ietf:params:oauth:token-type:refresh_token")
        )
    );
    assert_eq!(params[5], (String::from("requested_subject"), String::from("alice")));
    assert_eq!(params[6], (String::from("scope"), String::from("read write")));
}

#[test]
fn test_error_messages() {
    assert_eq!(
        CredmonError::ArgumentError(String::from("detail")).message(),
        "ArgumentError: detail"
    );
    assert_eq!(
        CredmonError::DiscoveryError(String::from("x")).message(),
        "DiscoveryError: x"
    );
    assert_eq!(
        CredmonError::ConfigError(String::from("x")).message(),
        "ConfigError: x"
    );
    assert_eq!(
        CredmonError::GenericError(String::from("x")).message(),
        "GenericError: x"
    );
}
