//! The closed error taxonomy of the credential monitor.

use vstd::prelude::*;

verus! {

/// One error class per failure kind the monitor distinguishes; each variant
/// carries the human-readable detail used for logging and diagnostics.
#[derive(Debug)]
pub enum CredmonError {
    ArgumentError(String),
    DiscoveryError(String),
    ClientCredenialsError(String),
    MissingRefreshToken(String),
    OAuthDirError(String),
    IssuerError(String),
    ConfigError(String),
    GenericError(String),
}

impl CredmonError {
    /// The message as it is logged: the variant name, a colon, the detail.
    pub open spec fn spec_message(&self) -> Seq<char> {
        match self {
            CredmonError::ArgumentError(d) => "ArgumentError: "@ + d@,
            CredmonError::DiscoveryError(d) => "DiscoveryError: "@ + d@,
            CredmonError::ClientCredenialsError(d) => "ClientCredenialsError: "@ + d@,
            CredmonError::MissingRefreshToken(d) => "MissingRefreshToken: "@ + d@,
            CredmonError::OAuthDirError(d) => "OAuthDirError: "@ + d@,
            CredmonError::IssuerError(d) => "IssuerError: "@ + d@,
            CredmonError::ConfigError(d) => "ConfigError: "@ + d@,
            CredmonError::GenericError(d) => "GenericError: "@ + d@,
        }
    }

    /// Renders the message that callers print or log.
    pub fn message(&self) -> (r: String)
        ensures
            r@ == self.spec_message(),
    {
        match self {
            CredmonError::ArgumentError(d) => String::from_str("ArgumentError: ").concat(d.as_str()),
            CredmonError::DiscoveryError(d) => String::from_str("DiscoveryError: ").concat(d.as_str()),
            CredmonError::ClientCredenialsError(d) => String::from_str("ClientCredenialsError: ").concat(d.as_str()),
            CredmonError::MissingRefreshToken(d) => String::from_str("MissingRefreshToken: ").concat(d.as_str()),
            CredmonError::OAuthDirError(d) => String::from_str("OAuthDirError: ").concat(d.as_str()),
            CredmonError::IssuerError(d) => String::from_str("IssuerError: ").concat(d.as_str()),
            CredmonError::ConfigError(d) => String::from_str("ConfigError: ").concat(d.as_str()),
            CredmonError::GenericError(d) => String::from_str("GenericError: ").concat(d.as_str()),
        }
    }
}

} // verus!
