//! Authentication with Google application default credentials.
//!
//! A token is obtained in steps. [`GoogleAuthManager`] says which steps these are, and what a
//! failure of each is reported as; the steps themselves are taken by the caller.
use vstd::prelude::*;

use crate::error::{Error, ErrorKind};
use crate::text::{join2, occurs_at, strip_leading, without_prefix};

verus! {

/// The credentials and scopes with which access tokens are requested.
#[derive(Clone, Debug)]
pub struct GoogleAuthManager {
    /// The content of a credentials file. Where it is absent, the credentials are those of the
    /// environment.
    pub credentials_json: Option<String>,
    /// The scopes of the token.
    pub scopes: Vec<String>,
}

/// A step on the way to an access token.
#[derive(Clone, Copy, Debug, PartialEq, Eq, Structural)]
pub enum TokenStep {
    /// Parse the given credentials.
    LoadCredentials,
    /// Make a token source of the parsed credentials.
    ConnectWithCredentials,
    /// Make a token source of the credentials of the environment.
    ConnectWithDefaults,
    /// Ask the token source for a token.
    RequestToken,
}

impl GoogleAuthManager {
    /// Creates a manager. Where no scopes are given, the scope is that of the cloud platform.
    pub fn new(credentials_json: Option<String>, scopes: Option<Vec<String>>) -> (manager: Self)
        ensures
            manager.credentials_json == credentials_json,
            match scopes {
                Some(s) => manager.scopes@ == s@,
                None => manager.scopes@.len() == 1 && manager.scopes@[0]@
                    == "https://www.googleapis.com/auth/cloud-platform"@,
            },
    {
        let scopes = match scopes {
            Some(scopes) => scopes,
            None => {
                let mut scopes: Vec<String> = Vec::new();
                scopes.push("https://www.googleapis.com/auth/cloud-platform".to_owned());
                scopes
            },
        };
        GoogleAuthManager { credentials_json, scopes }
    }

    /// The first step: given credentials are loaded, and those of the environment are connected
    /// with directly.
    pub fn first_step(&self) -> (step: TokenStep)
        ensures
            step == if self.credentials_json is Some {
                TokenStep::LoadCredentials
            } else {
                TokenStep::ConnectWithDefaults
            },
    {
        match &self.credentials_json {
            Some(_) => TokenStep::LoadCredentials,
            None => TokenStep::ConnectWithDefaults,
        }
    }
}

impl TokenStep {
    /// The step after one that succeeded, or `None` where the token is there.
    pub open spec fn successor(self) -> Option<TokenStep> {
        match self {
            TokenStep::LoadCredentials => Some(TokenStep::ConnectWithCredentials),
            TokenStep::ConnectWithCredentials => Some(TokenStep::RequestToken),
            TokenStep::ConnectWithDefaults => Some(TokenStep::RequestToken),
            TokenStep::RequestToken => None,
        }
    }

    /// The step after one that succeeded, or `None` where the token is there.
    pub fn next(self) -> (step: Option<TokenStep>)
        ensures
            step == self.successor(),
    {
        match self {
            TokenStep::LoadCredentials => Some(TokenStep::ConnectWithCredentials),
            TokenStep::ConnectWithCredentials => Some(TokenStep::RequestToken),
            TokenStep::ConnectWithDefaults => Some(TokenStep::RequestToken),
            TokenStep::RequestToken => None,
        }
    }

    /// What a failure of the step is reported as, before its cause.
    pub open spec fn complaint(self) -> Seq<char> {
        match self {
            TokenStep::LoadCredentials => "Failed to load Google credentials: "@,
            TokenStep::ConnectWithCredentials =>
                "Failed to initialize token source from credentials: "@,
            TokenStep::ConnectWithDefaults =>
                "Google ADC not configured. Set GOOGLE_APPLICATION_CREDENTIALS environment variable or configure a service account. Error: "@,
            TokenStep::RequestToken => "Failed to obtain Google access token: "@,
        }
    }

    /// The error that a failure of the step is reported as.
    pub fn failure(self, cause: &str) -> (error: Error)
        ensures
            error.says(ErrorKind::DataInvalid, self.complaint() + cause@),
    {
        let complaint = match self {
            TokenStep::LoadCredentials => "Failed to load Google credentials: ",
            TokenStep::ConnectWithCredentials => "Failed to initialize token source from credentials: ",
            TokenStep::ConnectWithDefaults =>
                "Google ADC not configured. Set GOOGLE_APPLICATION_CREDENTIALS environment variable or configure a service account. Error: ",
            TokenStep::RequestToken => "Failed to obtain Google access token: ",
        };
        Error::new(ErrorKind::DataInvalid, join2(complaint, cause))
    }
}

/// The access token in the value of an authorization header, which starts with `Bearer `. The
/// prefix is added again where the token is sent.
pub fn access_token(token: &str) -> (access: String)
    ensures
        access@ == without_prefix(token@, "Bearer "@),
{
    strip_leading(token, "Bearer ").to_owned()
}

/// Adding the prefix to the access token gives back the value that it was taken from, and a token
/// that has had the prefix added loses no more than that.
pub proof fn prefix_is_removed_once(token: Seq<char>)
    ensures
        occurs_at(token, "Bearer "@, 0) ==> "Bearer "@ + without_prefix(token, "Bearer "@) == token,
        without_prefix("Bearer "@ + token, "Bearer "@) == token,
{
    let prefix = "Bearer "@;
    if occurs_at(token, prefix, 0) {
        assert(prefix + without_prefix(token, prefix) =~= token);
    }
    assert((prefix + token).subrange(0, prefix.len() as int) =~= prefix);
    assert((prefix + token).skip(prefix.len() as int) =~= token);
}

}
