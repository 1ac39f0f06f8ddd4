//! Onshape API credentials.
use vstd::prelude::*;
use crate::hexcolor::{trim, trim_chars};
use crate::strings::{chars_of, string_of};

verus! {

/// An Onshape access key and secret key, each trimmed and non-empty.
pub struct Credentials {
    access_key: String,
    secret_key: String,
}

/// Why credentials were rejected.
#[derive(Debug, Clone, Copy, PartialEq, Eq, Structural)]
pub enum CredentialsError {
    EmptyAccessKey,
    EmptySecretKey,
}

impl CredentialsError {
    /// The text that reports this error.
    pub fn message(&self) -> (m: &'static str)
        ensures
            m@ == match self {
                CredentialsError::EmptyAccessKey => "Onshape access key cannot be empty"@,
                CredentialsError::EmptySecretKey => "Onshape secret key cannot be empty"@,
            },
    {
        match self {
            CredentialsError::EmptyAccessKey => "Onshape access key cannot be empty",
            CredentialsError::EmptySecretKey => "Onshape secret key cannot be empty",
        }
    }
}

impl Credentials {
    pub closed spec fn access(&self) -> Seq<char> {
        self.access_key@
    }

    pub closed spec fn secret(&self) -> Seq<char> {
        self.secret_key@
    }

    /// Credentials from the two keys, with surrounding whitespace removed.
    pub fn new(access_key: String, secret_key: String) -> (r: Result<Credentials, CredentialsError>)
        ensures
            trim(access_key@).len() == 0 ==> r == Err::<Credentials, CredentialsError>(
                CredentialsError::EmptyAccessKey,
            ),
            trim(access_key@).len() > 0 && trim(secret_key@).len() == 0 ==> r == Err::<
                Credentials,
                CredentialsError,
            >(CredentialsError::EmptySecretKey),
            trim(access_key@).len() > 0 && trim(secret_key@).len() > 0 ==> (r matches Ok(c)
                && c.access() == trim(access_key@) && c.secret() == trim(secret_key@)),
    {
        let access = trim_chars(&chars_of(access_key.as_str()));
        let secret = trim_chars(&chars_of(secret_key.as_str()));
        if access.len() == 0 {
            return Err(CredentialsError::EmptyAccessKey);
        }
        if secret.len() == 0 {
            return Err(CredentialsError::EmptySecretKey);
        }
        Ok(Credentials { access_key: string_of(&access), secret_key: string_of(&secret) })
    }

    /// The access key.
    pub fn access_key(&self) -> (r: &str)
        ensures
            r@ == self.access(),
    {
        self.access_key.as_str()
    }

    /// The secret key.
    pub fn secret_key(&self) -> (r: &str)
        ensures
            r@ == self.secret(),
    {
        self.secret_key.as_str()
    }
}

} // verus!
