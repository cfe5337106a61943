//! Token claims and signing keys.  Claims assert a user's identity, role
//! and token kind and carry a fixed 24-hour expiry; the key pair is
//! derived from one shared secret.

use vstd::prelude::*;

use crate::user::{Role, UserEntity};

verus! {

/// Seconds a freshly issued token stays valid.
pub const TOKEN_TTL_SECS: i64 = 86400;

#[derive(Debug, Clone, Copy, PartialEq, Eq, Structural)]
pub enum TokenType {
    AccessToken,
    RefreshToken,
}

/// The verified payload of a signed token.
#[derive(Debug)]
pub struct Claims {
    pub email: String,
    pub role: Role,
    pub id: i64,
    pub exp: i64,
    pub token_type: TokenType,
}

/// The mathematical image of a `Claims` value.
pub struct ClaimsV {
    pub email: Seq<char>,
    pub role: Role,
    pub id: int,
    pub exp: int,
    pub token_type: TokenType,
}

impl View for Claims {
    type V = ClaimsV;

    open spec fn view(&self) -> ClaimsV {
        ClaimsV {
            email: self.email@,
            role: self.role,
            id: self.id as int,
            exp: self.exp as int,
            token_type: self.token_type,
        }
    }
}

/// The request body of the refresh endpoint.
#[derive(Debug)]
pub struct TokeRefresh {
    pub refresh_token: String,
}

/// The claims issued for a user at a given time: identity copied, expiry
/// a fixed term ahead.
pub open spec fn claims_of(user: UserEntity, token_type: TokenType, now: int) -> ClaimsV {
    ClaimsV {
        email: user.email@,
        role: user.role,
        id: user.id as int,
        exp: now + TOKEN_TTL_SECS,
        token_type: token_type,
    }
}

impl Claims {
    /// Builds the claims for a user: identity and role are taken over,
    /// the expiry is set a fixed term after `now`.
    pub fn from(user: &UserEntity, token_type: TokenType, now: i64) -> (r: Self)
        requires
            now + TOKEN_TTL_SECS <= i64::MAX,
        ensures
            r@ == claims_of(*user, token_type, now as int),
    {
        Self {
            email: user.email.clone(),
            role: user.role,
            id: user.id,
            exp: now + TOKEN_TTL_SECS,
            token_type,
        }
    }
}

/// The signing secret, shared by token issue and validation.
#[derive(Clone)]
pub struct Keys {
    secret: Vec<u8>,
}

impl View for Keys {
    type V = Seq<u8>;

    closed spec fn view(&self) -> Seq<u8> {
        self.secret@
    }
}

impl Keys {
    pub fn new(secret: &str) -> (r: Self)
        ensures
            r@ == vstd::utf8::encode_utf8(secret@),
    {
        Self { secret: secret.as_bytes_vec() }
    }

    pub fn secret_bytes(&self) -> (r: &Vec<u8>)
        ensures
            r@ == self@,
    {
        &self.secret
    }
}

} // verus!
