//! The error taxonomy shared by every component, together with the HTTP
//! status and message each error is reported with.

use vstd::prelude::*;

verus! {

/// Everything that can go wrong while authenticating, registering users or
/// relaying frames.  Storage failures carry the backend's own description.
#[derive(Debug, Clone)]
pub enum AppError {
    InvalidToken,
    MissingToken,
    NotRefreshToken,
    NotAccessToken,
    InsufficientPermission,
    WrongCredential,
    MissingCredential,
    TokenCreation,
    InternalServerError,
    UserDoesNotExist,
    UserAlreadyExits,
    AlreadyConnected,
    DatabaseError(String),
}

impl AppError {
    /// The HTTP status code each error is answered with.
    pub open spec fn status_spec(self) -> u16 {
        match self {
            AppError::InternalServerError => 500,
            AppError::InvalidToken => 400,
            AppError::MissingToken => 400,
            AppError::MissingCredential => 400,
            AppError::TokenCreation => 500,
            AppError::WrongCredential => 401,
            AppError::UserDoesNotExist => 401,
            AppError::UserAlreadyExits => 400,
            AppError::DatabaseError(_) => 500,
            AppError::InsufficientPermission => 403,
            AppError::NotAccessToken => 400,
            AppError::NotRefreshToken => 400,
            AppError::AlreadyConnected => 400,
        }
    }

    /// The message each error is reported with.  An expired and a forged
    /// token share one message on purpose: no detail is leaked.
    pub open spec fn message_spec(self) -> Seq<char> {
        match self {
            AppError::InternalServerError => "an internal server error occured"@,
            AppError::InvalidToken => "invalid token"@,
            AppError::MissingToken => "missing token"@,
            AppError::MissingCredential => "missing credential"@,
            AppError::TokenCreation => "failed to create token"@,
            AppError::WrongCredential => "wrong credentials"@,
            AppError::UserDoesNotExist => "User does not exist"@,
            AppError::UserAlreadyExits => "User already exists"@,
            AppError::DatabaseError(s) => s@,
            AppError::InsufficientPermission => "insufficient permission"@,
            AppError::NotAccessToken => "not an access token"@,
            AppError::NotRefreshToken => "not a refresh token"@,
            AppError::AlreadyConnected => "already connected"@,
        }
    }

    pub fn status_code(&self) -> (r: u16)
        ensures
            r == self.status_spec(),
    {
        match self {
            AppError::InternalServerError => 500,
            AppError::InvalidToken => 400,
            AppError::MissingToken => 400,
            AppError::MissingCredential => 400,
            AppError::TokenCreation => 500,
            AppError::WrongCredential => 401,
            AppError::UserDoesNotExist => 401,
            AppError::UserAlreadyExits => 400,
            AppError::DatabaseError(_) => 500,
            AppError::InsufficientPermission => 403,
            AppError::NotAccessToken => 400,
            AppError::NotRefreshToken => 400,
            AppError::AlreadyConnected => 400,
        }
    }

    pub fn message<'a>(&'a self) -> (r: &'a str)
        ensures
            r@ == self.message_spec(),
    {
        match self {
            AppError::InternalServerError => "an internal server error occured",
            AppError::InvalidToken => "invalid token",
            AppError::MissingToken => "missing token",
            AppError::MissingCredential => "missing credential",
            AppError::TokenCreation => "failed to create token",
            AppError::WrongCredential => "wrong credentials",
            AppError::UserDoesNotExist => "User does not exist",
            AppError::UserAlreadyExits => "User already exists",
            AppError::DatabaseError(s) => s.as_str(),
            AppError::InsufficientPermission => "insufficient permission",
            AppError::NotAccessToken => "not an access token",
            AppError::NotRefreshToken => "not a refresh token",
            AppError::AlreadyConnected => "already connected",
        }
    }
}

} // verus!
