//! The decision cores of the HTTP endpoints.  Each takes what the
//! storage layer has already looked up as plain values and says exactly
//! what is answered; the routing and the store itself stay outside.

use vstd::prelude::*;
use vstd::utf8::encode_utf8;

use crate::error::AppError;
use crate::jwt::{claims_of, Claims, ClaimsV, Keys, TokeRefresh, TokenType, TOKEN_TTL_SECS};
use crate::claims_json::claims_v_wf;
use crate::state::{user_clients, views_of, AppState};
use crate::user::{argon2_verify, Client, Role, UserCreate, UserEntity, UserLogin};
use crate::utils::{decode_token, encode_token, token_bytes};

verus! {

/// The body of a successful login or registration.
#[derive(Debug)]
pub struct LoginResponse {
    pub id: i64,
    pub message: String,
    pub role: Role,
    pub access_token: String,
    pub refresh_token: String,
}

pub struct AuthController {}

impl AuthController {
    /// The login decision for a user row the store may have found: an
    /// unknown email is refused, a failed password check is refused, and
    /// a verified user receives a fresh access and refresh token pair.
    pub fn login(user: Option<UserEntity>, payload: &UserLogin, keys: &Keys, now: i64) -> (r:
        Result<LoginResponse, AppError>)
        requires
            now + TOKEN_TTL_SECS <= i64::MAX,
        ensures
            match user {
                Option::None => r matches Result::Err(e) && e is UserDoesNotExist,
                Option::Some(u) => match argon2_verify(
                    u.password@,
                    encode_utf8(payload.password@),
                ) {
                    Option::Some(true) => r matches Result::Ok(resp) && resp.id == u.id
                        && resp.role == u.role && encode_utf8(resp.access_token@) == token_bytes(
                        claims_of(u, TokenType::AccessToken, now as int),
                        keys@,
                    ) && encode_utf8(resp.refresh_token@) == token_bytes(
                        claims_of(u, TokenType::RefreshToken, now as int),
                        keys@,
                    ),
                    _ => r matches Result::Err(e) && e is WrongCredential,
                },
            },
    {
        match user {
            Option::Some(user) => {
                let is_verified = match user.verify_password(payload.password.as_str().as_bytes()) {
                    Result::Ok(b) => b,
                    Result::Err(e) => {
                        return Result::Err(e);
                    },
                };
                if is_verified {
                    let access_token = match encode_token(
                        &user,
                        keys,
                        TokenType::AccessToken,
                        now,
                    ) {
                        Result::Ok(t) => t,
                        Result::Err(e) => {
                            return Result::Err(e);
                        },
                    };
                    let refresh_token = match encode_token(
                        &user,
                        keys,
                        TokenType::RefreshToken,
                        now,
                    ) {
                        Result::Ok(t) => t,
                        Result::Err(e) => {
                            return Result::Err(e);
                        },
                    };
                    return Result::Ok(
                        LoginResponse {
                            message: "User created successfully".to_owned(),
                            id: user.id,
                            role: user.role,
                            access_token,
                            refresh_token,
                        },
                    );
                }
                Result::Err(AppError::WrongCredential)
            },
            Option::None => Result::Err(AppError::UserDoesNotExist),
        }
    }
}

pub struct TokenController {}

impl TokenController {
    /// First half of the refresh flow: the presented token must validate
    /// and carry the refresh kind; an access token is refused.  A forged
    /// or expired token never passes: any claims handed out are the ones
    /// whose canonical signed token the presented one exactly is, and
    /// the kind-mismatch error only ever answers a valid, unexpired
    /// access token — an unauthenticated caller always gets the one
    /// invalid-token error.  The caller then loads the user the claims
    /// name.
    pub fn refresh_claims(payload: &TokeRefresh, keys: &Keys, now: i64) -> (r: Result<
        Claims,
        AppError,
    >)
        ensures
            r matches Result::Ok(c) ==> c@.exp >= now as int && c@.token_type is RefreshToken
                && claims_v_wf(c@) && encode_utf8(payload.refresh_token@) == token_bytes(c@, keys@),
            r matches Result::Err(e) ==> e is InvalidToken || e is NotRefreshToken,
            r matches Result::Err(e) ==> (e is NotRefreshToken ==> exists|c: ClaimsV|
                claims_v_wf(c) && encode_utf8(payload.refresh_token@) == #[trigger] token_bytes(
                    c,
                    keys@,
                ) && c.exp >= now as int && c.token_type is AccessToken),
            forall|c: ClaimsV|
                (claims_v_wf(c) && encode_utf8(payload.refresh_token@) == #[trigger] token_bytes(
                    c,
                    keys@,
                ) && c.exp >= now as int) ==> (if c.token_type is RefreshToken {
                    r matches Result::Ok(d) && d@ == c
                } else {
                    r matches Result::Err(e) && e is NotRefreshToken
                }),
    {
        let claims = match decode_token(payload.refresh_token.as_str(), keys, now) {
            Result::Ok(c) => c,
            Result::Err(e) => {
                return Result::Err(e);
            },
        };
        match claims.token_type {
            TokenType::AccessToken => {
                proof {
                    let w = claims@;
                    assert(claims_v_wf(w) && encode_utf8(payload.refresh_token@) == token_bytes(
                        w,
                        keys@,
                    ) && w.exp >= now as int && w.token_type is AccessToken);
                }
                Result::Err(AppError::NotRefreshToken)
            },
            TokenType::RefreshToken => Result::Ok(claims),
        }
    }

    /// Second half of the refresh flow: a fresh access and refresh pair
    /// for the user the store loaded.
    pub fn refresh_response(user: &UserEntity, keys: &Keys, now: i64) -> (r: Result<
        (String, String),
        AppError,
    >)
        requires
            now + TOKEN_TTL_SECS <= i64::MAX,
        ensures
            r matches Result::Ok(p) && encode_utf8(p.0@) == token_bytes(
                claims_of(*user, TokenType::AccessToken, now as int),
                keys@,
            ) && encode_utf8(p.1@) == token_bytes(
                claims_of(*user, TokenType::RefreshToken, now as int),
                keys@,
            ),
    {
        let access_token = match encode_token(user, keys, TokenType::AccessToken, now) {
            Result::Ok(t) => t,
            Result::Err(e) => {
                return Result::Err(e);
            },
        };
        let refresh_token = match encode_token(user, keys, TokenType::RefreshToken, now) {
            Result::Ok(t) => t,
            Result::Err(e) => {
                return Result::Err(e);
            },
        };
        Result::Ok((access_token, refresh_token))
    }
}

pub struct AdminController {}

impl AdminController {
    /// The registration pre-check: the payload must be complete and the
    /// email still free.  Only then may the store create the account.
    pub fn register_precheck(payload: &UserCreate, existing: &Option<UserEntity>) -> (r: Result<
        (),
        AppError,
    >)
        ensures
            (payload.password@.len() == 0 || payload.email@.len() == 0 || payload.name@.len()
                == 0) ==> (r matches Result::Err(e) && e is MissingCredential),
            (payload.password@.len() > 0 && payload.email@.len() > 0 && payload.name@.len() > 0
                && existing is Some) ==> (r matches Result::Err(e) && e is UserAlreadyExits),
            (payload.password@.len() > 0 && payload.email@.len() > 0 && payload.name@.len() > 0
                && existing is None) ==> r is Ok,
    {
        if payload.password.as_str().is_empty() || payload.email.as_str().is_empty()
            || payload.name.as_str().is_empty() {
            return Result::Err(AppError::MissingCredential);
        }
        match existing {
            Option::Some(_) => Result::Err(AppError::UserAlreadyExits),
            Option::None => Result::Ok(()),
        }
    }

    /// The response once the store has created the user: a token pair,
    /// as after a login.
    pub fn register_response(user: &UserEntity, keys: &Keys, now: i64) -> (r: Result<
        LoginResponse,
        AppError,
    >)
        requires
            now + TOKEN_TTL_SECS <= i64::MAX,
        ensures
            r matches Result::Ok(resp) && resp.id == user.id && resp.role == user.role
                && encode_utf8(resp.access_token@) == token_bytes(
                claims_of(*user, TokenType::AccessToken, now as int),
                keys@,
            ) && encode_utf8(resp.refresh_token@) == token_bytes(
                claims_of(*user, TokenType::RefreshToken, now as int),
                keys@,
            ),
    {
        let access_token = match encode_token(user, keys, TokenType::AccessToken, now) {
            Result::Ok(t) => t,
            Result::Err(e) => {
                return Result::Err(e);
            },
        };
        let refresh_token = match encode_token(user, keys, TokenType::RefreshToken, now) {
            Result::Ok(t) => t,
            Result::Err(e) => {
                return Result::Err(e);
            },
        };
        Result::Ok(
            LoginResponse {
                message: "User created successfully".to_owned(),
                id: user.id,
                role: user.role,
                access_token,
                refresh_token,
            },
        )
    }

    /// What process bootstrap does with the admin lookup's outcome: an
    /// existing account or a failed lookup leaves the store alone; only
    /// a missing account yields the admin row to create.
    pub fn admin_bootstrap(
        lookup: &Result<Option<UserEntity>, AppError>,
        email: &str,
        password: &str,
        name: &str,
    ) -> (r: Option<UserCreate>)
        ensures
            match lookup {
                Result::Ok(Option::None) => r matches Option::Some(u) && u.email@ == email@
                    && u.password@ == password@ && u.name@ == name@ && u.role == Option::Some(
                    Role::ADMIN,
                ),
                _ => r is None,
            },
    {
        match lookup {
            Result::Ok(Option::None) => Option::Some(
                UserCreate {
                    email: email.to_owned(),
                    password: password.to_owned(),
                    name: name.to_owned(),
                    role: Option::Some(Role::ADMIN),
                },
            ),
            _ => Option::None,
        }
    }
}

pub struct UserController {}

impl UserController {
    /// The devices of the authenticated user that are currently online.
    pub fn get_clients(state: &AppState, user: &UserEntity) -> (r: Vec<Client>)
        requires
            state.wf(),
        ensures
            views_of(r@) == user_clients(state@, user.id as int),
    {
        state.get_clients(&user.id)
    }
}

} // verus!
