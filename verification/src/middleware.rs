//! Request-level authorisation: the bearer-token check for protected
//! routes and the admin gate.

use vstd::prelude::*;
use vstd::utf8::encode_utf8;

use crate::claims_json::claims_v_wf;
use crate::error::AppError;
use crate::jwt::{Claims, ClaimsV, Keys, TokenType};
use crate::user::{Role, UserEntity};
use crate::utils::{decode_token, token_bytes};

verus! {

/// The access gate behind every authenticated route: the bearer token
/// must validate and must be of the access kind; a refresh token is
/// refused here.  A forged or expired bearer never passes: any claims
/// handed out are the ones whose canonical signed token the bearer
/// exactly is, and the kind-mismatch error only ever answers a valid,
/// unexpired refresh token — an unauthenticated bearer always gets the
/// one invalid-token error.  The caller then loads the user the claims
/// name.
pub fn authenticate_access(token: &str, keys: &Keys, now: i64) -> (r: Result<Claims, AppError>)
    ensures
        r matches Result::Ok(c) ==> c@.exp >= now as int && c@.token_type is AccessToken
            && crate::claims_json::claims_v_wf(c@) && vstd::utf8::encode_utf8(token@)
            == crate::utils::token_bytes(c@, keys@),
        r matches Result::Err(e) ==> e is InvalidToken || e is NotAccessToken,
        r matches Result::Err(e) ==> (e is NotAccessToken ==> exists|c: ClaimsV|
            claims_v_wf(c) && encode_utf8(token@) == #[trigger] token_bytes(c, keys@) && c.exp
                >= now as int && c.token_type is RefreshToken),
        forall|c: ClaimsV|
            (claims_v_wf(c) && encode_utf8(token@) == #[trigger] token_bytes(c, keys@) && c.exp
                >= now as int) ==> (if c.token_type is AccessToken {
                r matches Result::Ok(d) && d@ == c
            } else {
                r matches Result::Err(e) && e is NotAccessToken
            }),
{
    let claims = match decode_token(token, keys, now) {
        Result::Ok(c) => c,
        Result::Err(e) => {
            return Result::Err(e);
        },
    };
    match claims.token_type {
        TokenType::AccessToken => Result::Ok(claims),
        TokenType::RefreshToken => {
            proof {
                let w = claims@;
                assert(claims_v_wf(w) && encode_utf8(token@) == token_bytes(w, keys@) && w.exp
                    >= now as int && w.token_type is RefreshToken);
            }
            Result::Err(AppError::NotAccessToken)
        },
    }
}

/// The admin gate: only an admin passes, anyone else is refused with
/// `InsufficientPermission`.
pub fn is_admin(user: &UserEntity) -> (r: Result<(), AppError>)
    ensures
        user.role is ADMIN <==> r is Ok,
        r matches Result::Err(e) ==> e is InsufficientPermission,
{
    match user.role {
        Role::ADMIN => Result::Ok(()),
        Role::USER => Result::Err(AppError::InsufficientPermission),
    }
}

} // verus!
