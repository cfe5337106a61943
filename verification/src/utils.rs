//! Token issue and validation.  A token is the standard three-part form:
//! the base64url header, a dot, the base64url claims, a dot, and the
//! HMAC-SHA256 signature over the first two parts.  The framing, the
//! claims form and the expiry check are verified here; only the
//! signature primitive itself is trusted.

use vstd::prelude::*;
use vstd::utf8::{encode_utf8, valid_utf8};

use crate::base64url::{
    b64_decode, b64_encode, b64_encode_bytes, lemma_enc_ascii, lemma_enc_no_dot,
};
use crate::claims_json::{claims_bytes, claims_from_bytes, claims_to_bytes, claims_v_wf};
use crate::error::AppError;
use crate::jwt::{Claims, ClaimsV, Keys, TokenType, TOKEN_TTL_SECS};
use crate::user::UserEntity;

verus! {

/// Character-wise string equality.  Two `&str` are compared through their
/// owned forms, whose equality is the equality of the views.
pub fn str_eq(a: &str, b: &str) -> (r: bool)
    ensures
        r == (a@ == b@),
{
    a.to_owned() == b.to_owned()
}

/// Byte-wise equality of two slices.
pub fn bytes_eq(a: &[u8], b: &[u8]) -> (r: bool)
    ensures
        r == (a@ == b@),
{
    let n = a.len();
    if n != b.len() {
        return false;
    }
    let mut i: usize = 0;
    while i < n
        invariant
            n == a@.len(),
            n == b@.len(),
            i <= n,
            forall|t: int| 0 <= t < i ==> a@[t] == b@[t],
        decreases n - i,
    {
        if a[i] != b[i] {
            return false;
        }
        i += 1;
    }
    proof {
        assert(a@ =~= b@);
    }
    true
}

/// Relies on String::from_utf8: succeeds exactly on valid UTF-8 and
/// returns the string whose encoding is the input.
#[verifier::external_body]
pub fn string_from_utf8(bytes: Vec<u8>) -> (r: Option<String>)
    ensures
        match r {
            Option::Some(s) => bytes@ == vstd::utf8::encode_utf8(s@),
            Option::None => !vstd::utf8::valid_utf8(bytes@),
        },
{
    String::from_utf8(bytes).ok()
}

/// The signature that HMAC-SHA256 under this secret yields for a
/// message, in base64url text.  It stands for
/// jsonwebtoken::crypto::sign with HS256; only the trusted wrappers
/// below apply it.
pub uninterp spec fn sig_of(msg: Seq<u8>, secret: Seq<u8>) -> Seq<char>;

/// Relies on jsonwebtoken::crypto::sign with HS256: the result is the
/// base64url form of the HMAC digest, a function of message and secret
/// alone; the HMAC arm never fails.
#[verifier::external_body]
fn sign_hs256(msg: &[u8], secret: &[u8]) -> (r: String)
    ensures
        r@ == sig_of(msg@, secret@),
{
    jsonwebtoken::crypto::sign(
        msg,
        &jsonwebtoken::EncodingKey::from_secret(secret),
        jsonwebtoken::Algorithm::HS256,
    ).unwrap()
}

/// Relies on jsonwebtoken::crypto::verify with HS256: it re-signs the
/// message and compares byte-wise, so the answer is exactly whether the
/// offered signature equals the one `sign` yields; the HMAC arm never
/// fails.
#[verifier::external_body]
fn verify_hs256(sig: &str, msg: &[u8], secret: &[u8]) -> (r: bool)
    ensures
        r == (sig@ == sig_of(msg@, secret@)),
{
    jsonwebtoken::crypto::verify(
        sig,
        msg,
        &jsonwebtoken::DecodingKey::from_secret(secret),
        jsonwebtoken::Algorithm::HS256,
    ).unwrap()
}

/// Relies on chrono::Utc::now: the current Unix timestamp.  Nothing is
/// assumed of the value.
#[verifier::external_body]
pub fn current_timestamp() -> (r: i64) {
    chrono::Utc::now().timestamp()
}

/// An access and refresh token pair issued at the present moment.
/// Whatever the clock returned, a pair is only handed out if the expiry
/// still fits its type, and then both tokens are exact for that instant.
pub fn token_pair_now(user: &UserEntity, keys: &Keys) -> (r: Result<(String, String), AppError>)
    ensures
        r matches Result::Ok(p) ==> exists|n: int|
            encode_utf8(p.0@) == token_bytes(
                #[trigger] crate::jwt::claims_of(*user, TokenType::AccessToken, n),
                keys@,
            ) && encode_utf8(p.1@) == token_bytes(
                crate::jwt::claims_of(*user, TokenType::RefreshToken, n),
                keys@,
            ),
        r matches Result::Err(e) ==> e is TokenCreation,
{
    let now = current_timestamp();
    if now > i64::MAX - TOKEN_TTL_SECS {
        return Result::Err(AppError::TokenCreation);
    }
    let access = match encode_token(user, keys, TokenType::AccessToken, now) {
        Result::Ok(t) => t,
        Result::Err(_) => {
            return Result::Err(AppError::TokenCreation);
        },
    };
    let refresh = match encode_token(user, keys, TokenType::RefreshToken, now) {
        Result::Ok(t) => t,
        Result::Err(_) => {
            return Result::Err(AppError::TokenCreation);
        },
    };
    Result::Ok((access, refresh))
}

// The token header, the JSON text  {"alg":"HS256","typ":"JWT"}  as bytes.
pub open spec fn header_bytes() -> Seq<u8> {
    seq![
        0x7Bu8,
        0x22,
        0x61,
        0x6C,
        0x67,
        0x22,
        0x3A,
        0x22,
        0x48,
        0x53,
        0x32,
        0x35,
        0x36,
        0x22,
        0x2C,
        0x22,
        0x74,
        0x79,
        0x70,
        0x22,
        0x3A,
        0x22,
        0x4A,
        0x57,
        0x54,
        0x22,
        0x7D,
    ]
}

/// The part of a token that is signed: encoded header, dot, encoded
/// claims.
pub open spec fn signing_input(c: ClaimsV) -> Seq<u8> {
    b64_encode_bytes(header_bytes()) + seq![0x2Eu8] + b64_encode_bytes(claims_bytes(c))
}

/// A whole token for these claims under this secret, as the bytes of its
/// text.
pub open spec fn token_bytes(c: ClaimsV, secret: Seq<u8>) -> Seq<u8> {
    signing_input(c) + seq![0x2Eu8] + encode_utf8(sig_of(signing_input(c), secret))
}

/// ASCII bytes are valid UTF-8.
proof fn lemma_ascii_valid(b: Seq<u8>)
    requires
        forall|k: int| 0 <= k < b.len() ==> b[k] < 0x80,
    ensures
        valid_utf8(b),
{
    let chars = Seq::new(b.len(), |i: int| b[i] as char);
    assert(vstd::utf8::is_ascii_chars(chars));
    vstd::utf8::is_ascii_chars_encode_utf8(chars);
    assert(encode_utf8(chars) =~= b);
    vstd::utf8::encode_utf8_valid_utf8(chars);
}

/// The encoded header every token starts with.
fn header_b64() -> (r: Vec<u8>)
    ensures
        r@ == b64_encode_bytes(header_bytes()),
{
    let hdr: [u8; 27] = [
        0x7B,
        0x22,
        0x61,
        0x6C,
        0x67,
        0x22,
        0x3A,
        0x22,
        0x48,
        0x53,
        0x32,
        0x35,
        0x36,
        0x22,
        0x2C,
        0x22,
        0x74,
        0x79,
        0x70,
        0x22,
        0x3A,
        0x22,
        0x4A,
        0x57,
        0x54,
        0x22,
        0x7D,
    ];
    proof {
        assert(hdr@ =~= header_bytes());
    }
    b64_encode(hdr.as_slice())
}

/// Issues a signed token: the claims of this user and kind, expiring a
/// fixed term after `now`, framed and signed under the given keys.  The
/// text of the result is pinned exactly.
pub fn encode_token(user: &UserEntity, keys: &Keys, token_type: TokenType, now: i64) -> (r:
    Result<String, AppError>)
    requires
        now + TOKEN_TTL_SECS <= i64::MAX,
    ensures
        r matches Result::Ok(t) && encode_utf8(t@) == token_bytes(
            crate::jwt::claims_of(*user, token_type, now as int),
            keys@,
        ),
{
    let claims = Claims::from(user, token_type, now);
    let cb = claims_to_bytes(&claims);
    let mut msg = header_b64();
    let pb64 = b64_encode(cb.as_slice());
    msg.push(0x2E);
    msg.extend_from_slice(pb64.as_slice());
    let ghost cv = claims@;
    proof {
        assert(msg@ =~= signing_input(cv));
    }
    let sig = sign_hs256(msg.as_slice(), keys.secret_bytes().as_slice());
    let mut tb = msg;
    tb.push(0x2E);
    let sig_bytes = sig.as_str().as_bytes();
    tb.extend_from_slice(sig_bytes);
    proof {
        assert(tb@ =~= token_bytes(cv, keys@));
        assert forall|k: int| 0 <= k < signing_input(cv).len() implies signing_input(cv)[k]
            < 0x80 by {
            let hl = b64_encode_bytes(header_bytes()).len() as int;
            if k < hl {
                lemma_enc_ascii(header_bytes(), k);
            } else if k > hl {
                lemma_enc_ascii(claims_bytes(cv), k - hl - 1);
            }
        }
        lemma_ascii_valid(signing_input(cv) + seq![0x2Eu8]);
        vstd::utf8::encode_utf8_valid_utf8(sig_of(signing_input(cv), keys@));
        vstd::utf8::valid_utf8_concat(
            signing_input(cv) + seq![0x2Eu8],
            encode_utf8(sig_of(signing_input(cv), keys@)),
        );
        assert((signing_input(cv) + seq![0x2Eu8]) + encode_utf8(sig_of(signing_input(cv), keys@))
            =~= tb@);
    }
    match string_from_utf8(tb) {
        Option::Some(t) => Result::Ok(t),
        Option::None => {
            proof {
                assert(false);
            }
            Result::Err(AppError::TokenCreation)
        },
    }
}

fn find_byte(s: &[u8], from: usize, b: u8) -> (r: Option<usize>)
    requires
        from <= s@.len(),
    ensures
        match r {
            Option::Some(k) => {
                &&& from <= k < s@.len()
                &&& s@[k as int] == b
                &&& forall|t: int| from <= t < k ==> s@[t] != b
            },
            Option::None => forall|t: int| from <= t < s@.len() ==> s@[t] != b,
        },
{
    let n = s.len();
    let mut k = from;
    while k < n
        invariant
            n == s@.len(),
            from <= k <= n,
            forall|t: int| from <= t < k ==> s@[t] != b,
        decreases n - k,
    {
        if s[k] == b {
            return Option::Some(k);
        }
        k += 1;
    }
    Option::None
}

/// Where the two framing dots of a canonical token lie.
proof fn lemma_token_layout(t: Seq<u8>, c: ClaimsV, secret: Seq<u8>)
    requires
        t == token_bytes(c, secret),
    ensures
        ({
            let hl = b64_encode_bytes(header_bytes()).len() as int;
            let pl = b64_encode_bytes(claims_bytes(c)).len() as int;
            &&& t.len() == hl + 1 + pl + 1 + encode_utf8(sig_of(signing_input(c), secret)).len()
            &&& t[hl] == 0x2E
            &&& forall|k: int| 0 <= k < hl ==> t[k] != 0x2E
            &&& t[hl + 1 + pl] == 0x2E
            &&& forall|k: int| hl + 1 <= k < hl + 1 + pl ==> t[k] != 0x2E
            &&& t.subrange(0, hl + 1 + pl) == signing_input(c)
            &&& t.subrange(hl + 1, hl + 1 + pl) == b64_encode_bytes(claims_bytes(c))
            &&& t.skip(hl + 1 + pl + 1) == encode_utf8(sig_of(signing_input(c), secret))
        }),
{
    let hl = b64_encode_bytes(header_bytes()).len() as int;
    let pl = b64_encode_bytes(claims_bytes(c)).len() as int;
    assert forall|k: int| 0 <= k < hl implies t[k] != 0x2E by {
        lemma_enc_no_dot(header_bytes(), k);
        assert(t[k] == b64_encode_bytes(header_bytes())[k]);
    }
    assert forall|k: int| hl + 1 <= k < hl + 1 + pl implies t[k] != 0x2E by {
        lemma_enc_no_dot(claims_bytes(c), k - hl - 1);
        assert(t[k] == b64_encode_bytes(claims_bytes(c))[k - hl - 1]);
    }
    assert(t.subrange(0, hl + 1 + pl) =~= signing_input(c));
    assert(t.subrange(hl + 1, hl + 1 + pl) =~= b64_encode_bytes(claims_bytes(c)));
    assert(t.skip(hl + 1 + pl + 1) =~= encode_utf8(sig_of(signing_input(c), secret)));
}

/// Validates a token: checks header, signature and claims form, and
/// rejects an expired token.  Every failure is the one `InvalidToken`
/// error, with no further detail.  A token is never partially trusted:
/// claims come out only when the whole token is exactly the canonical,
/// correctly signed token of those very claims under these keys, and
/// only while it is unexpired.  Conversely, every token this library
/// issued under the same secret, whose expiry has not passed, is
/// accepted with exactly the claims it was issued for.
#[verifier::rlimit(100)]
pub fn decode_token(token: &str, keys: &Keys, now: i64) -> (r: Result<Claims, AppError>)
    ensures
        r matches Result::Err(e) ==> e is InvalidToken,
        r matches Result::Ok(c) ==> c@.exp >= now as int && claims_v_wf(c@) && encode_utf8(
            token@,
        ) == token_bytes(c@, keys@),
        forall|c: ClaimsV|
            (claims_v_wf(c) && encode_utf8(token@) == #[trigger] token_bytes(c, keys@) && c.exp
                >= now as int) ==> (r matches Result::Ok(d) && d@ == c),
{
    let tb = token.as_bytes();
    let n = tb.len();
    let i = match find_byte(tb, 0, 0x2E) {
        Option::Some(i) => i,
        Option::None => {
            proof {
                assert forall|c: ClaimsV|
                    claims_v_wf(c) && encode_utf8(token@) == #[trigger] token_bytes(c, keys@)
                    implies false by {
                    lemma_token_layout(tb@, c, keys@);
                }
            }
            return Result::Err(AppError::InvalidToken);
        },
    };
    let hb = header_b64();
    let header_matches = if i == hb.len() {
        bytes_eq(vstd::slice::slice_subrange(tb, 0, i), hb.as_slice())
    } else {
        false
    };
    if !header_matches {
        proof {
            assert forall|c: ClaimsV|
                claims_v_wf(c) && encode_utf8(token@) == #[trigger] token_bytes(c, keys@) implies
                false by {
                lemma_token_layout(tb@, c, keys@);
                let hl = b64_encode_bytes(header_bytes()).len() as int;
                if (i as int) < hl {
                    assert(tb@[i as int] != 0x2E);
                }
                if (i as int) > hl {
                    assert(tb@[hl] != 0x2E);
                }
                assert(i as int == hl);
                assert(tb@.subrange(0, i as int) =~= b64_encode_bytes(header_bytes()));
            }
        }
        return Result::Err(AppError::InvalidToken);
    }
    let j = match find_byte(tb, i + 1, 0x2E) {
        Option::Some(j) => j,
        Option::None => {
            proof {
                assert forall|c: ClaimsV|
                    claims_v_wf(c) && encode_utf8(token@) == #[trigger] token_bytes(c, keys@)
                    implies false by {
                    lemma_token_layout(tb@, c, keys@);
                    token_dots(tb@, c, keys@, i as int, tb@.len() as int);
                }
            }
            return Result::Err(AppError::InvalidToken);
        },
    };
    let msg = vstd::slice::slice_subrange(tb, 0, j);
    let sig_vec = vstd::slice::slice_to_vec(vstd::slice::slice_subrange(tb, j + 1, n));
    let sig_str = match string_from_utf8(sig_vec) {
        Option::Some(s) => s,
        Option::None => {
            proof {
                assert forall|c: ClaimsV|
                    claims_v_wf(c) && encode_utf8(token@) == #[trigger] token_bytes(c, keys@)
                    implies false by {
                    lemma_token_layout(tb@, c, keys@);
                    token_dots(tb@, c, keys@, i as int, j as int);
                    vstd::utf8::encode_utf8_valid_utf8(sig_of(signing_input(c), keys@));
                }
            }
            return Result::Err(AppError::InvalidToken);
        },
    };
    let ok = verify_hs256(sig_str.as_str(), msg, keys.secret_bytes().as_slice());
    if !ok {
        proof {
            assert forall|c: ClaimsV|
                claims_v_wf(c) && encode_utf8(token@) == #[trigger] token_bytes(c, keys@) implies
                false by {
                lemma_token_layout(tb@, c, keys@);
                token_dots(tb@, c, keys@, i as int, j as int);
                vstd::utf8::encode_utf8_decode_utf8(sig_str@);
                vstd::utf8::encode_utf8_decode_utf8(sig_of(signing_input(c), keys@));
            }
        }
        return Result::Err(AppError::InvalidToken);
    }
    let payload = vstd::slice::slice_to_vec(vstd::slice::slice_subrange(tb, i + 1, j));
    let cb = match b64_decode(payload.as_slice()) {
        Option::Some(cb) => cb,
        Option::None => {
            proof {
                assert forall|c: ClaimsV|
                    claims_v_wf(c) && encode_utf8(token@) == #[trigger] token_bytes(c, keys@)
                    implies false by {
                    lemma_token_layout(tb@, c, keys@);
                    token_dots(tb@, c, keys@, i as int, j as int);
                }
            }
            return Result::Err(AppError::InvalidToken);
        },
    };
    let claims = match claims_from_bytes(cb.as_slice()) {
        Option::Some(cl) => cl,
        Option::None => {
            proof {
                assert forall|c: ClaimsV|
                    claims_v_wf(c) && encode_utf8(token@) == #[trigger] token_bytes(c, keys@)
                    implies false by {
                    lemma_token_layout(tb@, c, keys@);
                    token_dots(tb@, c, keys@, i as int, j as int);
                }
            }
            return Result::Err(AppError::InvalidToken);
        },
    };
    if claims.exp < now {
        proof {
            assert forall|c: ClaimsV|
                (claims_v_wf(c) && encode_utf8(token@) == #[trigger] token_bytes(c, keys@) && c.exp
                    >= now as int) implies false by {
                lemma_token_layout(tb@, c, keys@);
                token_dots(tb@, c, keys@, i as int, j as int);
            }
        }
        return Result::Err(AppError::InvalidToken);
    }
    proof {
        let t = tb@;
        let cv = claims@;
        assert(t.subrange(0, i as int) == b64_encode_bytes(header_bytes()));
        assert(t.subrange(i + 1, j as int) == b64_encode_bytes(cb@));
        assert(cb@ == claims_bytes(cv));
        assert(t.subrange(0, j as int) =~= b64_encode_bytes(header_bytes()) + seq![0x2Eu8]
            + b64_encode_bytes(claims_bytes(cv)));
        assert(t.subrange(0, j as int) == signing_input(cv));
        assert(sig_str@ == sig_of(signing_input(cv), keys@));
        assert(t.subrange(j + 1, n as int) =~= t.skip(j + 1));
        assert(t.skip(j + 1) == encode_utf8(sig_str@));
        assert(t =~= signing_input(cv) + seq![0x2Eu8] + encode_utf8(
            sig_of(signing_input(cv), keys@),
        ));
        assert(t == token_bytes(cv, keys@));
        assert forall|c: ClaimsV|
            (claims_v_wf(c) && encode_utf8(token@) == #[trigger] token_bytes(c, keys@) && c.exp
                >= now as int) implies claims@ == c by {
            lemma_token_layout(tb@, c, keys@);
            token_dots(tb@, c, keys@, i as int, j as int);
        }
    }
    Result::Ok(claims)
}

/// The round trip of issue and validate: the claims issued for a user
/// carry exactly the user's id, email and role and the requested kind,
/// and expire exactly a fixed term after issuance; they satisfy the
/// acceptance premise of `decode_token` for any `now` up to the expiry,
/// so a token from `encode_token` validates to the same claims until it
/// expires.
pub proof fn lemma_issue_validate(user: UserEntity, kind: TokenType, issued: int, now: int)
    requires
        i64::MIN <= issued,
        issued + TOKEN_TTL_SECS <= i64::MAX,
        now <= issued + TOKEN_TTL_SECS,
    ensures
        ({
            let c = crate::jwt::claims_of(user, kind, issued);
            &&& claims_v_wf(c)
            &&& c.id == user.id as int
            &&& c.email == user.email@
            &&& c.role == user.role
            &&& c.token_type == kind
            &&& c.exp == issued + TOKEN_TTL_SECS
            &&& c.exp >= now
        }),
{
}

/// For a canonical token, the first dot closes the header part and the
/// second closes the claims part; with them the three parts are
/// recovered.
proof fn token_dots(t: Seq<u8>, c: ClaimsV, secret: Seq<u8>, i: int, j: int)
    requires
        t == token_bytes(c, secret),
        0 <= i < t.len() || i == b64_encode_bytes(header_bytes()).len(),
        t.len() > i ==> t[i] == 0x2E,
        forall|k: int| 0 <= k < i ==> t[k] != 0x2E,
        i + 1 <= j <= t.len(),
        j < t.len() ==> t[j] == 0x2E,
        forall|k: int| i + 1 <= k < j ==> t[k] != 0x2E,
    ensures
        i == b64_encode_bytes(header_bytes()).len(),
        j == i + 1 + b64_encode_bytes(claims_bytes(c)).len(),
        t.subrange(0, j) == signing_input(c),
        t.subrange(i + 1, j) == b64_encode_bytes(claims_bytes(c)),
        t.skip(j + 1) == encode_utf8(sig_of(signing_input(c), secret)),
{
    lemma_token_layout(t, c, secret);
    let hl = b64_encode_bytes(header_bytes()).len() as int;
    let pl = b64_encode_bytes(claims_bytes(c)).len() as int;
    if i < hl {
        assert(t[i] != 0x2E);
        assert(false);
    }
    if i > hl {
        assert(t[hl] != 0x2E);
        assert(false);
    }
    if j < hl + 1 + pl {
        assert(t[j] != 0x2E);
        assert(false);
    }
    if j > hl + 1 + pl {
        assert(t[hl + 1 + pl] != 0x2E);
        assert(false);
    }
}

} // verus!
