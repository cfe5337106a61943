use scytale::claims_json::{claims_from_bytes, claims_to_bytes};
use scytale::controllers::{AdminController, AuthController, TokenController};
use scytale::error::AppError;
use scytale::jwt::{Claims, Keys, TokenType};
use scytale::middleware::{authenticate_access, is_admin};
use scytale::user::{Role, UserCreate, UserEntity, UserLogin};
use scytale::utils::{decode_token, encode_token, token_pair_now};

fn sample_user() -> UserEntity {
    UserEntity {
        id: 7,
        email: "maulikp@example.com".to_string(),
        name: "Maulik Patel".to_string(),
        password: "irrelevant".to_string(),
        role: Role::USER,
    }
}

#[test]
fn test_issue_validate_roundtrip() {
    let keys = Keys::new("secret");
    let user = sample_user();
    let now: i64 = 1_700_000_000;
    let token = encode_token(&user, &keys, TokenType::AccessToken, now).unwrap();
    let claims = decode_token(token.as_str(), &keys, now).unwrap();
    assert_eq!(claims.id, user.id);
    assert_eq!(claims.email, user.email);
    assert!(matches!(claims.role, Role::USER));
    assert!(matches!(claims.token_type, TokenType::AccessToken));
    assert_eq!(claims.exp, now + 86400);
}

#[test]
fn test_roundtrip_awkward_email() {
    let keys = Keys::new("secret");
    let mut user = sample_user();
    user.email = "we\"ird\\émail@exämple.com".to_string();
    let now: i64 = 1_700_000_000;
    let token = encode_token(&user, &keys, TokenType::RefreshToken, now).unwrap();
    let claims = decode_token(token.as_str(), &keys, now + 86399).unwrap();
    assert_eq!(claims.email, user.email);
    assert!(matches!(claims.token_type, TokenType::RefreshToken));
    // a control character survives the round trip too
    user.email = "tab\there@example.com".to_string();
    let token = encode_token(&user, &keys, TokenType::AccessToken, now).unwrap();
    let claims = decode_token(token.as_str(), &keys, now).unwrap();
    assert_eq!(claims.email, user.email);
}

#[test]
fn test_expired_token_rejected() {
    let keys = Keys::new("secret");
    let user = sample_user();
    let now: i64 = 1_700_000_000;
    let token = encode_token(&user, &keys, TokenType::AccessToken, now).unwrap();
    // one second past the expiry
    let r = decode_token(token.as_str(), &keys, now + 86401);
    assert!(matches!(r, Err(AppError::InvalidToken)));
    // at the expiry the token is still accepted
    assert!(decode_token(token.as_str(), &keys, now + 86400).is_ok());
}

#[test]
fn test_forged_token_rejected() {
    let keys = Keys::new("secret");
    let user = sample_user();
    let now: i64 = 1_700_000_000;
    let token = encode_token(&user, &keys, TokenType::AccessToken, now).unwrap();
    // flip the last character of the signature
    let mut bytes = token.into_bytes();
    let last = *bytes.last().unwrap();
    *bytes.last_mut().unwrap() = if last == b'A' { b'B' } else { b'A' };
    let tampered = String::from_utf8(bytes).unwrap();
    assert!(matches!(
        decode_token(tampered.as_str(), &keys, now),
        Err(AppError::InvalidToken)
    ));
    // a token signed under another secret is rejected too
    let other = Keys::new("other-secret");
    let foreign = encode_token(&user, &other, TokenType::AccessToken, now).unwrap();
    assert!(matches!(
        decode_token(foreign.as_str(), &keys, now),
        Err(AppError::InvalidToken)
    ));
    // garbage is rejected
    assert!(matches!(
        decode_token("not-a-token", &keys, now),
        Err(AppError::InvalidToken)
    ));
}

#[test]
fn test_token_is_standard_jwt() {
    // the issued token must be readable by jsonwebtoken itself
    let keys = Keys::new("secret");
    let user = sample_user();
    let now: i64 = 2_000_000_000;
    let token = encode_token(&user, &keys, TokenType::AccessToken, now).unwrap();
    let mut validation = jsonwebtoken::Validation::new(jsonwebtoken::Algorithm::HS256);
    validation.validate_exp = false;
    let data = jsonwebtoken::decode::<serde_json::Value>(
        &token,
        &jsonwebtoken::DecodingKey::from_secret(b"secret"),
        &validation,
    )
    .expect("jsonwebtoken must accept the token");
    let v = data.claims;
    assert_eq!(v.get("email").and_then(|x| x.as_str()), Some("maulikp@example.com"));
    assert_eq!(v.get("role").and_then(|x| x.as_str()), Some("USER"));
    assert_eq!(v.get("id").and_then(|x| x.as_i64()), Some(7));
    assert_eq!(v.get("exp").and_then(|x| x.as_i64()), Some(now + 86400));
    assert_eq!(
        v.get("token_type").and_then(|x| x.as_str()),
        Some("AccessToken")
    );
}

#[test]
fn test_foreign_encoding_rejected() {
    // the validator accepts exactly the canonical token text it issues:
    // a token of the same claims built by jsonwebtoken's own encoder
    // (different header and field layout) is refused even though its
    // signature is valid under the same secret
    let mut m = serde_json::Map::new();
    m.insert(
        "email".to_string(),
        serde_json::Value::String("a@b".to_string()),
    );
    m.insert("role".to_string(), serde_json::Value::String("USER".to_string()));
    m.insert("id".to_string(), serde_json::Value::from(1i64));
    m.insert("exp".to_string(), serde_json::Value::from(2_000_000_000i64));
    m.insert(
        "token_type".to_string(),
        serde_json::Value::String("AccessToken".to_string()),
    );
    let token = jsonwebtoken::encode(
        &jsonwebtoken::Header::default(),
        &serde_json::Value::Object(m),
        &jsonwebtoken::EncodingKey::from_secret(b"secret"),
    )
    .unwrap();
    let keys = Keys::new("secret");
    assert!(matches!(
        decode_token(&token, &keys, 1_700_000_000),
        Err(AppError::InvalidToken)
    ));
}

#[test]
fn test_claims_wire_form_exact() {
    let claims = Claims {
        email: "a@b".to_string(),
        role: Role::ADMIN,
        id: -3,
        exp: 100,
        token_type: TokenType::AccessToken,
    };
    let bytes = claims_to_bytes(&claims);
    assert_eq!(
        String::from_utf8(bytes.clone()).unwrap(),
        "{\"email\":\"a@b\",\"role\":\"ADMIN\",\"id\":-3,\"exp\":100,\"token_type\":\"AccessToken\"}"
    );
    let back = claims_from_bytes(bytes.as_slice()).unwrap();
    assert_eq!(back.email, "a@b");
    assert_eq!(back.id, -3);
    assert_eq!(back.exp, 100);
    assert!(matches!(back.role, Role::ADMIN));
    // quotes, backslashes and control characters take standard escapes
    let claims = Claims {
        email: "q\"b\\n\n".to_string(),
        role: Role::USER,
        id: 1,
        exp: 2,
        token_type: TokenType::RefreshToken,
    };
    let bytes = claims_to_bytes(&claims);
    assert_eq!(
        String::from_utf8(bytes.clone()).unwrap(),
        "{\"email\":\"q\\\"b\\\\n\\u000a\",\"role\":\"USER\",\"id\":1,\"exp\":2,\"token_type\":\"RefreshToken\"}"
    );
    let back = claims_from_bytes(bytes.as_slice()).unwrap();
    assert_eq!(back.email, "q\"b\\n\n");
    // the JSON is standard: serde_json parses it to the same fields
    let v: serde_json::Value = serde_json::from_slice(bytes.as_slice()).unwrap();
    assert_eq!(v.get("email").and_then(|x| x.as_str()), Some("q\"b\\n\n"));
}

#[test]
fn test_base64url_exact() {
    let out = scytale::base64url::b64_encode(b"Man");
    assert_eq!(String::from_utf8(out).unwrap(), "TWFu");
    let out = scytale::base64url::b64_encode(b"hello worlds");
    assert_eq!(String::from_utf8(out.clone()).unwrap(), "aGVsbG8gd29ybGRz");
    let back = scytale::base64url::b64_decode(out.as_slice()).unwrap();
    assert_eq!(back, b"hello worlds".to_vec());
    // two-byte tail
    let out = scytale::base64url::b64_encode(b"hi");
    assert_eq!(String::from_utf8(out.clone()).unwrap(), "aGk");
    assert_eq!(
        scytale::base64url::b64_decode(out.as_slice()).unwrap(),
        b"hi".to_vec()
    );
    // padding characters and odd lengths are refused
    assert!(scytale::base64url::b64_decode(b"TWFu=").is_none());
    assert!(scytale::base64url::b64_decode(b"A").is_none());
    // non-canonical tail bits are refused
    assert!(scytale::base64url::b64_decode(b"aGl").is_none());
}

#[test]
fn test_kind_checks() {
    let keys = Keys::new("secret");
    let user = sample_user();
    let now: i64 = 1_700_000_000;
    let access = encode_token(&user, &keys, TokenType::AccessToken, now).unwrap();
    let refresh = encode_token(&user, &keys, TokenType::RefreshToken, now).unwrap();
    // the access gate takes only access tokens
    assert!(authenticate_access(access.as_str(), &keys, now).is_ok());
    assert!(matches!(
        authenticate_access(refresh.as_str(), &keys, now),
        Err(AppError::NotAccessToken)
    ));
    // the refresh endpoint takes only refresh tokens
    let body = scytale::jwt::TokeRefresh { refresh_token: refresh.clone() };
    assert!(TokenController::refresh_claims(&body, &keys, now).is_ok());
    let body = scytale::jwt::TokeRefresh { refresh_token: access.clone() };
    assert!(matches!(
        TokenController::refresh_claims(&body, &keys, now),
        Err(AppError::NotRefreshToken)
    ));
}

#[test]
fn test_login_flow() {
    let keys = Keys::new("secret");
    let now: i64 = 1_700_000_000;
    let mut create = UserCreate {
        email: "maulikp@example.com".to_string(),
        name: "Maulik Patel".to_string(),
        password: "password".to_string(),
        role: None,
    };
    create.hash_password().unwrap();
    assert_ne!(create.password, "password");
    let user = UserEntity {
        id: 1,
        email: create.email.clone(),
        name: create.name.clone(),
        password: create.password.clone(),
        role: Role::USER,
    };
    let good = UserLogin {
        email: user.email.clone(),
        password: "password".to_string(),
    };
    let resp = AuthController::login(Some(user.clone()), &good, &keys, now).unwrap();
    assert_eq!(resp.id, 1);
    let claims = decode_token(resp.access_token.as_str(), &keys, now).unwrap();
    assert_eq!(claims.id, 1);
    assert!(matches!(claims.token_type, TokenType::AccessToken));
    let bad = UserLogin {
        email: user.email.clone(),
        password: "wrong".to_string(),
    };
    assert!(matches!(
        AuthController::login(Some(user.clone()), &bad, &keys, now),
        Err(AppError::WrongCredential)
    ));
    assert!(matches!(
        AuthController::login(None, &good, &keys, now),
        Err(AppError::UserDoesNotExist)
    ));
}

#[test]
fn test_register_precheck() {
    let payload = UserCreate {
        email: "maulikp1".to_string(),
        name: "Maulik Patel".to_string(),
        password: "password".to_string(),
        role: None,
    };
    assert!(AdminController::register_precheck(&payload, &None).is_ok());
    let mut no_password = payload.clone();
    no_password.password = "".to_string();
    assert!(matches!(
        AdminController::register_precheck(&no_password, &None),
        Err(AppError::MissingCredential)
    ));
    let mut no_email = payload.clone();
    no_email.email = "".to_string();
    assert!(matches!(
        AdminController::register_precheck(&no_email, &None),
        Err(AppError::MissingCredential)
    ));
    let mut no_name = payload.clone();
    no_name.name = "".to_string();
    assert!(matches!(
        AdminController::register_precheck(&no_name, &None),
        Err(AppError::MissingCredential)
    ));
    let existing = Some(UserEntity {
        id: 2,
        email: "maulikp1".to_string(),
        name: "Maulik Patel".to_string(),
        password: "h".to_string(),
        role: Role::USER,
    });
    assert!(matches!(
        AdminController::register_precheck(&payload, &existing),
        Err(AppError::UserAlreadyExits)
    ));
}

#[test]
fn test_admin_gate_and_bootstrap() {
    let mut user = sample_user();
    assert!(matches!(
        is_admin(&user),
        Err(AppError::InsufficientPermission)
    ));
    user.role = Role::ADMIN;
    assert!(is_admin(&user).is_ok());

    let fresh = AdminController::admin_bootstrap(&Ok(None), "a@b", "pw", "Admin");
    let fresh = fresh.unwrap();
    assert_eq!(fresh.email, "a@b");
    assert!(matches!(fresh.role, Some(Role::ADMIN)));
    assert!(AdminController::admin_bootstrap(&Ok(Some(user)), "a@b", "pw", "Admin").is_none());
    assert!(AdminController::admin_bootstrap(
        &Err(AppError::InternalServerError),
        "a@b",
        "pw",
        "Admin"
    )
    .is_none());
}

#[test]
fn test_password_verify() {
    let mut create = UserCreate {
        email: "e".to_string(),
        name: "n".to_string(),
        password: "s3cret!".to_string(),
        role: None,
    };
    create.hash_password().unwrap();
    let user = UserEntity {
        id: 1,
        email: "e".to_string(),
        name: "n".to_string(),
        password: create.password.clone(),
        role: Role::USER,
    };
    assert_eq!(user.verify_password(b"s3cret!").unwrap(), true);
    assert_eq!(user.verify_password(b"nope").unwrap(), false);
    let broken = UserEntity {
        password: "not-an-encoded-hash".to_string(),
        ..user
    };
    assert!(matches!(
        broken.verify_password(b"s3cret!"),
        Err(AppError::WrongCredential)
    ));
}

#[test]
fn test_error_statuses() {
    assert_eq!(AppError::InvalidToken.status_code(), 400);
    assert_eq!(AppError::InvalidToken.message(), "invalid token");
    assert_eq!(AppError::MissingToken.status_code(), 400);
    assert_eq!(AppError::WrongCredential.status_code(), 401);
    assert_eq!(AppError::WrongCredential.message(), "wrong credentials");
    assert_eq!(AppError::UserDoesNotExist.status_code(), 401);
    assert_eq!(AppError::UserAlreadyExits.status_code(), 400);
    assert_eq!(AppError::InsufficientPermission.status_code(), 403);
    assert_eq!(AppError::InsufficientPermission.message(), "insufficient permission");
    assert_eq!(AppError::NotAccessToken.status_code(), 400);
    assert_eq!(AppError::NotRefreshToken.status_code(), 400);
    assert_eq!(AppError::AlreadyConnected.status_code(), 400);
    assert_eq!(AppError::AlreadyConnected.message(), "already connected");
    assert_eq!(AppError::InternalServerError.status_code(), 500);
    assert_eq!(AppError::TokenCreation.status_code(), 500);
    assert_eq!(AppError::MissingCredential.status_code(), 400);
    assert_eq!(AppError::DatabaseError("boom".to_string()).status_code(), 500);
    assert_eq!(AppError::DatabaseError("boom".to_string()).message(), "boom");
}

#[test]
fn test_token_pair_now() {
    let keys = Keys::new("secret");
    let user = sample_user();
    let (access, refresh) = token_pair_now(&user, &keys).unwrap();
    let now = scytale::utils::current_timestamp();
    let a = decode_token(access.as_str(), &keys, now).unwrap();
    let r = decode_token(refresh.as_str(), &keys, now).unwrap();
    assert!(matches!(a.token_type, TokenType::AccessToken));
    assert!(matches!(r.token_type, TokenType::RefreshToken));
    assert_eq!(a.id, user.id);
}
