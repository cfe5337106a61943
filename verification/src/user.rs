//! Users, roles and clients.  A `UserEntity` is the stored account; a
//! `Client` is one of the user's connected devices.  Passwords are kept
//! only as one-way encoded hashes.

use vstd::prelude::*;

use crate::error::AppError;

verus! {

#[derive(Debug, Clone, Copy, PartialEq, Eq, Structural)]
pub enum Role {
    ADMIN,
    USER,
}

#[derive(Debug, Clone)]
pub struct UserEntity {
    pub id: i64,
    pub email: String,
    pub name: String,
    pub password: String,
    pub role: Role,
}

#[derive(Debug, Clone)]
pub struct UserCreate {
    pub email: String,
    pub name: String,
    pub password: String,
    pub role: Option<Role>,
}

#[derive(Debug, Clone)]
pub struct UserLogin {
    pub email: String,
    pub password: String,
}

/// One device of a user.  The public key is carried for the user's peers
/// but not interpreted here.
#[derive(Debug)]
pub struct Client {
    pub id: String,
    pub user_id: i64,
    pub name: String,
    pub pub_key: Option<String>,
}

/// The mathematical image of a `Client`.
pub struct ClientV {
    pub id: Seq<char>,
    pub user_id: int,
    pub name: Seq<char>,
    pub pub_key: Option<Seq<char>>,
}

impl View for Client {
    type V = ClientV;

    open spec fn view(&self) -> ClientV {
        ClientV {
            id: self.id@,
            user_id: self.user_id as int,
            name: self.name@,
            pub_key: match self.pub_key {
                Option::Some(k) => Option::Some(k@),
                Option::None => Option::None,
            },
        }
    }
}

impl Clone for Client {
    fn clone(&self) -> (r: Self)
        ensures
            r@ == self@,
    {
        Client {
            id: self.id.clone(),
            user_id: self.user_id,
            name: self.name.clone(),
            pub_key: match &self.pub_key {
                Option::Some(k) => Option::Some(k.clone()),
                Option::None => Option::None,
            },
        }
    }
}

impl Client {
    pub fn new(id: String, user_id: i64, name: String, pub_key: Option<String>) -> (r: Self)
        ensures
            r.id == id,
            r.user_id == user_id,
            r.name == name,
            r.pub_key == pub_key,
    {
        Self { id, user_id, name, pub_key }
    }
}

pub open spec fn spec_role_from(s: Seq<char>) -> Role {
    if s == "ADMIN"@ {
        Role::ADMIN
    } else {
        Role::USER
    }
}

impl From<String> for Role {
    fn from(role: String) -> (r: Self) {
        if role == "ADMIN".to_owned() {
            Role::ADMIN
        } else {
            Role::USER
        }
    }
}

impl vstd::std_specs::convert::FromSpecImpl<String> for Role {
    open spec fn obeys_from_spec() -> bool {
        true
    }

    open spec fn from_spec(role: String) -> Role {
        spec_role_from(role@)
    }
}

impl From<UserCreate> for UserEntity {
    fn from(request: UserCreate) -> (r: Self) {
        let role = match request.role {
            Option::Some(role) => role,
            Option::None => Role::USER,
        };
        Self {
            id: 0,
            email: request.email,
            name: request.name,
            password: request.password,
            role,
        }
    }
}

impl vstd::std_specs::convert::FromSpecImpl<UserCreate> for UserEntity {
    open spec fn obeys_from_spec() -> bool {
        true
    }

    open spec fn from_spec(request: UserCreate) -> UserEntity {
        UserEntity {
            id: 0,
            email: request.email,
            name: request.name,
            password: request.password,
            role: match request.role {
                Option::Some(role) => role,
                Option::None => Role::USER,
            },
        }
    }
}

/// The encoded hash that the credential store keeps for a password and
/// salt.  It stands for argon2::hash_encoded with the default
/// configuration; only the trusted wrapper below applies it.
pub uninterp spec fn argon2_hash(pwd: Seq<u8>, salt: Seq<u8>) -> Seq<char>;

/// Whether a password matches an encoded hash: `None` when the stored
/// hash does not parse, otherwise the comparison's outcome.  It stands
/// for argon2::verify_encoded; only the trusted wrapper below applies it.
pub uninterp spec fn argon2_verify(encoded: Seq<char>, pwd: Seq<u8>) -> Option<bool>;

/// Relies on rand::thread_rng and Rng::gen: 32 bytes drawn from the
/// thread's generator.  Nothing is assumed of the values themselves.
#[verifier::external_body]
fn random_salt() -> (r: Vec<u8>)
    ensures
        r@.len() == 32,
{
    rand::Rng::gen::<[u8; 32]>(&mut rand::thread_rng()).to_vec()
}

/// Relies on argon2::hash_encoded (rust-argon2): with the default
/// configuration, a 32-byte salt and a password under the length cap it
/// returns the encoded hash, a function of password and salt alone.
#[verifier::external_body]
fn argon2_hash_encoded(pwd: &[u8], salt: &[u8]) -> (r: String)
    requires
        salt@.len() == 32,
        pwd@.len() <= 0xFFFF_FFFF,
    ensures
        r@ == argon2_hash(pwd@, salt@),
{
    argon2::hash_encoded(pwd, salt, &argon2::Config::default()).unwrap()
}

/// Relies on argon2::verify_encoded (rust-argon2): reports whether the
/// password matches the encoded hash, a function of the two arguments
/// alone; a hash that does not parse yields an error, mapped to `None`.
#[verifier::external_body]
fn argon2_verify_encoded(encoded: &str, pwd: &[u8]) -> (r: Option<bool>)
    ensures
        r == argon2_verify(encoded@, pwd@),
{
    argon2::verify_encoded(encoded, pwd).ok()
}

/// What `verify_password` returns for a stored hash and an offered
/// password.
pub open spec fn verify_outcome(encoded: Seq<char>, pwd: Seq<u8>) -> Result<bool, AppError> {
    match argon2_verify(encoded, pwd) {
        Option::Some(b) => Result::Ok(b),
        Option::None => Result::Err(AppError::WrongCredential),
    }
}

impl UserCreate {
    /// Replaces the clear password by its salted one-way hash.  Only a
    /// password whose encoding exceeds the hasher's length cap is
    /// refused; every other field is left as it was.
    pub fn hash_password(&mut self) -> (r: Result<(), AppError>)
        ensures
            final(self).email == old(self).email,
            final(self).name == old(self).name,
            final(self).role == old(self).role,
            match r {
                Result::Ok(_) => exists|salt: Seq<u8>|
                    salt.len() == 32 && final(self).password@ == argon2_hash(
                        vstd::utf8::encode_utf8(old(self).password@),
                        salt,
                    ),
                Result::Err(e) => {
                    &&& e is InternalServerError
                    &&& *final(self) == *old(self)
                    &&& vstd::utf8::encode_utf8(old(self).password@).len() > 0xFFFF_FFFF
                },
            },
    {
        let pwd = self.password.as_str().as_bytes();
        if (pwd.len() as u64) > 0xFFFF_FFFFu64 {
            return Result::Err(AppError::InternalServerError);
        }
        let salt = random_salt();
        let ghost salt_bytes = salt@;
        let encoded = argon2_hash_encoded(pwd, salt.as_slice());
        self.password = encoded;
        assert(final(self).password@ == argon2_hash(
            vstd::utf8::encode_utf8(old(self).password@),
            salt_bytes,
        ));
        Result::Ok(())
    }
}

impl UserEntity {
    /// Whether the offered password matches this account's stored hash.
    /// A stored hash that does not parse counts as a wrong credential.
    pub fn verify_password(&self, password: &[u8]) -> (r: Result<bool, AppError>)
        ensures
            r == verify_outcome(self.password@, password@),
    {
        match argon2_verify_encoded(self.password.as_str(), password) {
            Option::Some(b) => Result::Ok(b),
            Option::None => Result::Err(AppError::WrongCredential),
        }
    }
}

} // verus!
