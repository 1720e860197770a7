//! Credentials: how a user's email address is kept, how a password is
//! hashed with a fresh salt, and whether a password is the one that a
//! stored hash was made from. The hashing itself is Argon2's, done by the
//! `argon2` crate; the salt comes from the `rand` crate.

use crate::codes::{std_trim, trimmed};
use argon2::password_hash::{PasswordHash, PasswordHasher, PasswordVerifier, SaltString};
use argon2::Argon2;
use rand::RngCore;
use vstd::prelude::*;

verus! {

/// Why a password could not be hashed or checked.
#[derive(Clone, Copy, Debug, PartialEq, Eq, Structural)]
pub enum AuthError {
    /// No hash could be made of the password.
    HashingFailed,
    /// The stored text is no password hash.
    MalformedHash,
}

/// What is kept of a user: the email address in the form in which it is
/// looked up, and the hash of the password.
#[derive(Debug, PartialEq, Eq)]
pub struct UserRecord {
    pub email: String,
    pub password_hash: String,
}

/// The error that the `argon2` crate's hashing and parsing return.
#[verifier::external_type_specification]
#[verifier::external_body]
pub struct ExPasswordHashError(argon2::password_hash::Error);

/// The text in lower case, as std's `str::to_lowercase` gives it.
pub uninterp spec fn lowercase_of(text: Seq<char>) -> Seq<char>;

/// The hash that Argon2, with the crate's default parameters, makes of a
/// password and a salt, as text; `None` where it makes none.
pub uninterp spec fn argon2_hash_of(password: Seq<char>, salt: Seq<u8>) -> Option<Seq<char>>;

/// Whether Argon2 finds the password to be the one that the hash was made
/// from; `None` where the text is no password hash.
pub uninterp spec fn argon2_verdict_of(password: Seq<char>, hash: Seq<char>) -> Option<bool>;

/// Calls std's `str::to_lowercase`. The result depends on the text alone
/// and is given a name.
#[verifier::external_body]
fn std_to_lowercase(text: &str) -> (r: String)
    ensures
        r@ == lowercase_of(text@),
{
    text.to_lowercase()
}

/// Calls `fill_bytes` on the `rand` crate's `thread_rng()`. Nothing is said
/// of the bytes that come back. The generator stops the program where the
/// system gives it no randomness to start from.
#[verifier::external_body]
fn random_salt() -> (r: [u8; 16]) {
    let mut salt = [0u8; 16];
    rand::thread_rng().fill_bytes(&mut salt);
    salt
}

/// Calls `SaltString::encode_b64` on the salt and `hash_password` on
/// `Argon2::default()`, and writes the hash as text. The result depends on
/// the password and the salt alone and is given a name.
#[verifier::external_body]
fn argon2_hash_password(password: &str, salt: &[u8; 16]) -> (r: Result<
    String,
    argon2::password_hash::Error,
>)
    ensures
        match r {
            Ok(hash) => argon2_hash_of(password@, salt@) == Some(hash@),
            Err(_) => argon2_hash_of(password@, salt@) is None,
        },
{
    let salt = SaltString::encode_b64(salt)?;
    let hash = Argon2::default().hash_password(password.as_bytes(), &salt)?;
    Ok(hash.to_string())
}

/// Calls `PasswordHash::new` on the stored text and `verify_password` on
/// `Argon2::default()`. The result depends on the password and the text
/// alone and is given a name; an error comes back exactly where the text
/// is no password hash.
#[verifier::external_body]
fn argon2_verify_password(password: &str, hash: &str) -> (r: Result<
    bool,
    argon2::password_hash::Error,
>)
    ensures
        match r {
            Ok(valid) => argon2_verdict_of(password@, hash@) == Some(valid),
            Err(_) => argon2_verdict_of(password@, hash@) is None,
        },
{
    let parsed = PasswordHash::new(hash)?;
    Ok(Argon2::default().verify_password(password.as_bytes(), &parsed).is_ok())
}

/// The email address as it is kept and looked up: without the white space
/// around it, in lower case.
pub fn normalized_email(email: &str) -> (r: String)
    ensures
        r@ == lowercase_of(trimmed(email@)),
{
    std_to_lowercase(std_trim(email))
}

/// What hashing a password with a salt comes to, given what Argon2 made
/// of them.
pub open spec fn hash_outcome(made: Option<Seq<char>>, r: Result<String, AuthError>) -> bool {
    match r {
        Ok(hash) => made == Some(hash@),
        Err(e) => e == AuthError::HashingFailed && made is None,
    }
}

/// The hash of the password with the salt.
pub fn hash_password_with_salt(password: &str, salt: &[u8; 16]) -> (r: Result<String, AuthError>)
    ensures
        hash_outcome(argon2_hash_of(password@, salt@), r),
{
    match argon2_hash_password(password, salt) {
        Ok(hash) => Ok(hash),
        Err(_) => Err(AuthError::HashingFailed),
    }
}

/// The hash of the password with a salt of 16 bytes drawn at random.
pub fn hash_password(password: &str) -> (r: Result<String, AuthError>)
    ensures
        exists|salt: Seq<u8>| salt.len() == 16 && hash_outcome(
            #[trigger] argon2_hash_of(password@, salt),
            r,
        ),
{
    let salt = random_salt();
    let r = hash_password_with_salt(password, &salt);
    assert(hash_outcome(argon2_hash_of(password@, salt@), r));
    r
}

/// Whether the password is the one that the stored hash was made from.
/// Refused where the stored text is no password hash.
pub fn verify_password(password: &str, hash: &str) -> (r: Result<bool, AuthError>)
    ensures
        r == (match argon2_verdict_of(password@, hash@) {
            Some(valid) => Ok(valid),
            None => Err(AuthError::MalformedHash),
        }),
{
    match argon2_verify_password(password, hash) {
        Ok(valid) => Ok(valid),
        Err(_) => Err(AuthError::MalformedHash),
    }
}

/// What is to be kept of a user who registers with the email address and
/// the password: the address as it is looked up, and the password's hash
/// with a fresh salt. Refused exactly where Argon2 makes no hash of the
/// password and the salt that was drawn.
pub fn register_user(email: &str, password: &str) -> (r: Result<UserRecord, AuthError>)
    ensures
        exists|salt: Seq<u8>|
            salt.len() == 16 && (match r {
                Ok(user) => user.email@ == lowercase_of(trimmed(email@)) && #[trigger] argon2_hash_of(
                    password@,
                    salt,
                ) == Some(user.password_hash@),
                Err(e) => e == AuthError::HashingFailed && argon2_hash_of(password@, salt) is None,
            }),
{
    let email = normalized_email(email);
    match hash_password(password) {
        Ok(password_hash) => Ok(UserRecord { email, password_hash }),
        Err(e) => Err(e),
    }
}

/// Whether a user may log in with the password: `stored` is the hash kept
/// for the user's email address, if the address is known. An unknown
/// address is not let in, and neither is a wrong password.
pub fn login_user(stored: Option<&str>, password: &str) -> (r: Result<bool, AuthError>)
    ensures
        r == (match stored {
            None => Ok(false),
            Some(hash) => match argon2_verdict_of(password@, hash@) {
                Some(valid) => Ok(valid),
                None => Err(AuthError::MalformedHash),
            },
        }),
{
    match stored {
        None => Ok(false),
        Some(hash) => verify_password(password, hash),
    }
}

} // verus!
