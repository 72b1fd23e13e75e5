//! Accounts: the checks of sign-up, sign-in and password reset, and the
//! claims that a session token carries.

use vstd::prelude::*;
use crate::text::{byte_len, contains_char, lowercase, same_text, to_lowercase, trim, trimmed};

verus! {

/// JWT claims payload.
pub struct Claims {
    /// The user's email.
    pub sub: String,
    pub name: String,
    pub exp: usize,
    pub iat: usize,
}

/// Auth result sent to the client.
pub struct AuthUser {
    pub email: String,
    pub display_name: String,
}

/// How long a session token stays valid, in seconds (seven days).
pub const TOKEN_LIFETIME: usize = 604800;

/// How long a password-reset token stays valid, in seconds (one hour).
pub const RESET_LIFETIME: i64 = 3600;

/// An email address as accounts are keyed by it: trimmed, then lowercased.
pub open spec fn normalized_email(email: Seq<char>) -> Seq<char> {
    lowercase(trimmed(email))
}

/// The email address as accounts are keyed by it (`normalized_email`).
pub fn normalize_email(email: &str) -> (res: String)
    ensures
        res@ == normalized_email(email@),
{
    to_lowercase(trim(email))
}

/// Why a sign-up is refused, if it is: the checks in order.
pub open spec fn signup_error(email: Seq<char>, password: Seq<char>, display_name: Seq<char>) -> Option<Seq<char>> {
    if !normalized_email(email).contains('@') {
        Some("Invalid email"@)
    } else if byte_len(password) < 6 {
        Some("Password must be at least 6 characters"@)
    } else if trimmed(display_name).len() == 0 {
        Some("Display name cannot be empty"@)
    } else {
        None
    }
}

/// Checks a sign-up: the email must hold an `@` once trimmed and lowercased,
/// the password must have at least 6 bytes, and the display name must not be
/// blank. Returns the account as it is stored: the normalised email and the
/// trimmed display name.
pub fn validate_signup(email: &str, password: &str, display_name: &str) -> (res: Result<AuthUser, String>)
    ensures
        match signup_error(email@, password@, display_name@) {
            Some(m) => res matches Err(e) && e@ == m,
            None => res matches Ok(u) && u.email@ == normalized_email(email@) && u.display_name@ == trimmed(display_name@),
        },
{
    let email = normalize_email(email);
    if !contains_char(email.as_str(), '@') {
        return Err("Invalid email".to_owned());
    }
    if password.len() < 6 {
        return Err("Password must be at least 6 characters".to_owned());
    }
    let display_name = trim(display_name);
    if display_name.unicode_len() == 0 {
        return Err("Display name cannot be empty".to_owned());
    }
    Ok(AuthUser { email, display_name: display_name.to_owned() })
}

/// What `bcrypt::verify` makes of a password and a stored hash: whether the
/// password hashes to it, `None` where the hash cannot be read.
pub uninterp spec fn bcrypt_verdict(password: Seq<char>, hash: Seq<char>) -> Option<bool>;

/// Checks a password against a bcrypt hash (`bcrypt::verify`). The contract
/// names the result: the salt and cost are read from the hash and the
/// password is hashed again, which is not restated here; an unreadable hash
/// gives `None`.
#[verifier::external_body]
fn bcrypt_verify(password: &str, hash: &str) -> (res: Option<bool>)
    ensures
        res == bcrypt_verdict(password@, hash@),
{
    bcrypt::verify(password, hash).ok()
}

/// Hashes a password with a fresh random salt at bcrypt's default cost
/// (`bcrypt::hash`). The contract claims that a hash that comes back is one
/// that `bcrypt::verify` accepts for the same password; the salt, and so the
/// hash itself, is left unsaid, as is the text of a failure.
#[verifier::external_body]
fn bcrypt_hash(password: &str) -> (res: Result<String, String>)
    ensures
        res matches Ok(h) ==> bcrypt_verdict(password@, h@) == Some(true),
{
    match bcrypt::hash(password, bcrypt::DEFAULT_COST) {
        Ok(h) => Ok(h),
        Err(e) => Err(e.to_string()),
    }
}

/// Hashes a password for storage: a hash that `check_password` accepts for
/// this password, or the reason bcrypt could not make one.
pub fn hash_password(password: &str) -> (res: Result<String, String>)
    ensures
        res matches Ok(h) ==> bcrypt_verdict(password@, h@) == Some(true),
        res matches Err(m) ==> exists|e: Seq<char>| m@ == "Failed to hash password: "@ + e,
{
    match bcrypt_hash(password) {
        Ok(h) => Ok(h),
        Err(e) => {
            let mut m = "Failed to hash password: ".to_owned();
            m.append(e.as_str());
            assert(m@ == "Failed to hash password: "@ + e@);
            Err(m)
        },
    }
}

/// Checks a sign-in password against the stored hash: refused, with the same
/// message as an unknown email, unless bcrypt accepts it.
pub fn check_password(password: &str, hash: &str) -> (res: Result<(), String>)
    ensures
        res is Ok <==> bcrypt_verdict(password@, hash@) == Some(true),
        res matches Err(e) ==> e@ == "Invalid email or password"@,
{
    match bcrypt_verify(password, hash) {
        Some(true) => Ok(()),
        _ => Err("Invalid email or password".to_owned()),
    }
}

/// The check of a new password: at least 6 bytes.
pub fn check_new_password(new_password: &str) -> (res: Result<(), String>)
    ensures
        res is Ok <==> byte_len(new_password@) >= 6,
        res matches Err(e) ==> e@ == "Password must be at least 6 characters"@,
{
    if new_password.len() < 6 {
        return Err("Password must be at least 6 characters".to_owned());
    }
    Ok(())
}

/// Why a password-reset token is refused, if it is, given the token and
/// deadline stored for the account and the time `now` (in seconds).
pub open spec fn reset_token_error(stored: Option<Seq<char>>, expires: Option<i64>, token: Seq<char>, now: i64) -> Option<Seq<char>> {
    if stored is None || expires is None {
        Some("No reset request pending"@)
    } else if stored.unwrap() != trimmed(token) {
        Some("Invalid reset token"@)
    } else if now > expires.unwrap() {
        Some("Reset token has expired"@)
    } else {
        None
    }
}

/// Checks a password-reset token (trimmed) against the one stored for the
/// account and its deadline (`reset_token_error`).
pub fn check_reset_token(stored: &Option<String>, expires: Option<i64>, token: &str, now: i64) -> (res: Result<(), String>)
    ensures
        match reset_token_error(
            match stored { Some(s) => Some(s@), None => None },
            expires,
            token@,
            now,
        ) {
            Some(m) => res matches Err(e) && e@ == m,
            None => res is Ok,
        },
{
    let token = trim(token);
    let user_token = match stored {
        Some(s) => s,
        None => {
            return Err("No reset request pending".to_owned());
        },
    };
    let deadline = match expires {
        Some(e) => e,
        None => {
            return Err("No reset request pending".to_owned());
        },
    };
    if !same_text(user_token.as_str(), token) {
        return Err("Invalid reset token".to_owned());
    }
    if now > deadline {
        return Err("Reset token has expired".to_owned());
    }
    Ok(())
}

/// The deadline of a password-reset token requested at time `now`.
pub fn reset_deadline(now: i64) -> (res: i64)
    requires
        now + RESET_LIFETIME <= i64::MAX,
    ensures
        res == now + RESET_LIFETIME,
{
    now + RESET_LIFETIME
}

/// The claims of a session token issued at time `now` (in seconds) for the
/// account: its email and display name, valid for seven days.
pub fn new_claims(email: &str, display_name: &str, now: usize) -> (res: Claims)
    requires
        now + TOKEN_LIFETIME <= usize::MAX,
    ensures
        res.sub@ == email@,
        res.name@ == display_name@,
        res.iat == now,
        res.exp == now + TOKEN_LIFETIME,
{
    Claims { sub: email.to_owned(), name: display_name.to_owned(), exp: now + TOKEN_LIFETIME, iat: now }
}

} // verus!
