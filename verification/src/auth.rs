//! Authentication: credentials are checked against the stored hash through
//! the password-auth crate, and a session stays valid exactly as long as
//! the hash it was issued under is still the stored one.

use vstd::prelude::*;

use crate::models::users::find_user;
use crate::models::users::User;
use crate::store::Store;

verus! {

/// The credentials a login form submits, with the optional path to return
/// to after the login.
pub struct Credentials {
    pub username: String,
    pub password: String,
    pub next: Option<String>,
}

impl Clone for Credentials {
    fn clone(&self) -> (r: Self)
        ensures
            r.username@ == self.username@,
            r.password@ == self.password@,
            r.next is Some <==> self.next is Some,
            r.next is Some ==> r.next->0@ == self.next->0@,
    {
        Credentials {
            username: self.username.clone(),
            password: self.password.clone(),
            next: match &self.next {
                Some(n) => Some(n.clone()),
                None => None,
            },
        }
    }
}

/// Whether this password verifies against this hash, as
/// `password_auth::verify_password` decides it; a function of the two
/// strings alone.
pub uninterp spec fn password_verifies(password: Seq<char>, hash: Seq<char>) -> bool;

/// Relies on `password_auth::verify_password`: parses the PHC hash string
/// and verifies the password against it, deterministically in its two
/// arguments.
#[verifier::external_body]
fn verify_password_hash(password: &str, hash: &str) -> (r: bool)
    ensures
        r == password_verifies(password@, hash@),
{
    password_auth::verify_password(password, hash).is_ok()
}

/// Relies on `password_auth::generate_hash`: hashes the password with a
/// fresh random salt. Which hash comes back depends on the salt, so the
/// result carries no name; what holds of every outcome is the crate's own
/// guarantee, that the password verifies against the generated hash.
#[verifier::external_body]
pub fn generate_password_hash(password: &str) -> (r: String)
    ensures
        password_verifies(password@, r@),
{
    password_auth::generate_hash(password)
}

/// The credentials name an existing user whose stored hash the password
/// verifies against.
pub open spec fn auth_ok(users: Seq<User>, username: Seq<char>, password: Seq<char>) -> bool {
    &&& find_user(users, username) is Some
    &&& password_verifies(password, find_user(users, username)->0.password@)
}

/// The user the credentials authenticate as, when the username exists and
/// the password verifies against the stored hash; a missing user and a
/// failing password are both a plain "no match", never distinguished.
pub fn authenticate(s: &Store, creds: &Credentials) -> (r: Option<User>)
    ensures
        r is Some <==> auth_ok(s.users@, creds.username@, creds.password@),
        r is Some ==> r == find_user(s.users@, creds.username@),
{
    let user = match User::get_by_username(s, creds.username.as_str()) {
        Some(user) => user,
        None => {
            return None;
        },
    };
    if verify_password_hash(creds.password.as_str(), user.password.as_str()) {
        Some(user)
    } else {
        None
    }
}

/// A session carries the hash it was issued under; it remains valid exactly
/// while that hash is the user's current one, so a password change cuts off
/// every older session.
pub fn session_still_valid(session_hash: &str, user: &User) -> (r: bool)
    ensures
        r == (session_hash@ == user.password@),
{
    let sh = session_hash.to_owned();
    sh == user.password
}

} // verus!
