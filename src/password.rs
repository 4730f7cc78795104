//! Password hashing and secret generation, by dryoc.
use vstd::prelude::*;

verus! {

/// What `dryoc` answers when `password` is checked against the encoded hash `hash`.
pub uninterp spec fn password_verifies(hash: Seq<char>, password: Seq<char>) -> bool;

/// Relies on dryoc's `VecPwHash::from_string` and `PwHash::verify`: the encoded hash
/// carries its salt and parameters, so the answer depends on the two texts alone.
/// A hash that does not parse verifies nothing.
#[verifier::external_body]
pub fn verify_password(hash: &String, password: &String) -> (r: bool)
    ensures
        r == password_verifies(hash@, password@),
{
    match dryoc::pwhash::VecPwHash::from_string(hash.as_str()) {
        Ok(h) => h.verify(password.as_bytes()).is_ok(),
        Err(_) => false,
    }
}

/// Relies on dryoc's `PwHash::hash` with a random salt, encoded by
/// `PwHash::to_encoded_string`. The salt is random, so the text itself is not
/// stated; but, as dryoc's own example for `to_encoded_string` shows, a hash it
/// returns verifies the password it was made from.
#[verifier::external_body]
pub fn hash_password(password: &String) -> (r: Option<String>)
    ensures
        r matches Some(h) ==> password_verifies(h@, password@),
{
    let config = dryoc::pwhash::Config::interactive().with_opslimit(1).with_memlimit(8192);
    match dryoc::pwhash::VecPwHash::hash(password.as_bytes(), config) {
        Ok(h) => h.to_encoded_string().ok(),
        Err(_) => None,
    }
}

/// Relies on dryoc's `rng::randombytes_buf`: `len` bytes from the operating
/// system's cryptographic generator. They are random, so only their number is stated.
#[verifier::external_body]
pub(crate) fn random_bytes(len: usize) -> (r: Vec<u8>)
    ensures
        r@.len() == len,
{
    dryoc::rng::randombytes_buf(len)
}

} // verus!
