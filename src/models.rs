use vstd::prelude::*;

use crate::roles::Role;

verus! {

/// A bearer token held by an identity, with its expiry in milliseconds since the epoch.
pub struct AccessTokenEntity {
    pub token: String,
    pub expire: i64,
}

impl AccessTokenEntity {
    pub fn new(t: String, e: i64) -> (r: Self)
        ensures
            r.token == t,
            r.expire == e,
    {
        Self { token: t, expire: e }
    }
}

/// A stored identity. Timestamps are milliseconds since the epoch; `id` is the
/// identity's unique key in hexadecimal form.
pub struct UserEntity {
    pub id: String,
    pub name: String,
    pub email_address: String,
    pub email_verified: bool,
    pub roles: Vec<Role>,
    pub password_hash: String,
    pub access_token: Vec<AccessTokenEntity>,
    pub when_created: i64,
    pub last_login: i64,
    pub last_access: i64,
}

impl UserEntity {
    /// A fresh identity: no roles, no tokens, every timestamp set to `now`.
    pub fn from_parts(id: String, name: String, email: String, password_hash: String, now: i64) -> (r: Self)
        ensures
            r.id == id,
            r.name == name,
            r.email_address == email,
            r.email_verified,
            r.roles@.len() == 0,
            r.password_hash == password_hash,
            r.access_token@.len() == 0,
            r.when_created == now,
            r.last_login == now,
            r.last_access == now,
    {
        Self {
            id,
            name,
            email_address: email,
            email_verified: true,
            roles: Vec::new(),
            password_hash,
            access_token: Vec::new(),
            when_created: now,
            last_login: now,
            last_access: now,
        }
    }
}

/// The token handed back to a caller that logged in: `{token, expire}`.
pub struct AccessToken {
    pub token: String,
    pub expire: i64,
}

impl From<AccessTokenEntity> for AccessToken {
    fn from(t: AccessTokenEntity) -> (r: Self) {
        AccessToken { token: t.token, expire: t.expire }
    }
}

impl vstd::std_specs::convert::FromSpecImpl<AccessTokenEntity> for AccessToken {
    open spec fn obeys_from_spec() -> bool {
        true
    }

    open spec fn from_spec(t: AccessTokenEntity) -> AccessToken {
        AccessToken { token: t.token, expire: t.expire }
    }
}

/// The public snapshot of an identity, as embedded in a chat message. It carries
/// no password hash and no tokens.
pub struct User {
    pub id: String,
    pub name: String,
    pub email_address: String,
    pub email_verified: bool,
    pub roles: Vec<Role>,
    pub when_created: i64,
    pub last_login: i64,
}

impl From<UserEntity> for User {
    fn from(e: UserEntity) -> (r: Self) {
        User {
            id: e.id,
            name: e.name,
            email_address: e.email_address,
            email_verified: e.email_verified,
            roles: e.roles,
            when_created: e.when_created,
            last_login: e.last_login,
        }
    }
}

impl vstd::std_specs::convert::FromSpecImpl<UserEntity> for User {
    open spec fn obeys_from_spec() -> bool {
        true
    }

    open spec fn from_spec(e: UserEntity) -> User {
        User {
            id: e.id,
            name: e.name,
            email_address: e.email_address,
            email_verified: e.email_verified,
            roles: e.roles,
            when_created: e.when_created,
            last_login: e.last_login,
        }
    }
}

} // verus!
