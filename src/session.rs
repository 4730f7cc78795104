use vstd::prelude::*;

use crate::external::{base64_of, encode_base64, now_millis, CLOCK_MAX_MILLIS};
use crate::password::{hash_password, password_verifies, random_bytes, verify_password};
use crate::guards::copy_roles;
use crate::models::{AccessToken, AccessTokenEntity, UserEntity};

verus! {

/// Expiry of a token that never expires: 9999-12-31T23:59:59Z in milliseconds.
pub const NEVER_EXPIRES: i64 = 253402300799000;


/// Milliseconds in a minute.
pub const MILLIS_PER_MINUTE: i64 = 60000;

/// How many random bytes a token carries: 256 bits.
pub const TOKEN_BYTES: usize = 32;

/// Why a session operation failed.
#[derive(Debug, Clone, Copy, PartialEq, Eq, Structural)]
pub enum SessionError {
    /// The password does not match the stored hash.
    InvalidCredential,
    /// The requested lifetime is out of range, or its expiry cannot be represented.
    InvalidLifetime,
    /// The token could not be recorded; it was not issued.
    PersistenceError,
}

/// `t` is the token `token` and has not expired at `now`.
pub open spec fn token_valid(t: AccessTokenEntity, token: Seq<char>, now: int) -> bool {
    t.token@ == token && now <= t.expire
}

/// `u` holds a token `token` that is valid at `now`.
pub open spec fn owns_valid_token(u: UserEntity, token: Seq<char>, now: int) -> bool {
    exists|i: int|
        0 <= i < u.access_token@.len() && token_valid(#[trigger] u.access_token@[i], token, now)
}

/// `token` resolves at `now` to the identity at index `i`: the first that owns it validly.
pub open spec fn resolves_to(users: Seq<UserEntity>, token: Seq<char>, now: int, i: int) -> bool {
    &&& 0 <= i < users.len()
    &&& owns_valid_token(users[i], token, now)
    &&& forall|j: int| 0 <= j < i ==> !owns_valid_token(#[trigger] users[j], token, now)
}

/// The outcome of resolving `token` at `now` among `users`.
pub open spec fn resolution(users: Seq<UserEntity>, token: Seq<char>, now: int, r: Option<usize>) -> bool {
    match r {
        Some(i) => resolves_to(users, token, now, i as int),
        None => forall|j: int| 0 <= j < users.len() ==> !owns_valid_token(#[trigger] users[j], token, now),
    }
}

/// A bearer token as a caller presents it.
pub struct AuthToken(pub String);

/// A requested lifetime, in minutes, that a token can be issued for at `now`:
/// zero (never expires), or one whose expiry is a representable instant.
pub open spec fn lifetime_ok(now: int, minutes: int) -> bool {
    minutes == 0 || i64::MIN <= now + minutes * MILLIS_PER_MINUTE <= i64::MAX
}

/// A lifetime that can be issued at any instant the clock can report.
pub open spec fn lifetime_ok_at_any_time(minutes: int) -> bool {
    minutes == 0 || (0 <= minutes && minutes * MILLIS_PER_MINUTE <= i64::MAX - CLOCK_MAX_MILLIS)
}

/// The expiry of a token issued at `now` for `minutes`; zero means never.
pub open spec fn expiry_for(now: int, minutes: int) -> int {
    if minutes == 0 {
        NEVER_EXPIRES as int
    } else {
        now + minutes * MILLIS_PER_MINUTE
    }
}

impl UserEntity {
    /// Whether this identity holds `token`, valid at `now`.
    pub fn has_valid_token(&self, token: &String, now: i64) -> (r: bool)
        ensures
            r == owns_valid_token(*self, token@, now as int),
    {
        let mut i: usize = 0;
        while i < self.access_token.len()
            invariant
                i <= self.access_token@.len(),
                forall|j: int|
                    0 <= j < i ==> !token_valid(#[trigger] self.access_token@[j], token@, now as int),
            decreases self.access_token.len() - i,
        {
            let t = &self.access_token[i];
            if t.token == *token && now <= t.expire {
                return true;
            }
            i = i + 1;
        }
        false
    }

    /// Records an access at `now`; nothing else changes.
    pub fn record_access(&mut self, now: i64)
        ensures
            final(self).last_access == now,
            final(self).id == old(self).id,
            final(self).name == old(self).name,
            final(self).email_address == old(self).email_address,
            final(self).email_verified == old(self).email_verified,
            final(self).roles == old(self).roles,
            final(self).password_hash == old(self).password_hash,
            final(self).access_token == old(self).access_token,
            final(self).when_created == old(self).when_created,
            final(self).last_login == old(self).last_login,
    {
        self.last_access = now;
    }

    /// A fresh identity whose password is stored as a salted hash; `None` when hashing fails.
    pub fn new(id: String, name: String, email: String, password: &String) -> (r: Option<Self>)
        ensures
            r matches Some(u) ==> u.id == id && u.name == name && u.email_address == email
                && u.email_verified && u.roles@.len() == 0 && u.access_token@.len() == 0
                && u.when_created == u.last_login && u.last_login == u.last_access
                && password_verifies(u.password_hash@, password@),
    {
        match hash_password(password) {
            Some(hash) => Some(UserEntity::from_parts(id, name, email, hash, now_millis())),
            None => None,
        }
    }
}

/// Finds the identity that `auth_token` belongs to at `now`: the index of the first
/// identity holding it unexpired, or `None`.
pub fn resolve_at(users: &Vec<UserEntity>, auth_token: &String, now: i64) -> (r: Option<usize>)
    ensures
        resolution(users@, auth_token@, now as int, r),
{
    let mut i: usize = 0;
    while i < users.len()
        invariant
            i <= users@.len(),
            forall|j: int| 0 <= j < i ==> !owns_valid_token(#[trigger] users@[j], auth_token@, now as int),
        decreases users.len() - i,
    {
        if users[i].has_valid_token(auth_token, now) {
            return Some(i);
        }
        i = i + 1;
    }
    None
}

/// `copy` is `u` as handed out: every field the same but the password hash, which
/// is empty.
pub open spec fn public_copy(u: UserEntity, copy: UserEntity) -> bool {
    &&& copy.id == u.id
    &&& copy.name == u.name
    &&& copy.email_address == u.email_address
    &&& copy.email_verified == u.email_verified
    &&& copy.roles@ == u.roles@
    &&& copy.password_hash@.len() == 0
    &&& copy.access_token@ == u.access_token@
    &&& copy.when_created == u.when_created
    &&& copy.last_login == u.last_login
    &&& copy.last_access == u.last_access
}

fn without_secret(u: &UserEntity) -> (r: UserEntity)
    ensures
        public_copy(*u, r),
{
    let mut tokens: Vec<AccessTokenEntity> = Vec::new();
    let mut i: usize = 0;
    while i < u.access_token.len()
        invariant
            i <= u.access_token@.len(),
            tokens@ == u.access_token@.subrange(0, i as int),
        decreases u.access_token.len() - i,
    {
        let t = &u.access_token[i];
        tokens.push(AccessTokenEntity { token: t.token.clone(), expire: t.expire });
        i = i + 1;
        assert(tokens@ =~= u.access_token@.subrange(0, i as int));
    }
    assert(tokens@ =~= u.access_token@);
    UserEntity {
        id: u.id.clone(),
        name: u.name.clone(),
        email_address: u.email_address.clone(),
        email_verified: u.email_verified,
        roles: copy_roles(&u.roles),
        password_hash: String::new(),
        access_token: tokens,
        when_created: u.when_created,
        last_login: u.last_login,
        last_access: u.last_access,
    }
}

/// `r` is what resolving `token` among `users` at `now` hands out: a public copy of
/// the identity it resolves to, or `None` when it resolves to none.
pub open spec fn handed_out(users: Seq<UserEntity>, token: Seq<char>, now: int, r: Option<UserEntity>) -> bool {
    match r {
        Some(copy) => exists|i: int| resolves_to(users, token, now, i) && public_copy(#[trigger] users[i], copy),
        None => resolution(users, token, now, None),
    }
}

/// The identity that `auth_token` belongs to now, by the system clock, without its
/// password hash; `None` when no identity holds it unexpired.
pub fn get_user_from_token(users: &Vec<UserEntity>, auth_token: &String) -> (r: Option<UserEntity>)
    ensures
        exists|now: int| 0 <= now <= CLOCK_MAX_MILLIS && #[trigger] handed_out(users@, auth_token@, now, r),
{
    let now = now_millis();
    let r = match resolve_at(users, auth_token, now) {
        Some(i) => {
            let copy = without_secret(&users[i]);
            assert(resolves_to(users@, auth_token@, now as int, i as int) && public_copy(users@[i as int], copy));
            Some(copy)
        },
        None => None,
    };
    assert(handed_out(users@, auth_token@, now as int, r));
    r
}

/// The expiry of a token issued at `now` for `minutes`, zero meaning never.
pub fn token_expiry(now: i64, minutes: i64) -> (r: Result<i64, SessionError>)
    ensures
        r is Ok <==> lifetime_ok(now as int, minutes as int),
        r matches Ok(e) ==> e == expiry_for(now as int, minutes as int),
        r is Err ==> r == Err::<i64, SessionError>(SessionError::InvalidLifetime),
{
    if minutes == 0 {
        return Ok(NEVER_EXPIRES);
    }
    let expire: i128 = now as i128 + minutes as i128 * MILLIS_PER_MINUTE as i128;
    if expire < i64::MIN as i128 || expire > i64::MAX as i128 {
        return Err(SessionError::InvalidLifetime);
    }
    Ok(expire as i64)
}

/// A token `token` issued at `now` for `minutes`.
pub fn build_access_token(token: String, now: i64, minutes: i64) -> (r: Result<AccessTokenEntity, SessionError>)
    ensures
        r is Ok <==> lifetime_ok(now as int, minutes as int),
        r matches Ok(t) ==> t.token == token && t.expire == expiry_for(now as int, minutes as int),
        r is Err ==> r matches Err(SessionError::InvalidLifetime),
{
    match token_expiry(now, minutes) {
        Ok(expire) => Ok(AccessTokenEntity::new(token, expire)),
        Err(e) => Err(e),
    }
}

/// Issues a token at `now` for `user` if `password` matches: the base64 text of
/// `TOKEN_BYTES` random bytes.
/// The token is only pending: `confirm_access_token` records it once it is stored.
pub fn issue_access_token_at(user: &UserEntity, password: &String, minutes: i64, now: i64) -> (r: Result<AccessTokenEntity, SessionError>)
    ensures
        !password_verifies(user.password_hash@, password@) ==> r matches Err(SessionError::InvalidCredential),
        password_verifies(user.password_hash@, password@) && !lifetime_ok(now as int, minutes as int)
            ==> r matches Err(SessionError::InvalidLifetime),
        r is Ok <==> lifetime_ok(now as int, minutes as int) && password_verifies(user.password_hash@, password@),
        r matches Ok(t) ==> t.expire == expiry_for(now as int, minutes as int)
            && exists|u: Seq<u8>| u.len() == TOKEN_BYTES && t.token@ == base64_of(u),
{
    if !verify_password(&user.password_hash, password) {
        return Err(SessionError::InvalidCredential);
    }
    match token_expiry(now, minutes) {
        Err(e) => Err(e),
        Ok(_) => {
            let raw = random_bytes(TOKEN_BYTES);
            let token = encode_base64(&raw);
            build_access_token(token, now, minutes)
        },
    }
}

/// A login request: the identity's name or e-mail address, its password, and the
/// lifetime asked for in minutes (zero: never expires).
pub struct CreateAccessToken {
    pub name: String,
    pub password: String,
    pub expire: i64,
}

/// The identity operations.
pub struct UserMutations;

/// A registration request.
pub struct CreateUserInput {
    pub name: String,
    pub email: String,
    pub password: String,
}

/// Why no identity was created.
#[derive(Debug, Clone, Copy, PartialEq, Eq, Structural)]
pub enum UserError {
    /// An identity with that name or e-mail address exists.
    Taken,
    /// The password could not be hashed.
    HashFailed,
}

impl UserMutations {
    /// Creates the identity that `input` describes under the id `id`. `existing` is
    /// what the store holds under the same name or e-mail address, if anything.
    pub fn create_user(&self, existing: Option<&UserEntity>, input: CreateUserInput, id: String) -> (r: Result<UserEntity, UserError>)
        ensures
            existing is Some ==> r matches Err(UserError::Taken),
            existing is None ==> (r is Ok || r matches Err(UserError::HashFailed)),
            r matches Ok(u) ==> u.id == id && u.name == input.name && u.email_address == input.email
                && u.email_verified && u.roles@.len() == 0 && u.access_token@.len() == 0
                && password_verifies(u.password_hash@, input.password@),
    {
        if existing.is_some() {
            return Err(UserError::Taken);
        }
        match UserEntity::new(id, input.name, input.email, &input.password) {
            Some(u) => Ok(u),
            None => Err(UserError::HashFailed),
        }
    }

    /// Issues a token now, by the system clock, for `user`, the identity that
    /// `args.name` designates (`None` when there is none); see `issue_access_token_at`.
    pub fn create_access_token(&self, user: Option<&UserEntity>, args: &CreateAccessToken) -> (r: Result<AccessTokenEntity, SessionError>)
        ensures
            user is None ==> r matches Err(SessionError::InvalidCredential),
            user is Some && !password_verifies(user->0.password_hash@, args.password@)
                ==> r matches Err(SessionError::InvalidCredential),
            user is Some && password_verifies(user->0.password_hash@, args.password@) && lifetime_ok_at_any_time(
                args.expire as int,
            ) ==> r is Ok,
            r is Err ==> r matches Err(SessionError::InvalidCredential) || r matches Err(
                SessionError::InvalidLifetime,
            ),
            r matches Ok(t) ==> exists|now: i64| 0 <= now <= CLOCK_MAX_MILLIS && t.expire == expiry_for(
                now as int,
                args.expire as int,
            ),
    {
        match user {
            None => Err(SessionError::InvalidCredential),
            Some(u) => {
                let now = now_millis();
                issue_access_token_at(u, &args.password, args.expire, now)
            },
        }
    }
}

/// Records a pending token once the store reports how many records the append
/// changed. Exactly one means it was stored: the token joins the identity's tokens,
/// `last_login` becomes `now` and the token is returned. Otherwise nothing changes.
pub fn confirm_access_token(user: &mut UserEntity, pending: AccessTokenEntity, modified_count: u64, now: i64) -> (r: Result<AccessToken, SessionError>)
    ensures
        r is Ok <==> modified_count == 1,
        r matches Ok(t) ==> t.token@ == pending.token@ && t.expire == pending.expire,
        modified_count == 1 ==> final(user).access_token@ == old(user).access_token@.push(pending)
            && final(user).last_login == now,
        modified_count != 1 ==> (r matches Err(SessionError::PersistenceError)) && *final(user) == *old(user),
        final(user).id == old(user).id,
        final(user).name == old(user).name,
        final(user).email_address == old(user).email_address,
        final(user).email_verified == old(user).email_verified,
        final(user).roles == old(user).roles,
        final(user).password_hash == old(user).password_hash,
        final(user).when_created == old(user).when_created,
        final(user).last_access == old(user).last_access,
{
    if modified_count != 1 {
        return Err(SessionError::PersistenceError);
    }
    let token = pending.token.clone();
    let expire = pending.expire;
    user.access_token.push(pending);
    user.last_login = now;
    Ok(AccessToken { token, expire })
}

/// A token past its expiry is refused, whoever holds it; a token that never
/// expires is accepted at every instant up to the end of representable time.
pub proof fn lemma_token_expiry(users: Seq<UserEntity>, token: Seq<char>, now: int, u: UserEntity, k: int)
    ensures
        (forall|i: int, j: int|
            0 <= i < users.len() && 0 <= j < users[i].access_token@.len()
                && (#[trigger] users[i].access_token@[j]).token@ == token
                ==> users[i].access_token@[j].expire < now)
            ==> resolution(users, token, now, None),
        0 <= k < u.access_token@.len() && u.access_token@[k].expire == NEVER_EXPIRES && now <= NEVER_EXPIRES
            ==> owns_valid_token(u, u.access_token@[k].token@, now),
{
    if forall|i: int, j: int|
        0 <= i < users.len() && 0 <= j < users[i].access_token@.len()
            && (#[trigger] users[i].access_token@[j]).token@ == token
            ==> users[i].access_token@[j].expire < now {
        assert forall|i: int| 0 <= i < users.len() implies !owns_valid_token(#[trigger] users[i], token, now) by {
            if owns_valid_token(users[i], token, now) {
                let j = choose|j: int|
                    0 <= j < users[i].access_token@.len() && token_valid(#[trigger] users[i].access_token@[j], token, now);
                assert(users[i].access_token@[j].token@ == token);
            }
        }
    }
    if 0 <= k < u.access_token@.len() && u.access_token@[k].expire == NEVER_EXPIRES && now <= NEVER_EXPIRES {
        assert(token_valid(u.access_token@[k], u.access_token@[k].token@, now));
    }
}

} // verus!
