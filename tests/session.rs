use channel_hub::models::{AccessToken, AccessTokenEntity, UserEntity};
use channel_hub::password::{hash_password, verify_password};
use channel_hub::session::{CreateUserInput, UserError};
use channel_hub::session::{
    build_access_token, confirm_access_token, get_user_from_token, issue_access_token_at, resolve_at,
    token_expiry, CreateAccessToken, SessionError, UserMutations, NEVER_EXPIRES,
    TOKEN_BYTES,
};

fn user_with_tokens(name: &str, tokens: Vec<(&str, i64)>) -> UserEntity {
    let mut u = UserEntity::from_parts(
        format!("id-{}", name),
        name.to_string(),
        format!("{}@example.org", name),
        String::new(),
        0,
    );
    u.access_token = tokens
        .into_iter()
        .map(|(t, e)| AccessTokenEntity::new(t.to_string(), e))
        .collect();
    u
}

#[test]
fn never_expires_is_the_end_of_year_9999() {
    let end = chrono::DateTime::parse_from_rfc3339("9999-12-31T23:59:59.00Z").unwrap();
    assert_eq!(end.timestamp_millis(), NEVER_EXPIRES);
}

#[test]
fn expiry_of_a_lifetime() {
    assert_eq!(token_expiry(1_000, 0), Ok(NEVER_EXPIRES));
    assert_eq!(token_expiry(1_000, 60), Ok(1_000 + 3_600_000));
    assert_eq!(token_expiry(0, 43_201), Ok(43_201 * 60_000));
    assert_eq!(token_expiry(1_000, -1), Ok(1_000 - 60_000));
    assert_eq!(token_expiry(i64::MAX - 10, 1), Err(SessionError::InvalidLifetime));
    assert_eq!(token_expiry(i64::MIN + 10, -1), Err(SessionError::InvalidLifetime));
    assert_eq!(token_expiry(0, i64::MAX), Err(SessionError::InvalidLifetime));
}

#[test]
fn expired_token_never_resolves() {
    let users = vec![user_with_tokens("ann", vec![("tok", 500)])];
    assert_eq!(resolve_at(&users, &"tok".to_string(), 500), Some(0));
    assert_eq!(resolve_at(&users, &"tok".to_string(), 501), None);
    assert_eq!(resolve_at(&users, &"tok".to_string(), i64::MAX), None);
}

#[test]
fn never_expiring_token_resolves_far_ahead() {
    let users = vec![
        user_with_tokens("ann", vec![("a", 10)]),
        user_with_tokens("bob", vec![("old", 1), ("forever", NEVER_EXPIRES)]),
    ];
    assert_eq!(resolve_at(&users, &"forever".to_string(), 0), Some(1));
    assert_eq!(resolve_at(&users, &"forever".to_string(), NEVER_EXPIRES), Some(1));
    assert_eq!(resolve_at(&users, &"missing".to_string(), 0), None);
}

#[test]
fn first_owner_wins() {
    let users = vec![
        user_with_tokens("ann", vec![("shared", 5)]),
        user_with_tokens("bob", vec![("shared", 50)]),
    ];
    assert_eq!(resolve_at(&users, &"shared".to_string(), 1), Some(0));
    assert_eq!(resolve_at(&users, &"shared".to_string(), 10), Some(1));
    assert!(get_user_from_token(&users, &"nothing".to_string()).is_none());
}

#[test]
fn resolved_identity_has_no_password_hash() {
    let mut u = user_with_tokens("ann", vec![("live", NEVER_EXPIRES)]);
    u.password_hash = "secret-hash".to_string();
    u.roles = vec![channel_hub::roles::Role::Admin];
    let users = vec![u];
    let found = get_user_from_token(&users, &"live".to_string()).unwrap();
    assert_eq!(found.name, "ann");
    assert_eq!(found.roles, vec![channel_hub::roles::Role::Admin]);
    assert_eq!(found.access_token.len(), 1);
    assert!(found.password_hash.is_empty());
    assert_eq!(users[0].password_hash, "secret-hash");
}

#[test]
fn record_access_sets_only_last_access() {
    let mut u = user_with_tokens("ann", vec![]);
    u.record_access(77);
    assert_eq!(u.last_access, 77);
    assert_eq!(u.last_login, 0);
}

#[test]
fn confirmed_token_is_recorded() {
    let mut u = user_with_tokens("ann", vec![]);
    let pending = build_access_token("abc".to_string(), 1_000, 60).unwrap();
    assert_eq!(pending.expire, 1_000 + 3_600_000);
    let t: AccessToken = confirm_access_token(&mut u, pending, 1, 2_000).ok().unwrap();
    assert_eq!(t.token, "abc");
    assert_eq!(t.expire, 1_000 + 3_600_000);
    assert_eq!(u.access_token.len(), 1);
    assert_eq!(u.last_login, 2_000);
}

#[test]
fn unrecorded_token_is_not_issued() {
    let mut u = user_with_tokens("ann", vec![]);
    let pending = build_access_token("abc".to_string(), 1_000, 0).unwrap();
    assert_eq!(pending.expire, NEVER_EXPIRES);
    assert!(matches!(confirm_access_token(&mut u, pending, 0, 2_000), Err(SessionError::PersistenceError)));
    assert!(u.access_token.is_empty());
    assert_eq!(u.last_login, 0);
}

#[test]
fn access_token_from_entity() {
    let t = AccessToken::from(AccessTokenEntity::new("xyz".to_string(), 9));
    assert_eq!(t.token, "xyz");
    assert_eq!(t.expire, 9);
}

#[test]
fn password_hash_verifies_only_its_password() {
    let hash = hash_password(&"correct horse".to_string()).unwrap();
    assert_ne!(hash, "correct horse");
    assert!(verify_password(&hash, &"correct horse".to_string()));
    assert!(!verify_password(&hash, &"wrong horse".to_string()));
    assert!(!verify_password(&"not a hash".to_string(), &"correct horse".to_string()));
}

#[test]
fn login_issues_a_random_base64_token() {
    let mut u = user_with_tokens("ann", vec![]);
    u.password_hash = hash_password(&"secret".to_string()).unwrap();
    let t = issue_access_token_at(&u, &"secret".to_string(), 60, 5_000).ok().unwrap();
    assert_eq!(t.expire, 5_000 + 3_600_000);
    // 32 random bytes become 44 characters of padded base64
    assert_eq!(t.token.len(), 44);
    let raw = base64::decode(&t.token).unwrap();
    assert_eq!(raw.len(), TOKEN_BYTES);
    assert!(matches!(
        issue_access_token_at(&u, &"nope".to_string(), 60, 5_000),
        Err(SessionError::InvalidCredential)
    ));
    assert!(issue_access_token_at(&u, &"secret".to_string(), 50_000, 5_000).is_ok());
    assert!(matches!(
        issue_access_token_at(&u, &"secret".to_string(), i64::MAX, 5_000),
        Err(SessionError::InvalidLifetime)
    ));
    // the password is checked first, whatever the lifetime
    assert!(matches!(
        issue_access_token_at(&u, &"nope".to_string(), i64::MAX, 5_000),
        Err(SessionError::InvalidCredential)
    ));
    let args = CreateAccessToken { name: "ann".to_string(), password: "secret".to_string(), expire: 0 };
    let t2 = UserMutations.create_access_token(Some(&u), &args).ok().unwrap();
    assert_eq!(t2.expire, NEVER_EXPIRES);
    assert_ne!(t.token, t2.token);
    assert!(matches!(UserMutations.create_access_token(None, &args), Err(SessionError::InvalidCredential)));
}

#[test]
fn new_identity_hashes_its_password() {
    let u = UserEntity::new("id1".to_string(), "ann".to_string(), "a@x.io".to_string(), &"pw12".to_string()).unwrap();
    assert!(verify_password(&u.password_hash, &"pw12".to_string()));
    assert!(u.roles.is_empty());
    assert_eq!(u.when_created, u.last_access);
    assert!(!verify_password(&u.password_hash, &"pw13".to_string()));
}

#[test]
fn registration_refuses_a_taken_name() {
    let existing = user_with_tokens("ann", vec![]);
    let input = CreateUserInput { name: "ann".to_string(), email: "ann@x.io".to_string(), password: "pw12".to_string() };
    assert!(matches!(UserMutations.create_user(Some(&existing), input, "id9".to_string()), Err(UserError::Taken)));
    let input = CreateUserInput { name: "zoe".to_string(), email: "zoe@x.io".to_string(), password: "pw34".to_string() };
    let u = UserMutations.create_user(None, input, "id9".to_string()).ok().unwrap();
    assert_eq!(u.id, "id9");
    assert_eq!(u.name, "zoe");
    assert!(u.email_verified);
    assert!(verify_password(&u.password_hash, &"pw34".to_string()));
}
