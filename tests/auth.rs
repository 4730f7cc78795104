use channel_hub::admin::{AddRoleInput, AdminMutations, RemoveRoleInput, RoleChangeError};
use channel_hub::guards::{require, AuthError, AuthGuard, Predicate, RoleGuard};
use channel_hub::models::UserEntity;
use channel_hub::roles::{satisfies, Role};

fn user_with(name: &str, roles: Vec<Role>) -> UserEntity {
    let mut u = UserEntity::from_parts(
        format!("id-{}", name),
        name.to_string(),
        format!("{}@example.org", name),
        String::new(),
        1_000,
    );
    u.roles = roles;
    u
}

#[test]
fn role_names() {
    assert_eq!(Role::Root.as_str(), "Root");
    assert_eq!(Role::Admin.as_str(), "Admin");
    assert_eq!(Role::User.as_str(), "User");
}

#[test]
fn role_order_is_strict_and_total() {
    assert!(Role::Root.outranks(&Role::Admin));
    assert!(Role::Admin.outranks(&Role::User));
    assert!(Role::Root.outranks(&Role::User));
    assert!(!Role::User.outranks(&Role::Admin));
    assert!(!Role::Admin.outranks(&Role::Admin));
    let all = [Role::Root, Role::Admin, Role::User];
    for a in all {
        for b in all {
            for c in all {
                if a.outranks(&b) && b.outranks(&c) {
                    assert!(a.outranks(&c));
                }
            }
            if a != b {
                assert!(a.outranks(&b) || b.outranks(&a));
            }
        }
    }
}

#[test]
fn satisfies_uses_any_role_at_or_above() {
    assert!(satisfies(&vec![Role::Root], Role::Admin));
    assert!(satisfies(&vec![Role::User, Role::Admin], Role::Admin));
    assert!(!satisfies(&vec![Role::User], Role::Admin));
    assert!(!satisfies(&vec![], Role::User));
}

#[test]
fn absent_identity_is_unauthenticated() {
    assert!(matches!(require(None, Predicate::Authenticated), Err(AuthError::Unauthenticated)));
    assert!(matches!(require(None, Predicate::HasRole(Role::User)), Err(AuthError::Unauthenticated)));
    assert!(matches!(AuthGuard.check(None), Err(AuthError::Unauthenticated)));
}

#[test]
fn under_privileged_identity_is_forbidden() {
    let u = user_with("bob", vec![Role::User]);
    match require(Some(&u), Predicate::HasRole(Role::Admin)) {
        Err(AuthError::Forbidden { required, held }) => {
            assert_eq!(required, Role::Admin);
            assert_eq!(held, vec![Role::User]);
        }
        _ => panic!("expected Forbidden"),
    }
    assert!(require(Some(&u), Predicate::Authenticated).is_ok());
}

#[test]
fn role_guard_admits_higher_roles() {
    let guard = RoleGuard::new(Role::Admin);
    assert_eq!(guard.role, Role::Admin);
    let root = user_with("root", vec![Role::Root]);
    let admin = user_with("adm", vec![Role::Admin]);
    let plain = user_with("pl", vec![Role::User]);
    let none = user_with("none", vec![]);
    assert!(guard.check(Some(&root)).is_ok());
    assert!(guard.check(Some(&admin)).is_ok());
    assert!(guard.check(Some(&plain)).is_err());
    assert!(guard.check(Some(&none)).is_err());
}

#[test]
fn root_grants_and_withdraws_admin() {
    let root = user_with("root", vec![Role::Root]);
    let mut target = user_with("bob", vec![Role::User]);
    let add = AddRoleInput { name_or_id: "bob".to_string(), role: Role::Admin };
    assert!(AdminMutations.add_role(Some(&root), &add, &mut target).is_ok());
    assert_eq!(target.roles, vec![Role::User, Role::Admin]);
    assert!(matches!(AdminMutations.add_role(Some(&root), &add, &mut target), Err(RoleChangeError::AlreadyHeld)));
    let rm = RemoveRoleInput { name_or_id: "bob".to_string(), role: Role::Admin };
    assert!(AdminMutations.remove_role(Some(&root), &rm, &mut target).is_ok());
    assert_eq!(target.roles, vec![Role::User]);
    assert!(matches!(AdminMutations.remove_role(Some(&root), &rm, &mut target), Err(RoleChangeError::NotHeld)));
}

#[test]
fn admin_grants_its_own_rank_but_not_above() {
    let admin = user_with("adm", vec![Role::Admin]);
    let mut target = user_with("bob", vec![Role::User]);
    let add = AddRoleInput { name_or_id: "bob".to_string(), role: Role::Admin };
    assert!(AdminMutations.add_role(Some(&admin), &add, &mut target).is_ok());
    assert_eq!(target.roles, vec![Role::User, Role::Admin]);
    assert_eq!(target.name, "bob");
    let root = AddRoleInput { name_or_id: "bob".to_string(), role: Role::Root };
    assert!(matches!(AdminMutations.add_role(Some(&admin), &root, &mut target), Err(RoleChangeError::NotAllowed)));
    assert_eq!(target.roles, vec![Role::User, Role::Admin]);
    let mut other = user_with("cy", vec![Role::User]);
    let rm = RemoveRoleInput { name_or_id: "cy".to_string(), role: Role::Admin };
    assert!(matches!(AdminMutations.remove_role(Some(&admin), &rm, &mut other), Err(RoleChangeError::NotHeld)));
    let plain = user_with("pl", vec![Role::User]);
    match AdminMutations.add_role(Some(&plain), &add, &mut other) {
        Err(RoleChangeError::Unauthorized(AuthError::Forbidden { required, .. })) => assert_eq!(required, Role::Admin),
        _ => panic!("expected Forbidden"),
    }
    assert!(matches!(
        AdminMutations.add_role(None, &add, &mut other),
        Err(RoleChangeError::Unauthorized(AuthError::Unauthenticated))
    ));
}

#[test]
fn remove_role_drops_every_occurrence() {
    let root = user_with("root", vec![Role::Root]);
    let mut target = user_with("bob", vec![Role::User, Role::Admin, Role::User]);
    let rm = RemoveRoleInput { name_or_id: "bob".to_string(), role: Role::User };
    assert!(AdminMutations.remove_role(Some(&root), &rm, &mut target).is_ok());
    assert_eq!(target.roles, vec![Role::Admin]);
}
