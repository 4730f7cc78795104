use vstd::prelude::*;

use crate::models::UserEntity;
use crate::roles::{satisfies, spec_satisfies, Role};

verus! {

/// Why an operation was refused.
pub enum AuthError {
    /// No identity, or no valid credential.
    Unauthenticated,
    /// An identity was present but none of its roles reaches `required`.
    Forbidden { required: Role, held: Vec<Role> },
}

/// A condition an operation places on its caller.
#[derive(Debug, Clone, Copy, PartialEq, Eq, Structural)]
pub enum Predicate {
    Authenticated,
    HasRole(Role),
}

/// Whether a check under `predicate` admits `identity`.
pub open spec fn admits(identity: Option<&UserEntity>, predicate: Predicate) -> bool {
    match identity {
        None => false,
        Some(u) => match predicate {
            Predicate::Authenticated => true,
            Predicate::HasRole(required) => spec_satisfies(u.roles@, required),
        },
    }
}

/// The contract shared by every check: success exactly when admitted, and the
/// failure says whether the caller was unknown or lacked a role.
pub open spec fn check_outcome(
    identity: Option<&UserEntity>,
    predicate: Predicate,
    r: Result<(), AuthError>,
) -> bool {
    &&& (r is Ok <==> admits(identity, predicate))
    &&& (identity is None ==> r matches Err(AuthError::Unauthenticated))
    &&& (identity is Some && !admits(identity, predicate) ==> match r {
        Err(AuthError::Forbidden { required, held }) => predicate == Predicate::HasRole(required)
            && held@ == identity->0.roles@,
        _ => false,
    })
}

pub(crate) fn copy_roles(roles: &Vec<Role>) -> (r: Vec<Role>)
    ensures
        r@ == roles@,
{
    let mut out: Vec<Role> = Vec::new();
    let mut i: usize = 0;
    while i < roles.len()
        invariant
            i <= roles.len(),
            out@ == roles@.subrange(0, i as int),
        decreases roles.len() - i,
    {
        out.push(roles[i]);
        i = i + 1;
        assert(out@ =~= roles@.subrange(0, i as int));
    }
    assert(out@ =~= roles@);
    out
}

/// Accepts or rejects an operation on behalf of `identity`.
pub fn require(identity: Option<&UserEntity>, predicate: Predicate) -> (r: Result<(), AuthError>)
    ensures
        check_outcome(identity, predicate, r),
{
    match identity {
        None => Err(AuthError::Unauthenticated),
        Some(u) => match predicate {
            Predicate::Authenticated => Ok(()),
            Predicate::HasRole(required) => {
                if satisfies(&u.roles, required) {
                    Ok(())
                } else {
                    Err(AuthError::Forbidden { required, held: copy_roles(&u.roles) })
                }
            },
        },
    }
}

/// Admits any authenticated caller.
pub struct AuthGuard;

impl AuthGuard {
    pub fn check(&self, identity: Option<&UserEntity>) -> (r: Result<(), AuthError>)
        ensures
            check_outcome(identity, Predicate::Authenticated, r),
    {
        require(identity, Predicate::Authenticated)
    }
}

/// Admits a caller holding `role` or a role above it.
pub struct RoleGuard {
    pub role: Role,
}

impl RoleGuard {
    pub fn new(role: Role) -> (r: Self)
        ensures
            r.role == role,
    {
        Self { role }
    }

    pub fn check(&self, identity: Option<&UserEntity>) -> (r: Result<(), AuthError>)
        ensures
            check_outcome(identity, Predicate::HasRole(self.role), r),
    {
        require(identity, Predicate::HasRole(self.role))
    }
}

} // verus!
