//! Granting and withdrawing roles. Only an administrator may do either, and only
//! for a role that one of their own roles equals or outranks.
use vstd::prelude::*;

use crate::guards::{admits, check_outcome, require, AuthError, Predicate};
use crate::models::UserEntity;
use crate::roles::{rank, Role};

verus! {

/// Why a role was not granted or withdrawn.
pub enum RoleChangeError {
    /// The caller is not an authenticated administrator.
    Unauthorized(AuthError),
    /// None of the caller's roles equals or outranks the role in question.
    NotAllowed,
    /// The target already holds the role.
    AlreadyHeld,
    /// The target does not hold the role.
    NotHeld,
}

/// Some role in `held` equals or outranks `role`.
pub open spec fn may_assign(held: Seq<Role>, role: Role) -> bool {
    exists|i: int| 0 <= i < held.len() && rank(#[trigger] held[i]) >= rank(role)
}

/// `after` is `before` with possibly other roles: every other field is the same.
pub open spec fn same_but_roles(before: UserEntity, after: UserEntity) -> bool {
    &&& after.id == before.id
    &&& after.name == before.name
    &&& after.email_address == before.email_address
    &&& after.email_verified == before.email_verified
    &&& after.password_hash == before.password_hash
    &&& after.access_token == before.access_token
    &&& after.when_created == before.when_created
    &&& after.last_login == before.last_login
    &&& after.last_access == before.last_access
}

/// The roles of `rs` without `role`.
pub open spec fn without(rs: Seq<Role>, role: Role) -> Seq<Role>
    decreases rs.len(),
{
    if rs.len() == 0 {
        Seq::empty()
    } else {
        without(rs.drop_last(), role) + if rs.last() == role {
            Seq::empty()
        } else {
            seq![rs.last()]
        }
    }
}

fn may_assign_exec(held: &Vec<Role>, role: Role) -> (r: bool)
    ensures
        r == may_assign(held@, role),
{
    let mut i: usize = 0;
    while i < held.len()
        invariant
            i <= held@.len(),
            forall|j: int| 0 <= j < i ==> rank(#[trigger] held@[j]) < rank(role),
        decreases held.len() - i,
    {
        if held[i].covers(&role) {
            return true;
        }
        i = i + 1;
    }
    false
}

fn holds(held: &Vec<Role>, role: Role) -> (r: bool)
    ensures
        r == held@.contains(role),
{
    let mut i: usize = 0;
    while i < held.len()
        invariant
            i <= held@.len(),
            forall|j: int| 0 <= j < i ==> held@[j] != role,
        decreases held.len() - i,
    {
        if held[i] == role {
            assert(held@[i as int] == role);
            return true;
        }
        i = i + 1;
    }
    false
}

/// The outcome shared by both changes when the caller may not make them.
pub open spec fn refused(actor: Option<&UserEntity>, role: Role, r: Result<(), RoleChangeError>) -> bool {
    &&& (!admits(actor, Predicate::HasRole(Role::Admin)) ==> (r matches Err(RoleChangeError::Unauthorized(e))
        && check_outcome(actor, Predicate::HasRole(Role::Admin), Err(e))))
    &&& (admits(actor, Predicate::HasRole(Role::Admin)) && !may_assign(actor->0.roles@, role) ==> r matches Err(
        RoleChangeError::NotAllowed,
    ))
}

/// A request to grant `role` to the identity named (or keyed) `name_or_id`.
pub struct AddRoleInput {
    pub name_or_id: String,
    pub role: Role,
}

/// A request to withdraw `role` from the identity named (or keyed) `name_or_id`.
pub struct RemoveRoleInput {
    pub name_or_id: String,
    pub role: Role,
}

/// The role-changing operations.
pub struct AdminMutations;

impl AdminMutations {
    /// `actor` grants `args.role` to `target`, the identity that `args.name_or_id`
    /// designates. On success the role is added to the target's roles; on any
    /// failure the target is unchanged.
    pub fn add_role(&self, actor: Option<&UserEntity>, args: &AddRoleInput, target: &mut UserEntity) -> (r: Result<(), RoleChangeError>)
        ensures
            grant_post(actor, args.role, *old(target), *final(target), r),
    {
        grant(actor, target, args.role)
    }

    /// `actor` withdraws `args.role` from `target`, the identity that
    /// `args.name_or_id` designates. On success every occurrence of the role leaves
    /// the target's roles; on any failure the target is unchanged.
    pub fn remove_role(&self, actor: Option<&UserEntity>, args: &RemoveRoleInput, target: &mut UserEntity) -> (r: Result<(), RoleChangeError>)
        ensures
            withdraw_post(actor, args.role, *old(target), *final(target), r),
    {
        withdraw(actor, target, args.role)
    }
}

/// What granting `role` does to `before`, giving `after`.
pub open spec fn grant_post(actor: Option<&UserEntity>, role: Role, before: UserEntity, after: UserEntity, r: Result<(), RoleChangeError>) -> bool {
    &&& refused(actor, role, r)
    &&& (r is Ok <==> admits(actor, Predicate::HasRole(Role::Admin)) && may_assign(actor->0.roles@, role)
        && !before.roles@.contains(role))
    &&& (admits(actor, Predicate::HasRole(Role::Admin)) && may_assign(actor->0.roles@, role)
        && before.roles@.contains(role) ==> r matches Err(RoleChangeError::AlreadyHeld))
    &&& (r is Ok ==> after.roles@ == before.roles@.push(role))
    &&& (r is Err ==> after == before)
    &&& same_but_roles(before, after)
}

/// What withdrawing `role` does to `before`, giving `after`.
pub open spec fn withdraw_post(actor: Option<&UserEntity>, role: Role, before: UserEntity, after: UserEntity, r: Result<(), RoleChangeError>) -> bool {
    &&& refused(actor, role, r)
    &&& (r is Ok <==> admits(actor, Predicate::HasRole(Role::Admin)) && may_assign(actor->0.roles@, role)
        && before.roles@.contains(role))
    &&& (admits(actor, Predicate::HasRole(Role::Admin)) && may_assign(actor->0.roles@, role)
        && !before.roles@.contains(role) ==> r matches Err(RoleChangeError::NotHeld))
    &&& (r is Ok ==> after.roles@ == without(before.roles@, role))
    &&& (r is Err ==> after == before)
    &&& same_but_roles(before, after)
}

fn grant(actor: Option<&UserEntity>, target: &mut UserEntity, role: Role) -> (r: Result<(), RoleChangeError>)
    ensures
        refused(actor, role, r),
        r is Ok <==> admits(actor, Predicate::HasRole(Role::Admin)) && may_assign(actor->0.roles@, role)
            && !old(target).roles@.contains(role),
        admits(actor, Predicate::HasRole(Role::Admin)) && may_assign(actor->0.roles@, role) && old(
            target,
        ).roles@.contains(role) ==> r matches Err(RoleChangeError::AlreadyHeld),
        r is Ok ==> final(target).roles@ == old(target).roles@.push(role),
        r is Err ==> *final(target) == *old(target),
        same_but_roles(*old(target), *final(target)),
{
    match require(actor, Predicate::HasRole(Role::Admin)) {
        Err(e) => return Err(RoleChangeError::Unauthorized(e)),
        Ok(()) => {},
    }
    let a = match actor {
        Some(a) => a,
        None => return Err(RoleChangeError::Unauthorized(AuthError::Unauthenticated)),
    };
    if !may_assign_exec(&a.roles, role) {
        return Err(RoleChangeError::NotAllowed);
    }
    if holds(&target.roles, role) {
        return Err(RoleChangeError::AlreadyHeld);
    }
    target.roles.push(role);
    Ok(())
}

fn withdraw(actor: Option<&UserEntity>, target: &mut UserEntity, role: Role) -> (r: Result<(), RoleChangeError>)
    ensures
        refused(actor, role, r),
        r is Ok <==> admits(actor, Predicate::HasRole(Role::Admin)) && may_assign(actor->0.roles@, role)
            && old(target).roles@.contains(role),
        admits(actor, Predicate::HasRole(Role::Admin)) && may_assign(actor->0.roles@, role) && !old(
            target,
        ).roles@.contains(role) ==> r matches Err(RoleChangeError::NotHeld),
        r is Ok ==> final(target).roles@ == without(old(target).roles@, role),
        r is Err ==> *final(target) == *old(target),
        same_but_roles(*old(target), *final(target)),
{
    match require(actor, Predicate::HasRole(Role::Admin)) {
        Err(e) => return Err(RoleChangeError::Unauthorized(e)),
        Ok(()) => {},
    }
    let a = match actor {
        Some(a) => a,
        None => return Err(RoleChangeError::Unauthorized(AuthError::Unauthenticated)),
    };
    if !may_assign_exec(&a.roles, role) {
        return Err(RoleChangeError::NotAllowed);
    }
    if !holds(&target.roles, role) {
        return Err(RoleChangeError::NotHeld);
    }
    let ghost before = target.roles@;
    let mut kept: Vec<Role> = Vec::new();
    let mut i: usize = 0;
    while i < target.roles.len()
        invariant
            target.roles@ == before,
            i <= before.len(),
            kept@ == without(before.subrange(0, i as int), role),
        decreases target.roles.len() - i,
    {
        let x = target.roles[i];
        assert(before.subrange(0, i as int + 1).drop_last() =~= before.subrange(0, i as int));
        if x != role {
            kept.push(x);
        }
        i = i + 1;
        assert(kept@ =~= without(before.subrange(0, i as int), role));
    }
    assert(before.subrange(0, i as int) =~= before);
    target.roles = kept;
    Ok(())
}

} // verus!
