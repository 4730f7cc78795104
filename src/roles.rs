use vstd::prelude::*;

verus! {

/// A privilege level. `Root` is the highest, `User` the lowest.
#[derive(Debug, Clone, Copy, PartialEq, Eq, Structural)]
pub enum Role {
    Root,
    Admin,
    User,
}

/// Numeric rank of a role: a higher rank carries every privilege of a lower one.
pub open spec fn rank(r: Role) -> int {
    match r {
        Role::Root => 2,
        Role::Admin => 1,
        Role::User => 0,
    }
}

/// `a` strictly outranks `b`.
pub open spec fn spec_outranks(a: Role, b: Role) -> bool {
    rank(a) > rank(b)
}

/// Some role in `held` equals or outranks `required`.
pub open spec fn spec_satisfies(held: Seq<Role>, required: Role) -> bool {
    exists|i: int| 0 <= i < held.len() && rank(#[trigger] held[i]) >= rank(required)
}

/// The name under which a role is shown and sent over the wire.
pub open spec fn role_name(r: Role) -> Seq<char> {
    match r {
        Role::Root => "Root"@,
        Role::Admin => "Admin"@,
        Role::User => "User"@,
    }
}

impl Role {
    pub fn as_str(&self) -> (r: &'static str)
        ensures
            r@ == role_name(*self),
    {
        match self {
            Role::Root => "Root",
            Role::Admin => "Admin",
            Role::User => "User",
        }
    }

    pub fn rank(&self) -> (r: u8)
        ensures
            r as int == rank(*self),
    {
        match self {
            Role::Root => 2,
            Role::Admin => 1,
            Role::User => 0,
        }
    }

    /// Whether this role strictly outranks `other`.
    pub fn outranks(&self, other: &Role) -> (r: bool)
        ensures
            r == spec_outranks(*self, *other),
    {
        self.rank() > other.rank()
    }

    /// Whether this role equals or outranks `required`.
    pub fn covers(&self, required: &Role) -> (r: bool)
        ensures
            r == (rank(*self) >= rank(*required)),
    {
        self.rank() >= required.rank()
    }
}

/// Whether any role in `held` equals or outranks `required`.
pub fn satisfies(held: &Vec<Role>, required: Role) -> (r: bool)
    ensures
        r == spec_satisfies(held@, required),
{
    let mut i: usize = 0;
    while i < held.len()
        invariant
            i <= held.len(),
            forall|j: int| 0 <= j < i ==> rank(#[trigger] held@[j]) < rank(required),
        decreases held.len() - i,
    {
        if held[i].covers(&required) {
            return true;
        }
        i = i + 1;
    }
    false
}

/// The role order: `Root` outranks `Admin`, `Admin` outranks `User`, `User` does not
/// outrank `Admin`; outranking is irreflexive, transitive and total on distinct roles.
pub proof fn lemma_role_order(a: Role, b: Role, c: Role)
    ensures
        spec_outranks(Role::Root, Role::Admin),
        spec_outranks(Role::Admin, Role::User),
        !spec_outranks(Role::User, Role::Admin),
        !spec_outranks(a, a),
        spec_outranks(a, b) && spec_outranks(b, c) ==> spec_outranks(a, c),
        a != b ==> spec_outranks(a, b) || spec_outranks(b, a),
{
}

/// A higher role satisfies every check that a lower one satisfies.
pub proof fn lemma_satisfies_upward(held: Seq<Role>, lower: Role, higher: Role)
    requires
        spec_satisfies(held, higher),
        rank(higher) >= rank(lower),
    ensures
        spec_satisfies(held, lower),
{
}

} // verus!
