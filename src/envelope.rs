//! The events carried over channels, and their wire form: canonical JSON text in
//! UTF-8, one object per message, with fields in a fixed order. Decoding accepts
//! exactly the texts that encoding produces.
use vstd::prelude::*;
use vstd::seq_lib::lemma_concat_associative;
use vstd::string::StringSliceAdditionalSpecFns;

use crate::models::User;
use crate::roles::Role;
use crate::wire::{
    at, byte_at, end_of, CLOSE_BRACE, COMMA, OPEN_BRACE, f_bool, f_int, f_str, field_bool, field_i64, field_str, field_u64,
    lemma_at_byte, lemma_at_concat, lemma_at_single, lit_at, match_bytes, peek_is, push_all,
    push_field_bool, push_field_i64, push_field_str, push_field_u64, push_lit,
};

verus! {

/// Whether a file-system entry is a file or a folder.
#[derive(Debug, Clone, Copy, PartialEq, Eq, Structural)]
pub enum ObjectType {
    File,
    Folder,
}

pub open spec fn enc_role(r: Role) -> Seq<u8> {
    match r {
        Role::Root => seq![34u8, 82, 111, 111, 116, 34],
        Role::Admin => seq![34u8, 65, 100, 109, 105, 110, 34],
        Role::User => seq![34u8, 85, 115, 101, 114, 34],
    }
}

fn push_role(out: &mut Vec<u8>, r: Role)
    ensures
        final(out)@ == old(out)@ + enc_role(r),
{
    match r {
        Role::Root => {
            let a: [u8; 6] = [34u8, 82, 111, 111, 116, 34];
            assert(a@ == enc_role(r));
            push_all(out, &a);
        },
        Role::Admin => {
            let a: [u8; 7] = [34u8, 65, 100, 109, 105, 110, 34];
            assert(a@ == enc_role(r));
            push_all(out, &a);
        },
        Role::User => {
            let a: [u8; 6] = [34u8, 85, 115, 101, 114, 34];
            assert(a@ == enc_role(r));
            push_all(out, &a);
        },
    }
}

fn role_at(b: &Vec<u8>, p: Option<usize>) -> (r: Option<(Role, usize)>)
    ensures
        forall|m: Role| #![trigger enc_role(m)] p is Some && at(b@, p->0 as int, enc_role(m)) ==> r == Some((m, (p->0 + enc_role(m).len()) as usize)),
        r is Some ==> p is Some && (r->0).1 > p->0,
{
    let len = b.len();
    let q = match p {
        Some(q) => q,
        None => return None,
    };
    let root: [u8; 6] = [34u8, 82, 111, 111, 116, 34];
    let admin: [u8; 7] = [34u8, 65, 100, 109, 105, 110, 34];
    let user: [u8; 6] = [34u8, 85, 115, 101, 114, 34];
    assert(root@ == enc_role(Role::Root));
    assert(admin@ == enc_role(Role::Admin));
    assert(user@ == enc_role(Role::User));
    let r = if match_bytes(b, q, &root) {
        Some((Role::Root, q + 6))
    } else if match_bytes(b, q, &admin) {
        Some((Role::Admin, q + 7))
    } else if match_bytes(b, q, &user) {
        Some((Role::User, q + 6))
    } else {
        None
    };
    proof {
        assert forall|m: Role| #![trigger enc_role(m)] p is Some && at(b@, p->0 as int, enc_role(m)) implies r == Some((m, (p->0 + enc_role(m).len()) as usize)) by {
            lemma_at_byte(b@, q as int, enc_role(m), 1);
            if at(b@, q as int, enc_role(Role::Root)) {
                lemma_at_byte(b@, q as int, enc_role(Role::Root), 1);
            }
            if at(b@, q as int, enc_role(Role::Admin)) {
                lemma_at_byte(b@, q as int, enc_role(Role::Admin), 1);
            }
        }
    }
    r
}

/// The roles after the first: each preceded by a comma, then the closing bracket.
pub open spec fn roles_rest(rs: Seq<Role>) -> Seq<u8>
    decreases rs.len(),
{
    if rs.len() == 0 {
        seq![93u8]
    } else {
        seq![44u8] + (enc_role(rs[0]) + roles_rest(rs.drop_first()))
    }
}

/// A list of roles, as a JSON array of role names.
pub open spec fn enc_roles(rs: Seq<Role>) -> Seq<u8> {
    if rs.len() == 0 {
        seq![91u8, 93u8]
    } else {
        seq![91u8] + (enc_role(rs[0]) + roles_rest(rs.drop_first()))
    }
}

fn push_roles_rest(out: &mut Vec<u8>, rs: &Vec<Role>, i: usize)
    requires
        i <= rs@.len(),
    ensures
        final(out)@ == old(out)@ + roles_rest(rs@.subrange(i as int, rs@.len() as int)),
    decreases rs@.len() - i,
{
    let ghost start = out@;
    let ghost t = rs@.subrange(i as int, rs@.len() as int);
    if i == rs.len() {
        out.push(93);
        assert(t =~= Seq::<Role>::empty());
        assert(out@ =~= start + roles_rest(t));
    } else {
        out.push(44);
        push_role(out, rs[i]);
        push_roles_rest(out, rs, i + 1);
        assert(t.drop_first() =~= rs@.subrange(i + 1, rs@.len() as int));
        assert(out@ =~= start + roles_rest(t));
    }
}

fn push_roles(out: &mut Vec<u8>, rs: &Vec<Role>)
    ensures
        final(out)@ == old(out)@ + enc_roles(rs@),
{
    let ghost start = out@;
    if rs.len() == 0 {
        out.push(91);
        out.push(93);
        assert(out@ =~= start + enc_roles(rs@));
    } else {
        out.push(91);
        push_role(out, rs[0]);
        push_roles_rest(out, rs, 1);
        assert(rs@.drop_first() =~= rs@.subrange(1, rs@.len() as int));
        assert(out@ =~= start + enc_roles(rs@));
    }
}

fn roles_rest_at(b: &Vec<u8>, q: usize) -> (r: Option<(Vec<Role>, usize)>)
    ensures
        forall|m: Seq<Role>| #![trigger roles_rest(m)] at(b@, q as int, roles_rest(m)) ==> (r matches Some((v, e)) && v@ == m && e == q
            + roles_rest(m).len()),
    decreases b@.len() - q,
{
    broadcast use {lemma_at_concat, lemma_at_single};

    let len = b.len();
    if q >= len {
        return None;
    }
    if b[q] == 93 {
        let r = Some((Vec::new(), q + 1));
        proof {
            assert forall|m: Seq<Role>| #![trigger roles_rest(m)] at(b@, q as int, roles_rest(m)) implies (r matches Some((v, e)) && v@ == m
                && e == q + roles_rest(m).len()) by {
                if m.len() > 0 {
                    assert(at(b@, q as int, seq![44u8] + (enc_role(m[0]) + roles_rest(m.drop_first()))));
                }
                assert(m =~= Seq::<Role>::empty());
            }
        }
        return r;
    }
    if b[q] != 44 {
        proof {
            assert forall|m: Seq<Role>| #![trigger roles_rest(m)] at(b@, q as int, roles_rest(m)) implies false by {
                if m.len() > 0 {
                    assert(at(b@, q as int, seq![44u8] + (enc_role(m[0]) + roles_rest(m.drop_first()))));
                }
            }
        }
        return None;
    }
    let first = role_at(b, Some(q + 1));
    let (x, q2) = match first {
        Some(v) => v,
        None => {
            proof {
                assert forall|m: Seq<Role>| #![trigger roles_rest(m)] at(b@, q as int, roles_rest(m)) implies false by {
                    if m.len() > 0 {
                        assert(at(b@, q as int, seq![44u8] + (enc_role(m[0]) + roles_rest(m.drop_first()))));
                        assert(at(b@, q + 1, enc_role(m[0]) + roles_rest(m.drop_first())));
                    }
                }
            }
            return None;
        },
    };
    if q2 > len {
        return None;
    }
    let rest = roles_rest_at(b, q2);
    let r = match rest {
        Some((v, e)) => {
            let mut v = v;
            v.insert(0, x);
            Some((v, e))
        },
        None => None,
    };
    proof {
        assert forall|m: Seq<Role>| #![trigger roles_rest(m)] at(b@, q as int, roles_rest(m)) implies (r matches Some((v, e)) && v@ == m
            && e == q + roles_rest(m).len()) by {
            if m.len() > 0 {
                assert(at(b@, q as int, seq![44u8] + (enc_role(m[0]) + roles_rest(m.drop_first()))));
                assert(at(b@, q + 1, enc_role(m[0]) + roles_rest(m.drop_first())));
                assert(at(b@, q + 1 + enc_role(m[0]).len(), roles_rest(m.drop_first())));
                let v = (r->0).0;
                assert(v@ =~= m);
            }
        }
    }
    r
}

fn roles_at(b: &Vec<u8>, p: Option<usize>) -> (r: Option<(Vec<Role>, usize)>)
    ensures
        forall|m: Seq<Role>| #![trigger enc_roles(m)] p is Some && at(b@, p->0 as int, enc_roles(m)) ==> (r matches Some((v, e)) && v@
            == m && e == p->0 + enc_roles(m).len()),
{
    let len = b.len();
    let q = match byte_at(b, p, 91) {
        Some(q) => q,
        None => {
            proof {
                assert forall|m: Seq<Role>| #![trigger enc_roles(m)] p is Some && at(b@, p->0 as int, enc_roles(m)) implies false by {
                    lemma_at_byte(b@, p->0 as int, enc_roles(m), 0);
                }
            }
            return None;
        },
    };
    if q < len && b[q] == 93 {
        let r = Some((Vec::new(), q + 1));
        proof {
            assert forall|m: Seq<Role>| #![trigger enc_roles(m)] p is Some && at(b@, p->0 as int, enc_roles(m)) implies (r matches Some((v, e))
                && v@ == m && e == p->0 + enc_roles(m).len()) by {
                lemma_at_byte(b@, p->0 as int, enc_roles(m), 1);
                if m.len() > 0 {
                    assert(enc_roles(m)[1] == enc_role(m[0])[0]);
                } else {
                    assert(m =~= Seq::<Role>::empty());
                }
            }
        }
        return r;
    }
    let first = role_at(b, Some(q));
    let r = match first {
        Some((x, q2)) => match roles_rest_at(b, q2) {
            Some((v, e)) => {
                let mut v = v;
                v.insert(0, x);
                Some((v, e))
            },
            None => None,
        },
        None => None,
    };
    proof {
        assert forall|m: Seq<Role>| #![trigger enc_roles(m)] p is Some && at(b@, p->0 as int, enc_roles(m)) implies (r matches Some((v, e))
            && v@ == m && e == p->0 + enc_roles(m).len()) by {
            lemma_at_byte(b@, p->0 as int, enc_roles(m), 1);
            if m.len() > 0 {
                let x = enc_role(m[0]);
                let t = roles_rest(m.drop_first());
                lemma_at_concat(b@, p->0 as int, seq![91u8], x + t);
                lemma_at_concat(b@, q as int, x, t);
                let v = (r->0).0;
                assert(v@ =~= m);
            }
        }
    }
    r
}


/// The public snapshot of an identity, as a value.

pub struct UserView {
    pub id: Seq<char>,
    pub name: Seq<char>,
    pub email_address: Seq<char>,
    pub email_verified: bool,
    pub roles: Seq<Role>,
    pub when_created: i64,
    pub last_login: i64,
}

impl View for User {
    type V = UserView;

    open spec fn view(&self) -> UserView {
        UserView {
            id: self.id@,
            name: self.name@,
            email_address: self.email_address@,
            email_verified: self.email_verified,
            roles: self.roles@,
            when_created: self.when_created,
            last_login: self.last_login,
        }
    }
}

pub open spec fn enc_user(c: UserView) -> Seq<u8> {
    seq![OPEN_BRACE] + (f_str("\"id\":", c.id, COMMA) + (f_str("\"name\":", c.name, COMMA) + (f_str("\"email_address\":", c.email_address, COMMA) + (f_bool("\"email_verified\":", c.email_verified, COMMA) + (f_roles("\"roles\":", c.roles, COMMA) + (f_int("\"when_created\":", c.when_created as int, COMMA) + f_int("\"last_login\":", c.last_login as int, CLOSE_BRACE)))))))
}

pub fn push_user(out: &mut Vec<u8>, c: &User)
    ensures
        final(out)@ == old(out)@ + enc_user(c@),
{
    let ghost start = out@;
    out.push(OPEN_BRACE);
    let ghost o0 = out@;
    push_field_str(out, "\"id\":", &c.id, COMMA);
    let ghost o1 = out@;
    push_field_str(out, "\"name\":", &c.name, COMMA);
    let ghost o2 = out@;
    push_field_str(out, "\"email_address\":", &c.email_address, COMMA);
    let ghost o3 = out@;
    push_field_bool(out, "\"email_verified\":", c.email_verified, COMMA);
    let ghost o4 = out@;
    push_field_roles(out, "\"roles\":", &c.roles, COMMA);
    let ghost o5 = out@;
    push_field_i64(out, "\"when_created\":", c.when_created, COMMA);
    let ghost o6 = out@;
    push_field_i64(out, "\"last_login\":", c.last_login, CLOSE_BRACE);
    proof {
        let f0 = f_str("\"id\":", c@.id, COMMA);
        let f1 = f_str("\"name\":", c@.name, COMMA);
        let f2 = f_str("\"email_address\":", c@.email_address, COMMA);
        let f3 = f_bool("\"email_verified\":", c@.email_verified, COMMA);
        let f4 = f_roles("\"roles\":", c@.roles, COMMA);
        let f5 = f_int("\"when_created\":", c@.when_created as int, COMMA);
        let f6 = f_int("\"last_login\":", c@.last_login as int, CLOSE_BRACE);
        lemma_concat_associative(o5, f5, f6);
        lemma_concat_associative(o4, f4, f5 + f6);
        lemma_concat_associative(o3, f3, f4 + (f5 + f6));
        lemma_concat_associative(o2, f2, f3 + (f4 + (f5 + f6)));
        lemma_concat_associative(o1, f1, f2 + (f3 + (f4 + (f5 + f6))));
        lemma_concat_associative(o0, f0, f1 + (f2 + (f3 + (f4 + (f5 + f6)))));
        lemma_concat_associative(start, seq![OPEN_BRACE], f0 + (f1 + (f2 + (f3 + (f4 + (f5 + f6))))));
    }
}

pub fn user_at(b: &Vec<u8>, p: Option<usize>) -> (r: Option<(User, usize)>)
    ensures
        forall|m: UserView| #![trigger enc_user(m)] p is Some && at(b@, p->0 as int, enc_user(m)) ==> (r matches Some((
            c,
            e,
        )) && c@ == m && e == p->0 + enc_user(m).len()),
{
    let len = b.len();
    let v_id = field_str(b, byte_at(b, p, OPEN_BRACE), "\"id\":", COMMA);
    let v_name = field_str(b, end_of(&v_id), "\"name\":", COMMA);
    let v_email_address = field_str(b, end_of(&v_name), "\"email_address\":", COMMA);
    let v_email_verified = field_bool(b, end_of(&v_email_address), "\"email_verified\":", COMMA);
    let v_roles = field_roles(b, end_of(&v_email_verified), "\"roles\":", COMMA);
    let v_when_created = field_i64(b, end_of(&v_roles), "\"when_created\":", COMMA);
    let v_last_login = field_i64(b, end_of(&v_when_created), "\"last_login\":", CLOSE_BRACE);
    let r = match (v_id, v_name, v_email_address, v_email_verified, v_roles, v_when_created, v_last_login) {
        (
            Some((id, _)),
            Some((name, _)),
            Some((email_address, _)),
            Some((email_verified, _)),
            Some((roles, _)),
            Some((when_created, _)),
            Some((last_login, e)),
        ) => Some((User { id, name, email_address, email_verified, roles, when_created, last_login }, e)),
        _ => None,
    };
    proof {
        assert forall|m: UserView| #![trigger enc_user(m)] p is Some && at(b@, p->0 as int, enc_user(m)) implies (r matches Some((
            c,
            e,
        )) && c@ == m && e == p->0 + enc_user(m).len()) by {
            let f0 = f_str("\"id\":", m.id, COMMA);
            let f1 = f_str("\"name\":", m.name, COMMA);
            let f2 = f_str("\"email_address\":", m.email_address, COMMA);
            let f3 = f_bool("\"email_verified\":", m.email_verified, COMMA);
            let f4 = f_roles("\"roles\":", m.roles, COMMA);
            let f5 = f_int("\"when_created\":", m.when_created as int, COMMA);
            let f6 = f_int("\"last_login\":", m.last_login as int, CLOSE_BRACE);
            let q = p->0 as int;
            lemma_at_concat(b@, q, seq![OPEN_BRACE], f0 + (f1 + (f2 + (f3 + (f4 + (f5 + f6))))));
            lemma_at_single(b@, q, OPEN_BRACE);
            let q = q + 1;
            lemma_at_concat(b@, q, f0, f1 + (f2 + (f3 + (f4 + (f5 + f6)))));
            let q = q + f0.len();
            lemma_at_concat(b@, q, f1, f2 + (f3 + (f4 + (f5 + f6))));
            let q = q + f1.len();
            lemma_at_concat(b@, q, f2, f3 + (f4 + (f5 + f6)));
            let q = q + f2.len();
            lemma_at_concat(b@, q, f3, f4 + (f5 + f6));
            let q = q + f3.len();
            lemma_at_concat(b@, q, f4, f5 + f6);
            let q = q + f4.len();
            lemma_at_concat(b@, q, f5, f6);
        }
    }
    r
}


/// A channel, as embedded in the messages sent to it. Timestamps are milliseconds
/// since the epoch.
pub struct Channel {
    pub id: String,
    pub name: String,
    pub description: String,
    pub public: bool,
    pub when_created: i64,
    pub last_publish: i64,
    pub last_subscribe: i64,
}

/// A channel, as a value.
pub struct ChannelView {
    pub id: Seq<char>,
    pub name: Seq<char>,
    pub description: Seq<char>,
    pub public: bool,
    pub when_created: i64,
    pub last_publish: i64,
    pub last_subscribe: i64,
}

impl View for Channel {
    type V = ChannelView;

    open spec fn view(&self) -> ChannelView {
        ChannelView {
            id: self.id@,
            name: self.name@,
            description: self.description@,
            public: self.public,
            when_created: self.when_created,
            last_publish: self.last_publish,
            last_subscribe: self.last_subscribe,
        }
    }
}

pub open spec fn enc_channel(c: ChannelView) -> Seq<u8> {
    seq![OPEN_BRACE] + (f_str("\"id\":", c.id, COMMA) + (f_str("\"name\":", c.name, COMMA) + (f_str("\"description\":", c.description, COMMA) + (f_bool("\"public\":", c.public, COMMA) + (f_int("\"when_created\":", c.when_created as int, COMMA) + (f_int("\"last_publish\":", c.last_publish as int, COMMA) + f_int("\"last_subscribe\":", c.last_subscribe as int, CLOSE_BRACE)))))))
}

pub fn push_channel(out: &mut Vec<u8>, c: &Channel)
    ensures
        final(out)@ == old(out)@ + enc_channel(c@),
{
    let ghost start = out@;
    out.push(OPEN_BRACE);
    let ghost o0 = out@;
    push_field_str(out, "\"id\":", &c.id, COMMA);
    let ghost o1 = out@;
    push_field_str(out, "\"name\":", &c.name, COMMA);
    let ghost o2 = out@;
    push_field_str(out, "\"description\":", &c.description, COMMA);
    let ghost o3 = out@;
    push_field_bool(out, "\"public\":", c.public, COMMA);
    let ghost o4 = out@;
    push_field_i64(out, "\"when_created\":", c.when_created, COMMA);
    let ghost o5 = out@;
    push_field_i64(out, "\"last_publish\":", c.last_publish, COMMA);
    let ghost o6 = out@;
    push_field_i64(out, "\"last_subscribe\":", c.last_subscribe, CLOSE_BRACE);
    proof {
        let f0 = f_str("\"id\":", c@.id, COMMA);
        let f1 = f_str("\"name\":", c@.name, COMMA);
        let f2 = f_str("\"description\":", c@.description, COMMA);
        let f3 = f_bool("\"public\":", c@.public, COMMA);
        let f4 = f_int("\"when_created\":", c@.when_created as int, COMMA);
        let f5 = f_int("\"last_publish\":", c@.last_publish as int, COMMA);
        let f6 = f_int("\"last_subscribe\":", c@.last_subscribe as int, CLOSE_BRACE);
        lemma_concat_associative(o5, f5, f6);
        lemma_concat_associative(o4, f4, f5 + f6);
        lemma_concat_associative(o3, f3, f4 + (f5 + f6));
        lemma_concat_associative(o2, f2, f3 + (f4 + (f5 + f6)));
        lemma_concat_associative(o1, f1, f2 + (f3 + (f4 + (f5 + f6))));
        lemma_concat_associative(o0, f0, f1 + (f2 + (f3 + (f4 + (f5 + f6)))));
        lemma_concat_associative(start, seq![OPEN_BRACE], f0 + (f1 + (f2 + (f3 + (f4 + (f5 + f6))))));
    }
}

pub fn channel_at(b: &Vec<u8>, p: Option<usize>) -> (r: Option<(Channel, usize)>)
    ensures
        forall|m: ChannelView| #![trigger enc_channel(m)] p is Some && at(b@, p->0 as int, enc_channel(m)) ==> (r matches Some((
            c,
            e,
        )) && c@ == m && e == p->0 + enc_channel(m).len()),
{
    let len = b.len();
    let v_id = field_str(b, byte_at(b, p, OPEN_BRACE), "\"id\":", COMMA);
    let v_name = field_str(b, end_of(&v_id), "\"name\":", COMMA);
    let v_description = field_str(b, end_of(&v_name), "\"description\":", COMMA);
    let v_public = field_bool(b, end_of(&v_description), "\"public\":", COMMA);
    let v_when_created = field_i64(b, end_of(&v_public), "\"when_created\":", COMMA);
    let v_last_publish = field_i64(b, end_of(&v_when_created), "\"last_publish\":", COMMA);
    let v_last_subscribe = field_i64(b, end_of(&v_last_publish), "\"last_subscribe\":", CLOSE_BRACE);
    let r = match (v_id, v_name, v_description, v_public, v_when_created, v_last_publish, v_last_subscribe) {
        (
            Some((id, _)),
            Some((name, _)),
            Some((description, _)),
            Some((public, _)),
            Some((when_created, _)),
            Some((last_publish, _)),
            Some((last_subscribe, e)),
        ) => Some((Channel { id, name, description, public, when_created, last_publish, last_subscribe }, e)),
        _ => None,
    };
    proof {
        assert forall|m: ChannelView| #![trigger enc_channel(m)] p is Some && at(b@, p->0 as int, enc_channel(m)) implies (r matches Some((
            c,
            e,
        )) && c@ == m && e == p->0 + enc_channel(m).len()) by {
            let f0 = f_str("\"id\":", m.id, COMMA);
            let f1 = f_str("\"name\":", m.name, COMMA);
            let f2 = f_str("\"description\":", m.description, COMMA);
            let f3 = f_bool("\"public\":", m.public, COMMA);
            let f4 = f_int("\"when_created\":", m.when_created as int, COMMA);
            let f5 = f_int("\"last_publish\":", m.last_publish as int, COMMA);
            let f6 = f_int("\"last_subscribe\":", m.last_subscribe as int, CLOSE_BRACE);
            let q = p->0 as int;
            lemma_at_concat(b@, q, seq![OPEN_BRACE], f0 + (f1 + (f2 + (f3 + (f4 + (f5 + f6))))));
            lemma_at_single(b@, q, OPEN_BRACE);
            let q = q + 1;
            lemma_at_concat(b@, q, f0, f1 + (f2 + (f3 + (f4 + (f5 + f6)))));
            let q = q + f0.len();
            lemma_at_concat(b@, q, f1, f2 + (f3 + (f4 + (f5 + f6))));
            let q = q + f1.len();
            lemma_at_concat(b@, q, f2, f3 + (f4 + (f5 + f6)));
            let q = q + f2.len();
            lemma_at_concat(b@, q, f3, f4 + (f5 + f6));
            let q = q + f3.len();
            lemma_at_concat(b@, q, f4, f5 + f6);
            let q = q + f4.len();
            lemma_at_concat(b@, q, f5, f6);
        }
    }
    r
}


/// A chat message: its id and text, when it was sent, who sent it and to which channel.
pub struct ChannelMessage {
    pub id: String,
    pub message: String,
    pub send_when: i64,
    pub send_from: User,
    pub send_to: Channel,
}

/// A chat message, as a value.
pub struct ChannelMessageView {
    pub id: Seq<char>,
    pub message: Seq<char>,
    pub send_when: i64,
    pub send_from: UserView,
    pub send_to: ChannelView,
}

impl View for ChannelMessage {
    type V = ChannelMessageView;

    open spec fn view(&self) -> ChannelMessageView {
        ChannelMessageView {
            id: self.id@,
            message: self.message@,
            send_when: self.send_when,
            send_from: self.send_from@,
            send_to: self.send_to@,
        }
    }
}

pub open spec fn enc_message(c: ChannelMessageView) -> Seq<u8> {
    seq![OPEN_BRACE] + (f_str("\"id\":", c.id, COMMA) + (f_str("\"message\":", c.message, COMMA) + (f_int("\"send_when\":", c.send_when as int, COMMA) + (f_user("\"send_from\":", c.send_from, COMMA) + f_channel("\"send_to\":", c.send_to, CLOSE_BRACE)))))
}

pub fn push_message(out: &mut Vec<u8>, c: &ChannelMessage)
    ensures
        final(out)@ == old(out)@ + enc_message(c@),
{
    let ghost start = out@;
    out.push(OPEN_BRACE);
    let ghost o0 = out@;
    push_field_str(out, "\"id\":", &c.id, COMMA);
    let ghost o1 = out@;
    push_field_str(out, "\"message\":", &c.message, COMMA);
    let ghost o2 = out@;
    push_field_i64(out, "\"send_when\":", c.send_when, COMMA);
    let ghost o3 = out@;
    push_field_user(out, "\"send_from\":", &c.send_from, COMMA);
    let ghost o4 = out@;
    push_field_channel(out, "\"send_to\":", &c.send_to, CLOSE_BRACE);
    proof {
        let f0 = f_str("\"id\":", c@.id, COMMA);
        let f1 = f_str("\"message\":", c@.message, COMMA);
        let f2 = f_int("\"send_when\":", c@.send_when as int, COMMA);
        let f3 = f_user("\"send_from\":", c@.send_from, COMMA);
        let f4 = f_channel("\"send_to\":", c@.send_to, CLOSE_BRACE);
        lemma_concat_associative(o3, f3, f4);
        lemma_concat_associative(o2, f2, f3 + f4);
        lemma_concat_associative(o1, f1, f2 + (f3 + f4));
        lemma_concat_associative(o0, f0, f1 + (f2 + (f3 + f4)));
        lemma_concat_associative(start, seq![OPEN_BRACE], f0 + (f1 + (f2 + (f3 + f4))));
    }
}

pub fn message_at(b: &Vec<u8>, p: Option<usize>) -> (r: Option<(ChannelMessage, usize)>)
    ensures
        forall|m: ChannelMessageView| #![trigger enc_message(m)] p is Some && at(b@, p->0 as int, enc_message(m)) ==> (r matches Some((
            c,
            e,
        )) && c@ == m && e == p->0 + enc_message(m).len()),
{
    let len = b.len();
    let v_id = field_str(b, byte_at(b, p, OPEN_BRACE), "\"id\":", COMMA);
    let v_message = field_str(b, end_of(&v_id), "\"message\":", COMMA);
    let v_send_when = field_i64(b, end_of(&v_message), "\"send_when\":", COMMA);
    let v_send_from = field_user(b, end_of(&v_send_when), "\"send_from\":", COMMA);
    let v_send_to = field_channel(b, end_of(&v_send_from), "\"send_to\":", CLOSE_BRACE);
    let r = match (v_id, v_message, v_send_when, v_send_from, v_send_to) {
        (
            Some((id, _)),
            Some((message, _)),
            Some((send_when, _)),
            Some((send_from, _)),
            Some((send_to, e)),
        ) => Some((ChannelMessage { id, message, send_when, send_from, send_to }, e)),
        _ => None,
    };
    proof {
        assert forall|m: ChannelMessageView| #![trigger enc_message(m)] p is Some && at(b@, p->0 as int, enc_message(m)) implies (r matches Some((
            c,
            e,
        )) && c@ == m && e == p->0 + enc_message(m).len()) by {
            let f0 = f_str("\"id\":", m.id, COMMA);
            let f1 = f_str("\"message\":", m.message, COMMA);
            let f2 = f_int("\"send_when\":", m.send_when as int, COMMA);
            let f3 = f_user("\"send_from\":", m.send_from, COMMA);
            let f4 = f_channel("\"send_to\":", m.send_to, CLOSE_BRACE);
            let q = p->0 as int;
            lemma_at_concat(b@, q, seq![OPEN_BRACE], f0 + (f1 + (f2 + (f3 + f4))));
            lemma_at_single(b@, q, OPEN_BRACE);
            let q = q + 1;
            lemma_at_concat(b@, q, f0, f1 + (f2 + (f3 + f4)));
            let q = q + f0.len();
            lemma_at_concat(b@, q, f1, f2 + (f3 + f4));
            let q = q + f1.len();
            lemma_at_concat(b@, q, f2, f3 + f4);
            let q = q + f2.len();
            lemma_at_concat(b@, q, f3, f4);
        }
    }
    r
}


/// File-system metadata. The two times are the bit patterns of 64-bit floats, so
/// they pass through unchanged.
#[derive(Debug, Clone, Copy, PartialEq, Eq, Structural)]
pub struct Stat {
    pub ctime: u64,
    pub mtime: u64,
    pub size: u64,
}

impl View for Stat {
    type V = Stat;

    open spec fn view(&self) -> Stat {
        *self
    }
}

pub open spec fn enc_stat(c: Stat) -> Seq<u8> {
    seq![OPEN_BRACE] + (f_int("\"ctime\":", c.ctime as int, COMMA) + (f_int("\"mtime\":", c.mtime as int, COMMA) + f_int("\"size\":", c.size as int, CLOSE_BRACE)))
}

pub fn push_stat(out: &mut Vec<u8>, c: &Stat)
    ensures
        final(out)@ == old(out)@ + enc_stat(c@),
{
    let ghost start = out@;
    out.push(OPEN_BRACE);
    let ghost o0 = out@;
    push_field_u64(out, "\"ctime\":", c.ctime, COMMA);
    let ghost o1 = out@;
    push_field_u64(out, "\"mtime\":", c.mtime, COMMA);
    let ghost o2 = out@;
    push_field_u64(out, "\"size\":", c.size, CLOSE_BRACE);
    proof {
        let f0 = f_int("\"ctime\":", c@.ctime as int, COMMA);
        let f1 = f_int("\"mtime\":", c@.mtime as int, COMMA);
        let f2 = f_int("\"size\":", c@.size as int, CLOSE_BRACE);
        lemma_concat_associative(o1, f1, f2);
        lemma_concat_associative(o0, f0, f1 + f2);
        lemma_concat_associative(start, seq![OPEN_BRACE], f0 + (f1 + f2));
    }
}

pub fn stat_at(b: &Vec<u8>, p: Option<usize>) -> (r: Option<(Stat, usize)>)
    ensures
        forall|m: Stat| #![trigger enc_stat(m)] p is Some && at(b@, p->0 as int, enc_stat(m)) ==> (r matches Some((
            c,
            e,
        )) && c@ == m && e == p->0 + enc_stat(m).len()),
{
    let len = b.len();
    let v_ctime = field_u64(b, byte_at(b, p, OPEN_BRACE), "\"ctime\":", COMMA);
    let v_mtime = field_u64(b, end_of(&v_ctime), "\"mtime\":", COMMA);
    let v_size = field_u64(b, end_of(&v_mtime), "\"size\":", CLOSE_BRACE);
    let r = match (v_ctime, v_mtime, v_size) {
        (
            Some((ctime, _)),
            Some((mtime, _)),
            Some((size, e)),
        ) => Some((Stat { ctime, mtime, size }, e)),
        _ => None,
    };
    proof {
        assert forall|m: Stat| #![trigger enc_stat(m)] p is Some && at(b@, p->0 as int, enc_stat(m)) implies (r matches Some((
            c,
            e,
        )) && c@ == m && e == p->0 + enc_stat(m).len()) by {
            let f0 = f_int("\"ctime\":", m.ctime as int, COMMA);
            let f1 = f_int("\"mtime\":", m.mtime as int, COMMA);
            let f2 = f_int("\"size\":", m.size as int, CLOSE_BRACE);
            let q = p->0 as int;
            lemma_at_concat(b@, q, seq![OPEN_BRACE], f0 + (f1 + f2));
            lemma_at_single(b@, q, OPEN_BRACE);
            let q = q + 1;
            lemma_at_concat(b@, q, f0, f1 + f2);
            let q = q + f0.len();
            lemma_at_concat(b@, q, f1, f2);
        }
    }
    r
}


pub open spec fn null_bytes() -> Seq<u8> {
    seq![110u8, 117, 108, 108]
}

/// An optional stat: `null`, or the stat object.
pub open spec fn enc_opt_stat(o: Option<Stat>) -> Seq<u8> {
    match o {
        None => null_bytes(),
        Some(s) => enc_stat(s),
    }
}

fn push_opt_stat(out: &mut Vec<u8>, o: Option<Stat>)
    ensures
        final(out)@ == old(out)@ + enc_opt_stat(o),
{
    match o {
        None => {
            let a: [u8; 4] = [110u8, 117, 108, 108];
            assert(a@ == null_bytes());
            push_all(out, &a);
        },
        Some(s) => push_stat(out, &s),
    }
}

fn opt_stat_at(b: &Vec<u8>, p: Option<usize>) -> (r: Option<(Option<Stat>, usize)>)
    ensures
        forall|m: Option<Stat>| #![trigger enc_opt_stat(m)] p is Some && at(b@, p->0 as int, enc_opt_stat(m)) ==> r == Some((m, (p->0 + enc_opt_stat(m).len()) as usize)),
{
    let len = b.len();
    let n: [u8; 4] = [110u8, 117, 108, 108];
    assert(n@ == null_bytes());
    if peek_is(b, p, 110) {
        let q = p.unwrap();
        let r = if match_bytes(b, q, &n) {
            Some((None, q + 4))
        } else {
            None
        };
        proof {
            assert forall|m: Option<Stat>| #![trigger enc_opt_stat(m)] p is Some && at(b@, p->0 as int, enc_opt_stat(m)) implies r == Some((m, (p->0 + enc_opt_stat(m).len()) as usize)) by {
                if m is Some {
                    lemma_at_byte(b@, q as int, enc_opt_stat(m), 0);
                }
            }
        }
        r
    } else {
        let s = stat_at(b, p);
        let r = match s {
            Some((s, e)) => Some((Some(s), e)),
            None => None,
        };
        proof {
            assert forall|m: Option<Stat>| #![trigger enc_opt_stat(m)] p is Some && at(b@, p->0 as int, enc_opt_stat(m)) implies r == Some((m, (p->0 + enc_opt_stat(m).len()) as usize)) by {
                if m is None {
                    lemma_at_byte(b@, p->0 as int, enc_opt_stat(m), 0);
                } else {
                    assert(enc_opt_stat(m) == enc_stat(m->0));
                }
            }
        }
        r
    }
}

pub open spec fn enc_object_type(t: ObjectType) -> Seq<u8> {
    match t {
        ObjectType::File => seq![34u8, 70, 105, 108, 101, 34],
        ObjectType::Folder => seq![34u8, 70, 111, 108, 100, 101, 114, 34],
    }
}

fn push_object_type(out: &mut Vec<u8>, t: ObjectType)
    ensures
        final(out)@ == old(out)@ + enc_object_type(t),
{
    match t {
        ObjectType::File => {
            let a: [u8; 6] = [34u8, 70, 105, 108, 101, 34];
            assert(a@ == enc_object_type(t));
            push_all(out, &a);
        },
        ObjectType::Folder => {
            let a: [u8; 8] = [34u8, 70, 111, 108, 100, 101, 114, 34];
            assert(a@ == enc_object_type(t));
            push_all(out, &a);
        },
    }
}

fn object_type_at(b: &Vec<u8>, p: Option<usize>) -> (r: Option<(ObjectType, usize)>)
    ensures
        forall|m: ObjectType| #![trigger enc_object_type(m)] p is Some && at(b@, p->0 as int, enc_object_type(m)) ==> r == Some((m, (p->0 + enc_object_type(m).len()) as usize)),
{
    let len = b.len();
    let q = match p {
        Some(q) => q,
        None => return None,
    };
    let file: [u8; 6] = [34u8, 70, 105, 108, 101, 34];
    let folder: [u8; 8] = [34u8, 70, 111, 108, 100, 101, 114, 34];
    assert(file@ == enc_object_type(ObjectType::File));
    assert(folder@ == enc_object_type(ObjectType::Folder));
    let r = if match_bytes(b, q, &file) {
        Some((ObjectType::File, q + 6))
    } else if match_bytes(b, q, &folder) {
        Some((ObjectType::Folder, q + 8))
    } else {
        None
    };
    proof {
        assert forall|m: ObjectType| #![trigger enc_object_type(m)] p is Some && at(b@, p->0 as int, enc_object_type(m)) implies r == Some((m, (p->0 + enc_object_type(m).len()) as usize)) by {
            lemma_at_byte(b@, q as int, enc_object_type(m), 2);
            if at(b@, q as int, enc_object_type(ObjectType::File)) {
                lemma_at_byte(b@, q as int, enc_object_type(ObjectType::File), 2);
            }
        }
    }
    r
}


/// An operation on a file: `basename` is `name.extension`.
pub struct FileOperation {
    pub basename: String,
    pub name: String,
    pub extension: String,
    pub path: String,
    pub stat: Option<Stat>,
}

/// A file operation, as a value.
pub struct FileOperationView {
    pub basename: Seq<char>,
    pub name: Seq<char>,
    pub extension: Seq<char>,
    pub path: Seq<char>,
    pub stat: Option<Stat>,
}

impl View for FileOperation {
    type V = FileOperationView;

    open spec fn view(&self) -> FileOperationView {
        FileOperationView {
            basename: self.basename@,
            name: self.name@,
            extension: self.extension@,
            path: self.path@,
            stat: self.stat,
        }
    }
}

pub open spec fn enc_file(c: FileOperationView) -> Seq<u8> {
    seq![OPEN_BRACE] + (f_str("\"basename\":", c.basename, COMMA) + (f_str("\"name\":", c.name, COMMA) + (f_str("\"extension\":", c.extension, COMMA) + (f_str("\"path\":", c.path, COMMA) + f_opt_stat("\"stat\":", c.stat, CLOSE_BRACE)))))
}

pub fn push_file(out: &mut Vec<u8>, c: &FileOperation)
    ensures
        final(out)@ == old(out)@ + enc_file(c@),
{
    let ghost start = out@;
    out.push(OPEN_BRACE);
    let ghost o0 = out@;
    push_field_str(out, "\"basename\":", &c.basename, COMMA);
    let ghost o1 = out@;
    push_field_str(out, "\"name\":", &c.name, COMMA);
    let ghost o2 = out@;
    push_field_str(out, "\"extension\":", &c.extension, COMMA);
    let ghost o3 = out@;
    push_field_str(out, "\"path\":", &c.path, COMMA);
    let ghost o4 = out@;
    push_field_opt_stat(out, "\"stat\":", c.stat, CLOSE_BRACE);
    proof {
        let f0 = f_str("\"basename\":", c@.basename, COMMA);
        let f1 = f_str("\"name\":", c@.name, COMMA);
        let f2 = f_str("\"extension\":", c@.extension, COMMA);
        let f3 = f_str("\"path\":", c@.path, COMMA);
        let f4 = f_opt_stat("\"stat\":", c@.stat, CLOSE_BRACE);
        lemma_concat_associative(o3, f3, f4);
        lemma_concat_associative(o2, f2, f3 + f4);
        lemma_concat_associative(o1, f1, f2 + (f3 + f4));
        lemma_concat_associative(o0, f0, f1 + (f2 + (f3 + f4)));
        lemma_concat_associative(start, seq![OPEN_BRACE], f0 + (f1 + (f2 + (f3 + f4))));
    }
}

pub fn file_at(b: &Vec<u8>, p: Option<usize>) -> (r: Option<(FileOperation, usize)>)
    ensures
        forall|m: FileOperationView| #![trigger enc_file(m)] p is Some && at(b@, p->0 as int, enc_file(m)) ==> (r matches Some((
            c,
            e,
        )) && c@ == m && e == p->0 + enc_file(m).len()),
{
    let len = b.len();
    let v_basename = field_str(b, byte_at(b, p, OPEN_BRACE), "\"basename\":", COMMA);
    let v_name = field_str(b, end_of(&v_basename), "\"name\":", COMMA);
    let v_extension = field_str(b, end_of(&v_name), "\"extension\":", COMMA);
    let v_path = field_str(b, end_of(&v_extension), "\"path\":", COMMA);
    let v_stat = field_opt_stat(b, end_of(&v_path), "\"stat\":", CLOSE_BRACE);
    let r = match (v_basename, v_name, v_extension, v_path, v_stat) {
        (
            Some((basename, _)),
            Some((name, _)),
            Some((extension, _)),
            Some((path, _)),
            Some((stat, e)),
        ) => Some((FileOperation { basename, name, extension, path, stat }, e)),
        _ => None,
    };
    proof {
        assert forall|m: FileOperationView| #![trigger enc_file(m)] p is Some && at(b@, p->0 as int, enc_file(m)) implies (r matches Some((
            c,
            e,
        )) && c@ == m && e == p->0 + enc_file(m).len()) by {
            let f0 = f_str("\"basename\":", m.basename, COMMA);
            let f1 = f_str("\"name\":", m.name, COMMA);
            let f2 = f_str("\"extension\":", m.extension, COMMA);
            let f3 = f_str("\"path\":", m.path, COMMA);
            let f4 = f_opt_stat("\"stat\":", m.stat, CLOSE_BRACE);
            let q = p->0 as int;
            lemma_at_concat(b@, q, seq![OPEN_BRACE], f0 + (f1 + (f2 + (f3 + f4))));
            lemma_at_single(b@, q, OPEN_BRACE);
            let q = q + 1;
            lemma_at_concat(b@, q, f0, f1 + (f2 + (f3 + f4)));
            let q = q + f0.len();
            lemma_at_concat(b@, q, f1, f2 + (f3 + f4));
            let q = q + f1.len();
            lemma_at_concat(b@, q, f2, f3 + f4);
            let q = q + f2.len();
            lemma_at_concat(b@, q, f3, f4);
        }
    }
    r
}


/// An operation on a folder.
pub struct PathOperation {
    pub basename: String,
    pub name: String,
    pub path: String,
    pub stat: Option<Stat>,
}

/// A folder operation, as a value.
pub struct PathOperationView {
    pub basename: Seq<char>,
    pub name: Seq<char>,
    pub path: Seq<char>,
    pub stat: Option<Stat>,
}

impl View for PathOperation {
    type V = PathOperationView;

    open spec fn view(&self) -> PathOperationView {
        PathOperationView {
            basename: self.basename@,
            name: self.name@,
            path: self.path@,
            stat: self.stat,
        }
    }
}

pub open spec fn enc_path(c: PathOperationView) -> Seq<u8> {
    seq![OPEN_BRACE] + (f_str("\"basename\":", c.basename, COMMA) + (f_str("\"name\":", c.name, COMMA) + (f_str("\"path\":", c.path, COMMA) + f_opt_stat("\"stat\":", c.stat, CLOSE_BRACE))))
}

pub fn push_path(out: &mut Vec<u8>, c: &PathOperation)
    ensures
        final(out)@ == old(out)@ + enc_path(c@),
{
    let ghost start = out@;
    out.push(OPEN_BRACE);
    let ghost o0 = out@;
    push_field_str(out, "\"basename\":", &c.basename, COMMA);
    let ghost o1 = out@;
    push_field_str(out, "\"name\":", &c.name, COMMA);
    let ghost o2 = out@;
    push_field_str(out, "\"path\":", &c.path, COMMA);
    let ghost o3 = out@;
    push_field_opt_stat(out, "\"stat\":", c.stat, CLOSE_BRACE);
    proof {
        let f0 = f_str("\"basename\":", c@.basename, COMMA);
        let f1 = f_str("\"name\":", c@.name, COMMA);
        let f2 = f_str("\"path\":", c@.path, COMMA);
        let f3 = f_opt_stat("\"stat\":", c@.stat, CLOSE_BRACE);
        lemma_concat_associative(o2, f2, f3);
        lemma_concat_associative(o1, f1, f2 + f3);
        lemma_concat_associative(o0, f0, f1 + (f2 + f3));
        lemma_concat_associative(start, seq![OPEN_BRACE], f0 + (f1 + (f2 + f3)));
    }
}

pub fn path_at(b: &Vec<u8>, p: Option<usize>) -> (r: Option<(PathOperation, usize)>)
    ensures
        forall|m: PathOperationView| #![trigger enc_path(m)] p is Some && at(b@, p->0 as int, enc_path(m)) ==> (r matches Some((
            c,
            e,
        )) && c@ == m && e == p->0 + enc_path(m).len()),
{
    let len = b.len();
    let v_basename = field_str(b, byte_at(b, p, OPEN_BRACE), "\"basename\":", COMMA);
    let v_name = field_str(b, end_of(&v_basename), "\"name\":", COMMA);
    let v_path = field_str(b, end_of(&v_name), "\"path\":", COMMA);
    let v_stat = field_opt_stat(b, end_of(&v_path), "\"stat\":", CLOSE_BRACE);
    let r = match (v_basename, v_name, v_path, v_stat) {
        (
            Some((basename, _)),
            Some((name, _)),
            Some((path, _)),
            Some((stat, e)),
        ) => Some((PathOperation { basename, name, path, stat }, e)),
        _ => None,
    };
    proof {
        assert forall|m: PathOperationView| #![trigger enc_path(m)] p is Some && at(b@, p->0 as int, enc_path(m)) implies (r matches Some((
            c,
            e,
        )) && c@ == m && e == p->0 + enc_path(m).len()) by {
            let f0 = f_str("\"basename\":", m.basename, COMMA);
            let f1 = f_str("\"name\":", m.name, COMMA);
            let f2 = f_str("\"path\":", m.path, COMMA);
            let f3 = f_opt_stat("\"stat\":", m.stat, CLOSE_BRACE);
            let q = p->0 as int;
            lemma_at_concat(b@, q, seq![OPEN_BRACE], f0 + (f1 + (f2 + f3)));
            lemma_at_single(b@, q, OPEN_BRACE);
            let q = q + 1;
            lemma_at_concat(b@, q, f0, f1 + (f2 + f3));
            let q = q + f0.len();
            lemma_at_concat(b@, q, f1, f2 + f3);
            let q = q + f1.len();
            lemma_at_concat(b@, q, f2, f3);
        }
    }
    r
}


/// What a sync event touched.
pub enum Operation {
    File(FileOperation),
    Path(PathOperation),
}

pub enum OperationView {
    File(FileOperationView),
    Path(PathOperationView),
}

impl View for Operation {
    type V = OperationView;

    open spec fn view(&self) -> OperationView {
        match self {
            Operation::File(x) => OperationView::File(x@),
            Operation::Path(x) => OperationView::Path(x@),
        }
    }
}

pub open spec fn tag_file() -> Seq<u8> {
    seq![123u8, 34, 70, 105, 108, 101, 34, 58]
}

pub open spec fn tag_path() -> Seq<u8> {
    seq![123u8, 34, 80, 97, 116, 104, 34, 58]
}

pub open spec fn enc_operation(x: OperationView) -> Seq<u8> {
    match x {
        OperationView::File(y) => tag_file() + (enc_file(y) + seq![CLOSE_BRACE]),
        OperationView::Path(y) => tag_path() + (enc_path(y) + seq![CLOSE_BRACE]),
    }
}

pub fn push_operation(out: &mut Vec<u8>, x: &Operation)
    ensures
        final(out)@ == old(out)@ + enc_operation(x@),
{
    let ghost start = out@;
    match x {
        Operation::File(y) => {
            let t: [u8; 8] = [123u8, 34, 70, 105, 108, 101, 34, 58];
            assert(t@ == tag_file());
            push_all(out, &t);
            let ghost o1 = out@;
            push_file(out, y);
            let ghost o2 = out@;
            out.push(CLOSE_BRACE);
            proof {
                assert(out@ =~= o2 + seq![CLOSE_BRACE]);
                lemma_concat_associative(o1, enc_file(y@), seq![CLOSE_BRACE]);
                lemma_concat_associative(start, tag_file(), enc_file(y@) + seq![CLOSE_BRACE]);
            }
        },
        Operation::Path(y) => {
            let t: [u8; 8] = [123u8, 34, 80, 97, 116, 104, 34, 58];
            assert(t@ == tag_path());
            push_all(out, &t);
            let ghost o1 = out@;
            push_path(out, y);
            let ghost o2 = out@;
            out.push(CLOSE_BRACE);
            proof {
                assert(out@ =~= o2 + seq![CLOSE_BRACE]);
                lemma_concat_associative(o1, enc_path(y@), seq![CLOSE_BRACE]);
                lemma_concat_associative(start, tag_path(), enc_path(y@) + seq![CLOSE_BRACE]);
            }
        },
    }
}

#[verifier::rlimit(50)]
pub fn operation_at(b: &Vec<u8>, p: Option<usize>) -> (r: Option<(Operation, usize)>)
    ensures
        forall|m: OperationView| #![trigger enc_operation(m)] p is Some && at(b@, p->0 as int, enc_operation(m)) ==> (r matches Some((
            x,
            e,
        )) && x@ == m && e == p->0 + enc_operation(m).len()),
{
    let len = b.len();
    let q = match p {
        Some(q) => q,
        None => return None,
    };
    let t_file: [u8; 8] = [123u8, 34, 70, 105, 108, 101, 34, 58];
    assert(t_file@ == tag_file());
    let t_path: [u8; 8] = [123u8, 34, 80, 97, 116, 104, 34, 58];
    assert(t_path@ == tag_path());
    let r = 
    if match_bytes(b, q, &t_file) {
        let y = file_at(b, Some(q + 8));
        match y {
            Some((y, e)) => match byte_at(b, Some(e), CLOSE_BRACE) {
                Some(e2) => Some((Operation::File(y), e2)),
                None => None,
            },
            None => None,
        }
    } else if match_bytes(b, q, &t_path) {
        let y = path_at(b, Some(q + 8));
        match y {
            Some((y, e)) => match byte_at(b, Some(e), CLOSE_BRACE) {
                Some(e2) => Some((Operation::Path(y), e2)),
                None => None,
            },
            None => None,
        }
    } else {
        None
    };
    proof {
        assert forall|m: OperationView| #![trigger enc_operation(m)] p is Some && at(b@, p->0 as int, enc_operation(m)) implies (r matches Some((
            x,
            e,
        )) && x@ == m && e == p->0 + enc_operation(m).len()) by {
            lemma_at_byte(b@, q as int, enc_operation(m), 2);
            if at(b@, q as int, tag_file()) {
                lemma_at_byte(b@, q as int, tag_file(), 2);
            }
            if at(b@, q as int, tag_path()) {
                lemma_at_byte(b@, q as int, tag_path(), 2);
            }
            match m {
                OperationView::File(y) => {
                    lemma_at_concat(b@, q as int, tag_file(), enc_file(y) + seq![CLOSE_BRACE]);
                    lemma_at_concat(b@, q + tag_file().len(), enc_file(y), seq![CLOSE_BRACE]);
                    lemma_at_single(b@, q + tag_file().len() + enc_file(y).len(), CLOSE_BRACE);
                },
                OperationView::Path(y) => {
                    lemma_at_concat(b@, q as int, tag_path(), enc_path(y) + seq![CLOSE_BRACE]);
                    lemma_at_concat(b@, q + tag_path().len(), enc_path(y), seq![CLOSE_BRACE]);
                    lemma_at_single(b@, q + tag_path().len() + enc_path(y).len(), CLOSE_BRACE);
                },
            }
        }
    }
    r
}


/// The body of a sync event.
pub struct SyncMessage {
    pub operation_type: ObjectType,
    pub operation: Operation,
}

/// The body of a sync event, as a value.
pub struct SyncMessageView {
    pub operation_type: ObjectType,
    pub operation: OperationView,
}

impl View for SyncMessage {
    type V = SyncMessageView;

    open spec fn view(&self) -> SyncMessageView {
        SyncMessageView {
            operation_type: self.operation_type,
            operation: self.operation@,
        }
    }
}

pub open spec fn enc_sync_message(c: SyncMessageView) -> Seq<u8> {
    seq![OPEN_BRACE] + (f_otype("\"operation_type\":", c.operation_type, COMMA) + f_operation("\"operation\":", c.operation, CLOSE_BRACE))
}

pub fn push_sync_message(out: &mut Vec<u8>, c: &SyncMessage)
    ensures
        final(out)@ == old(out)@ + enc_sync_message(c@),
{
    let ghost start = out@;
    out.push(OPEN_BRACE);
    let ghost o0 = out@;
    push_field_otype(out, "\"operation_type\":", c.operation_type, COMMA);
    let ghost o1 = out@;
    push_field_operation(out, "\"operation\":", &c.operation, CLOSE_BRACE);
    proof {
        let f0 = f_otype("\"operation_type\":", c@.operation_type, COMMA);
        let f1 = f_operation("\"operation\":", c@.operation, CLOSE_BRACE);
        lemma_concat_associative(o0, f0, f1);
        lemma_concat_associative(start, seq![OPEN_BRACE], f0 + f1);
    }
}

pub fn sync_message_at(b: &Vec<u8>, p: Option<usize>) -> (r: Option<(SyncMessage, usize)>)
    ensures
        forall|m: SyncMessageView| #![trigger enc_sync_message(m)] p is Some && at(b@, p->0 as int, enc_sync_message(m)) ==> (r matches Some((
            c,
            e,
        )) && c@ == m && e == p->0 + enc_sync_message(m).len()),
{
    let len = b.len();
    let v_operation_type = field_otype(b, byte_at(b, p, OPEN_BRACE), "\"operation_type\":", COMMA);
    let v_operation = field_operation(b, end_of(&v_operation_type), "\"operation\":", CLOSE_BRACE);
    let r = match (v_operation_type, v_operation) {
        (
            Some((operation_type, _)),
            Some((operation, e)),
        ) => Some((SyncMessage { operation_type, operation }, e)),
        _ => None,
    };
    proof {
        assert forall|m: SyncMessageView| #![trigger enc_sync_message(m)] p is Some && at(b@, p->0 as int, enc_sync_message(m)) implies (r matches Some((
            c,
            e,
        )) && c@ == m && e == p->0 + enc_sync_message(m).len()) by {
            let f0 = f_otype("\"operation_type\":", m.operation_type, COMMA);
            let f1 = f_operation("\"operation\":", m.operation, CLOSE_BRACE);
            let q = p->0 as int;
            lemma_at_concat(b@, q, seq![OPEN_BRACE], f0 + f1);
            lemma_at_single(b@, q, OPEN_BRACE);
            let q = q + 1;
            lemma_at_concat(b@, q, f0, f1);
        }
    }
    r
}


/// A file-system event: something was created or renamed.
pub enum SyncEvent {
    Create(SyncMessage),
    Rename(SyncMessage),
}

pub enum SyncEventView {
    Create(SyncMessageView),
    Rename(SyncMessageView),
}

impl View for SyncEvent {
    type V = SyncEventView;

    open spec fn view(&self) -> SyncEventView {
        match self {
            SyncEvent::Create(x) => SyncEventView::Create(x@),
            SyncEvent::Rename(x) => SyncEventView::Rename(x@),
        }
    }
}

pub open spec fn tag_create() -> Seq<u8> {
    seq![123u8, 34, 67, 114, 101, 97, 116, 101, 34, 58]
}

pub open spec fn tag_rename() -> Seq<u8> {
    seq![123u8, 34, 82, 101, 110, 97, 109, 101, 34, 58]
}

pub open spec fn enc_sync(x: SyncEventView) -> Seq<u8> {
    match x {
        SyncEventView::Create(y) => tag_create() + (enc_sync_message(y) + seq![CLOSE_BRACE]),
        SyncEventView::Rename(y) => tag_rename() + (enc_sync_message(y) + seq![CLOSE_BRACE]),
    }
}

pub fn push_sync(out: &mut Vec<u8>, x: &SyncEvent)
    ensures
        final(out)@ == old(out)@ + enc_sync(x@),
{
    let ghost start = out@;
    match x {
        SyncEvent::Create(y) => {
            let t: [u8; 10] = [123u8, 34, 67, 114, 101, 97, 116, 101, 34, 58];
            assert(t@ == tag_create());
            push_all(out, &t);
            let ghost o1 = out@;
            push_sync_message(out, y);
            let ghost o2 = out@;
            out.push(CLOSE_BRACE);
            proof {
                assert(out@ =~= o2 + seq![CLOSE_BRACE]);
                lemma_concat_associative(o1, enc_sync_message(y@), seq![CLOSE_BRACE]);
                lemma_concat_associative(start, tag_create(), enc_sync_message(y@) + seq![CLOSE_BRACE]);
            }
        },
        SyncEvent::Rename(y) => {
            let t: [u8; 10] = [123u8, 34, 82, 101, 110, 97, 109, 101, 34, 58];
            assert(t@ == tag_rename());
            push_all(out, &t);
            let ghost o1 = out@;
            push_sync_message(out, y);
            let ghost o2 = out@;
            out.push(CLOSE_BRACE);
            proof {
                assert(out@ =~= o2 + seq![CLOSE_BRACE]);
                lemma_concat_associative(o1, enc_sync_message(y@), seq![CLOSE_BRACE]);
                lemma_concat_associative(start, tag_rename(), enc_sync_message(y@) + seq![CLOSE_BRACE]);
            }
        },
    }
}

#[verifier::rlimit(50)]
pub fn sync_at(b: &Vec<u8>, p: Option<usize>) -> (r: Option<(SyncEvent, usize)>)
    ensures
        forall|m: SyncEventView| #![trigger enc_sync(m)] p is Some && at(b@, p->0 as int, enc_sync(m)) ==> (r matches Some((
            x,
            e,
        )) && x@ == m && e == p->0 + enc_sync(m).len()),
{
    let len = b.len();
    let q = match p {
        Some(q) => q,
        None => return None,
    };
    let t_create: [u8; 10] = [123u8, 34, 67, 114, 101, 97, 116, 101, 34, 58];
    assert(t_create@ == tag_create());
    let t_rename: [u8; 10] = [123u8, 34, 82, 101, 110, 97, 109, 101, 34, 58];
    assert(t_rename@ == tag_rename());
    let r = 
    if match_bytes(b, q, &t_create) {
        let y = sync_message_at(b, Some(q + 10));
        match y {
            Some((y, e)) => match byte_at(b, Some(e), CLOSE_BRACE) {
                Some(e2) => Some((SyncEvent::Create(y), e2)),
                None => None,
            },
            None => None,
        }
    } else if match_bytes(b, q, &t_rename) {
        let y = sync_message_at(b, Some(q + 10));
        match y {
            Some((y, e)) => match byte_at(b, Some(e), CLOSE_BRACE) {
                Some(e2) => Some((SyncEvent::Rename(y), e2)),
                None => None,
            },
            None => None,
        }
    } else {
        None
    };
    proof {
        assert forall|m: SyncEventView| #![trigger enc_sync(m)] p is Some && at(b@, p->0 as int, enc_sync(m)) implies (r matches Some((
            x,
            e,
        )) && x@ == m && e == p->0 + enc_sync(m).len()) by {
            lemma_at_byte(b@, q as int, enc_sync(m), 2);
            if at(b@, q as int, tag_create()) {
                lemma_at_byte(b@, q as int, tag_create(), 2);
            }
            if at(b@, q as int, tag_rename()) {
                lemma_at_byte(b@, q as int, tag_rename(), 2);
            }
            match m {
                SyncEventView::Create(y) => {
                    lemma_at_concat(b@, q as int, tag_create(), enc_sync_message(y) + seq![CLOSE_BRACE]);
                    lemma_at_concat(b@, q + tag_create().len(), enc_sync_message(y), seq![CLOSE_BRACE]);
                    lemma_at_single(b@, q + tag_create().len() + enc_sync_message(y).len(), CLOSE_BRACE);
                },
                SyncEventView::Rename(y) => {
                    lemma_at_concat(b@, q as int, tag_rename(), enc_sync_message(y) + seq![CLOSE_BRACE]);
                    lemma_at_concat(b@, q + tag_rename().len(), enc_sync_message(y), seq![CLOSE_BRACE]);
                    lemma_at_single(b@, q + tag_rename().len() + enc_sync_message(y).len(), CLOSE_BRACE);
                },
            }
        }
    }
    r
}


/// A shared link.
pub struct Link {
    pub id: String,
    pub url: String,
    pub label: String,
}

/// A shared link, as a value.
pub struct LinkView {
    pub id: Seq<char>,
    pub url: Seq<char>,
    pub label: Seq<char>,
}

impl View for Link {
    type V = LinkView;

    open spec fn view(&self) -> LinkView {
        LinkView {
            id: self.id@,
            url: self.url@,
            label: self.label@,
        }
    }
}

pub open spec fn enc_link(c: LinkView) -> Seq<u8> {
    seq![OPEN_BRACE] + (f_str("\"id\":", c.id, COMMA) + (f_str("\"url\":", c.url, COMMA) + f_str("\"label\":", c.label, CLOSE_BRACE)))
}

pub fn push_link(out: &mut Vec<u8>, c: &Link)
    ensures
        final(out)@ == old(out)@ + enc_link(c@),
{
    let ghost start = out@;
    out.push(OPEN_BRACE);
    let ghost o0 = out@;
    push_field_str(out, "\"id\":", &c.id, COMMA);
    let ghost o1 = out@;
    push_field_str(out, "\"url\":", &c.url, COMMA);
    let ghost o2 = out@;
    push_field_str(out, "\"label\":", &c.label, CLOSE_BRACE);
    proof {
        let f0 = f_str("\"id\":", c@.id, COMMA);
        let f1 = f_str("\"url\":", c@.url, COMMA);
        let f2 = f_str("\"label\":", c@.label, CLOSE_BRACE);
        lemma_concat_associative(o1, f1, f2);
        lemma_concat_associative(o0, f0, f1 + f2);
        lemma_concat_associative(start, seq![OPEN_BRACE], f0 + (f1 + f2));
    }
}

pub fn link_at(b: &Vec<u8>, p: Option<usize>) -> (r: Option<(Link, usize)>)
    ensures
        forall|m: LinkView| #![trigger enc_link(m)] p is Some && at(b@, p->0 as int, enc_link(m)) ==> (r matches Some((
            c,
            e,
        )) && c@ == m && e == p->0 + enc_link(m).len()),
{
    let len = b.len();
    let v_id = field_str(b, byte_at(b, p, OPEN_BRACE), "\"id\":", COMMA);
    let v_url = field_str(b, end_of(&v_id), "\"url\":", COMMA);
    let v_label = field_str(b, end_of(&v_url), "\"label\":", CLOSE_BRACE);
    let r = match (v_id, v_url, v_label) {
        (
            Some((id, _)),
            Some((url, _)),
            Some((label, e)),
        ) => Some((Link { id, url, label }, e)),
        _ => None,
    };
    proof {
        assert forall|m: LinkView| #![trigger enc_link(m)] p is Some && at(b@, p->0 as int, enc_link(m)) implies (r matches Some((
            c,
            e,
        )) && c@ == m && e == p->0 + enc_link(m).len()) by {
            let f0 = f_str("\"id\":", m.id, COMMA);
            let f1 = f_str("\"url\":", m.url, COMMA);
            let f2 = f_str("\"label\":", m.label, CLOSE_BRACE);
            let q = p->0 as int;
            lemma_at_concat(b@, q, seq![OPEN_BRACE], f0 + (f1 + f2));
            lemma_at_single(b@, q, OPEN_BRACE);
            let q = q + 1;
            lemma_at_concat(b@, q, f0, f1 + f2);
            let q = q + f0.len();
            lemma_at_concat(b@, q, f1, f2);
        }
    }
    r
}


/// What travels over a channel: a chat message, a sync event or a shared link.
pub enum EventEnvelope {
    Message(ChannelMessage),
    Sync(SyncEvent),
    Link(Link),
}

pub enum EventEnvelopeView {
    Message(ChannelMessageView),
    Sync(SyncEventView),
    Link(LinkView),
}

impl View for EventEnvelope {
    type V = EventEnvelopeView;

    open spec fn view(&self) -> EventEnvelopeView {
        match self {
            EventEnvelope::Message(x) => EventEnvelopeView::Message(x@),
            EventEnvelope::Sync(x) => EventEnvelopeView::Sync(x@),
            EventEnvelope::Link(x) => EventEnvelopeView::Link(x@),
        }
    }
}

pub open spec fn tag_message() -> Seq<u8> {
    seq![123u8, 34, 77, 101, 115, 115, 97, 103, 101, 34, 58]
}

pub open spec fn tag_sync() -> Seq<u8> {
    seq![123u8, 34, 83, 121, 110, 99, 34, 58]
}

pub open spec fn tag_link() -> Seq<u8> {
    seq![123u8, 34, 76, 105, 110, 107, 34, 58]
}

pub open spec fn enc_envelope(x: EventEnvelopeView) -> Seq<u8> {
    match x {
        EventEnvelopeView::Message(y) => tag_message() + (enc_message(y) + seq![CLOSE_BRACE]),
        EventEnvelopeView::Sync(y) => tag_sync() + (enc_sync(y) + seq![CLOSE_BRACE]),
        EventEnvelopeView::Link(y) => tag_link() + (enc_link(y) + seq![CLOSE_BRACE]),
    }
}

pub fn push_envelope(out: &mut Vec<u8>, x: &EventEnvelope)
    ensures
        final(out)@ == old(out)@ + enc_envelope(x@),
{
    let ghost start = out@;
    match x {
        EventEnvelope::Message(y) => {
            let t: [u8; 11] = [123u8, 34, 77, 101, 115, 115, 97, 103, 101, 34, 58];
            assert(t@ == tag_message());
            push_all(out, &t);
            let ghost o1 = out@;
            push_message(out, y);
            let ghost o2 = out@;
            out.push(CLOSE_BRACE);
            proof {
                assert(out@ =~= o2 + seq![CLOSE_BRACE]);
                lemma_concat_associative(o1, enc_message(y@), seq![CLOSE_BRACE]);
                lemma_concat_associative(start, tag_message(), enc_message(y@) + seq![CLOSE_BRACE]);
            }
        },
        EventEnvelope::Sync(y) => {
            let t: [u8; 8] = [123u8, 34, 83, 121, 110, 99, 34, 58];
            assert(t@ == tag_sync());
            push_all(out, &t);
            let ghost o1 = out@;
            push_sync(out, y);
            let ghost o2 = out@;
            out.push(CLOSE_BRACE);
            proof {
                assert(out@ =~= o2 + seq![CLOSE_BRACE]);
                lemma_concat_associative(o1, enc_sync(y@), seq![CLOSE_BRACE]);
                lemma_concat_associative(start, tag_sync(), enc_sync(y@) + seq![CLOSE_BRACE]);
            }
        },
        EventEnvelope::Link(y) => {
            let t: [u8; 8] = [123u8, 34, 76, 105, 110, 107, 34, 58];
            assert(t@ == tag_link());
            push_all(out, &t);
            let ghost o1 = out@;
            push_link(out, y);
            let ghost o2 = out@;
            out.push(CLOSE_BRACE);
            proof {
                assert(out@ =~= o2 + seq![CLOSE_BRACE]);
                lemma_concat_associative(o1, enc_link(y@), seq![CLOSE_BRACE]);
                lemma_concat_associative(start, tag_link(), enc_link(y@) + seq![CLOSE_BRACE]);
            }
        },
    }
}

#[verifier::rlimit(50)]
pub fn envelope_at(b: &Vec<u8>, p: Option<usize>) -> (r: Option<(EventEnvelope, usize)>)
    ensures
        forall|m: EventEnvelopeView| #![trigger enc_envelope(m)] p is Some && at(b@, p->0 as int, enc_envelope(m)) ==> (r matches Some((
            x,
            e,
        )) && x@ == m && e == p->0 + enc_envelope(m).len()),
{
    let len = b.len();
    let q = match p {
        Some(q) => q,
        None => return None,
    };
    let t_message: [u8; 11] = [123u8, 34, 77, 101, 115, 115, 97, 103, 101, 34, 58];
    assert(t_message@ == tag_message());
    let t_sync: [u8; 8] = [123u8, 34, 83, 121, 110, 99, 34, 58];
    assert(t_sync@ == tag_sync());
    let t_link: [u8; 8] = [123u8, 34, 76, 105, 110, 107, 34, 58];
    assert(t_link@ == tag_link());
    let r = 
    if match_bytes(b, q, &t_message) {
        let y = message_at(b, Some(q + 11));
        match y {
            Some((y, e)) => match byte_at(b, Some(e), CLOSE_BRACE) {
                Some(e2) => Some((EventEnvelope::Message(y), e2)),
                None => None,
            },
            None => None,
        }
    } else if match_bytes(b, q, &t_sync) {
        let y = sync_at(b, Some(q + 8));
        match y {
            Some((y, e)) => match byte_at(b, Some(e), CLOSE_BRACE) {
                Some(e2) => Some((EventEnvelope::Sync(y), e2)),
                None => None,
            },
            None => None,
        }
    } else if match_bytes(b, q, &t_link) {
        let y = link_at(b, Some(q + 8));
        match y {
            Some((y, e)) => match byte_at(b, Some(e), CLOSE_BRACE) {
                Some(e2) => Some((EventEnvelope::Link(y), e2)),
                None => None,
            },
            None => None,
        }
    } else {
        None
    };
    proof {
        assert forall|m: EventEnvelopeView| #![trigger enc_envelope(m)] p is Some && at(b@, p->0 as int, enc_envelope(m)) implies (r matches Some((
            x,
            e,
        )) && x@ == m && e == p->0 + enc_envelope(m).len()) by {
            lemma_at_byte(b@, q as int, enc_envelope(m), 2);
            if at(b@, q as int, tag_message()) {
                lemma_at_byte(b@, q as int, tag_message(), 2);
            }
            if at(b@, q as int, tag_sync()) {
                lemma_at_byte(b@, q as int, tag_sync(), 2);
            }
            if at(b@, q as int, tag_link()) {
                lemma_at_byte(b@, q as int, tag_link(), 2);
            }
            match m {
                EventEnvelopeView::Message(y) => {
                    lemma_at_concat(b@, q as int, tag_message(), enc_message(y) + seq![CLOSE_BRACE]);
                    lemma_at_concat(b@, q + tag_message().len(), enc_message(y), seq![CLOSE_BRACE]);
                    lemma_at_single(b@, q + tag_message().len() + enc_message(y).len(), CLOSE_BRACE);
                },
                EventEnvelopeView::Sync(y) => {
                    lemma_at_concat(b@, q as int, tag_sync(), enc_sync(y) + seq![CLOSE_BRACE]);
                    lemma_at_concat(b@, q + tag_sync().len(), enc_sync(y), seq![CLOSE_BRACE]);
                    lemma_at_single(b@, q + tag_sync().len() + enc_sync(y).len(), CLOSE_BRACE);
                },
                EventEnvelopeView::Link(y) => {
                    lemma_at_concat(b@, q as int, tag_link(), enc_link(y) + seq![CLOSE_BRACE]);
                    lemma_at_concat(b@, q + tag_link().len(), enc_link(y), seq![CLOSE_BRACE]);
                    lemma_at_single(b@, q + tag_link().len() + enc_link(y).len(), CLOSE_BRACE);
                },
            }
        }
    }
    r
}


pub open spec fn f_roles(key: &str, v: Seq<Role>, sep: u8) -> Seq<u8> {
    key.spec_bytes() + (enc_roles(v) + seq![sep])
}

fn push_field_roles(out: &mut Vec<u8>, key: &str, v: &Vec<Role>, sep: u8)
    ensures
        final(out)@ == old(out)@ + f_roles(key, v@, sep),
{
    let ghost start = out@;
    push_lit(out, key);
    push_roles(out, v);
    out.push(sep);
    assert(out@ =~= start + f_roles(key, v@, sep));
}

fn field_roles(b: &Vec<u8>, p: Option<usize>, key: &str, sep: u8) -> (r: Option<(Vec<Role>, usize)>)
    ensures
        forall|m: Seq<Role>| #![trigger f_roles(key, m, sep)] p is Some && at(b@, p->0 as int, f_roles(key, m, sep)) ==> (r matches Some((
            x,
            e,
        )) && x@ == m && e == p->0 + f_roles(key, m, sep).len()),
{
    broadcast use {lemma_at_concat, lemma_at_single};

    let len = b.len();
    let v = roles_at(b, lit_at(b, p, key));
    let r = match v {
        Some((x, e)) => match byte_at(b, Some(e), sep) {
            Some(e2) => Some((x, e2)),
            None => None,
        },
        None => None,
    };
    proof {
        assert forall|m: Seq<Role>| #![trigger f_roles(key, m, sep)] p is Some && at(b@, p->0 as int, f_roles(key, m, sep)) implies at(b@, p->0 as int, key.spec_bytes())
            && at(b@, p->0 + key.spec_bytes().len(), enc_roles(m))
            && at(b@, p->0 + key.spec_bytes().len() + enc_roles(m).len(), seq![sep]) by {
            let q = p->0 as int;
            assert(at(b@, q, key.spec_bytes() + (enc_roles(m) + seq![sep])));
            assert(at(b@, q + key.spec_bytes().len(), enc_roles(m) + seq![sep]));
        }
    }
    r
}


pub open spec fn f_user(key: &str, v: UserView, sep: u8) -> Seq<u8> {
    key.spec_bytes() + (enc_user(v) + seq![sep])
}

fn push_field_user(out: &mut Vec<u8>, key: &str, v: &User, sep: u8)
    ensures
        final(out)@ == old(out)@ + f_user(key, v@, sep),
{
    let ghost start = out@;
    push_lit(out, key);
    push_user(out, v);
    out.push(sep);
    assert(out@ =~= start + f_user(key, v@, sep));
}

fn field_user(b: &Vec<u8>, p: Option<usize>, key: &str, sep: u8) -> (r: Option<(User, usize)>)
    ensures
        forall|m: UserView| #![trigger f_user(key, m, sep)] p is Some && at(b@, p->0 as int, f_user(key, m, sep)) ==> (r matches Some((
            x,
            e,
        )) && x@ == m && e == p->0 + f_user(key, m, sep).len()),
{
    broadcast use {lemma_at_concat, lemma_at_single};

    let len = b.len();
    let v = user_at(b, lit_at(b, p, key));
    let r = match v {
        Some((x, e)) => match byte_at(b, Some(e), sep) {
            Some(e2) => Some((x, e2)),
            None => None,
        },
        None => None,
    };
    proof {
        assert forall|m: UserView| #![trigger f_user(key, m, sep)] p is Some && at(b@, p->0 as int, f_user(key, m, sep)) implies at(b@, p->0 as int, key.spec_bytes())
            && at(b@, p->0 + key.spec_bytes().len(), enc_user(m))
            && at(b@, p->0 + key.spec_bytes().len() + enc_user(m).len(), seq![sep]) by {
            let q = p->0 as int;
            assert(at(b@, q, key.spec_bytes() + (enc_user(m) + seq![sep])));
            assert(at(b@, q + key.spec_bytes().len(), enc_user(m) + seq![sep]));
        }
    }
    r
}


pub open spec fn f_channel(key: &str, v: ChannelView, sep: u8) -> Seq<u8> {
    key.spec_bytes() + (enc_channel(v) + seq![sep])
}

fn push_field_channel(out: &mut Vec<u8>, key: &str, v: &Channel, sep: u8)
    ensures
        final(out)@ == old(out)@ + f_channel(key, v@, sep),
{
    let ghost start = out@;
    push_lit(out, key);
    push_channel(out, v);
    out.push(sep);
    assert(out@ =~= start + f_channel(key, v@, sep));
}

fn field_channel(b: &Vec<u8>, p: Option<usize>, key: &str, sep: u8) -> (r: Option<(Channel, usize)>)
    ensures
        forall|m: ChannelView| #![trigger f_channel(key, m, sep)] p is Some && at(b@, p->0 as int, f_channel(key, m, sep)) ==> (r matches Some((
            x,
            e,
        )) && x@ == m && e == p->0 + f_channel(key, m, sep).len()),
{
    broadcast use {lemma_at_concat, lemma_at_single};

    let len = b.len();
    let v = channel_at(b, lit_at(b, p, key));
    let r = match v {
        Some((x, e)) => match byte_at(b, Some(e), sep) {
            Some(e2) => Some((x, e2)),
            None => None,
        },
        None => None,
    };
    proof {
        assert forall|m: ChannelView| #![trigger f_channel(key, m, sep)] p is Some && at(b@, p->0 as int, f_channel(key, m, sep)) implies at(b@, p->0 as int, key.spec_bytes())
            && at(b@, p->0 + key.spec_bytes().len(), enc_channel(m))
            && at(b@, p->0 + key.spec_bytes().len() + enc_channel(m).len(), seq![sep]) by {
            let q = p->0 as int;
            assert(at(b@, q, key.spec_bytes() + (enc_channel(m) + seq![sep])));
            assert(at(b@, q + key.spec_bytes().len(), enc_channel(m) + seq![sep]));
        }
    }
    r
}


pub open spec fn f_opt_stat(key: &str, v: Option<Stat>, sep: u8) -> Seq<u8> {
    key.spec_bytes() + (enc_opt_stat(v) + seq![sep])
}

fn push_field_opt_stat(out: &mut Vec<u8>, key: &str, v: Option<Stat>, sep: u8)
    ensures
        final(out)@ == old(out)@ + f_opt_stat(key, v, sep),
{
    let ghost start = out@;
    push_lit(out, key);
    push_opt_stat(out, v);
    out.push(sep);
    assert(out@ =~= start + f_opt_stat(key, v, sep));
}

fn field_opt_stat(b: &Vec<u8>, p: Option<usize>, key: &str, sep: u8) -> (r: Option<(Option<Stat>, usize)>)
    ensures
        forall|m: Option<Stat>| #![trigger f_opt_stat(key, m, sep)] p is Some && at(b@, p->0 as int, f_opt_stat(key, m, sep)) ==> (r matches Some((
            x,
            e,
        )) && x == m && e == p->0 + f_opt_stat(key, m, sep).len()),
{
    broadcast use {lemma_at_concat, lemma_at_single};

    let len = b.len();
    let v = opt_stat_at(b, lit_at(b, p, key));
    let r = match v {
        Some((x, e)) => match byte_at(b, Some(e), sep) {
            Some(e2) => Some((x, e2)),
            None => None,
        },
        None => None,
    };
    proof {
        assert forall|m: Option<Stat>| #![trigger f_opt_stat(key, m, sep)] p is Some && at(b@, p->0 as int, f_opt_stat(key, m, sep)) implies at(b@, p->0 as int, key.spec_bytes())
            && at(b@, p->0 + key.spec_bytes().len(), enc_opt_stat(m))
            && at(b@, p->0 + key.spec_bytes().len() + enc_opt_stat(m).len(), seq![sep]) by {
            let q = p->0 as int;
            assert(at(b@, q, key.spec_bytes() + (enc_opt_stat(m) + seq![sep])));
            assert(at(b@, q + key.spec_bytes().len(), enc_opt_stat(m) + seq![sep]));
        }
    }
    r
}


pub open spec fn f_otype(key: &str, v: ObjectType, sep: u8) -> Seq<u8> {
    key.spec_bytes() + (enc_object_type(v) + seq![sep])
}

fn push_field_otype(out: &mut Vec<u8>, key: &str, v: ObjectType, sep: u8)
    ensures
        final(out)@ == old(out)@ + f_otype(key, v, sep),
{
    let ghost start = out@;
    push_lit(out, key);
    push_object_type(out, v);
    out.push(sep);
    assert(out@ =~= start + f_otype(key, v, sep));
}

fn field_otype(b: &Vec<u8>, p: Option<usize>, key: &str, sep: u8) -> (r: Option<(ObjectType, usize)>)
    ensures
        forall|m: ObjectType| #![trigger f_otype(key, m, sep)] p is Some && at(b@, p->0 as int, f_otype(key, m, sep)) ==> (r matches Some((
            x,
            e,
        )) && x == m && e == p->0 + f_otype(key, m, sep).len()),
{
    broadcast use {lemma_at_concat, lemma_at_single};

    let len = b.len();
    let v = object_type_at(b, lit_at(b, p, key));
    let r = match v {
        Some((x, e)) => match byte_at(b, Some(e), sep) {
            Some(e2) => Some((x, e2)),
            None => None,
        },
        None => None,
    };
    proof {
        assert forall|m: ObjectType| #![trigger f_otype(key, m, sep)] p is Some && at(b@, p->0 as int, f_otype(key, m, sep)) implies at(b@, p->0 as int, key.spec_bytes())
            && at(b@, p->0 + key.spec_bytes().len(), enc_object_type(m))
            && at(b@, p->0 + key.spec_bytes().len() + enc_object_type(m).len(), seq![sep]) by {
            let q = p->0 as int;
            assert(at(b@, q, key.spec_bytes() + (enc_object_type(m) + seq![sep])));
            assert(at(b@, q + key.spec_bytes().len(), enc_object_type(m) + seq![sep]));
        }
    }
    r
}


pub open spec fn f_operation(key: &str, v: OperationView, sep: u8) -> Seq<u8> {
    key.spec_bytes() + (enc_operation(v) + seq![sep])
}

fn push_field_operation(out: &mut Vec<u8>, key: &str, v: &Operation, sep: u8)
    ensures
        final(out)@ == old(out)@ + f_operation(key, v@, sep),
{
    let ghost start = out@;
    push_lit(out, key);
    push_operation(out, v);
    out.push(sep);
    assert(out@ =~= start + f_operation(key, v@, sep));
}

fn field_operation(b: &Vec<u8>, p: Option<usize>, key: &str, sep: u8) -> (r: Option<(Operation, usize)>)
    ensures
        forall|m: OperationView| #![trigger f_operation(key, m, sep)] p is Some && at(b@, p->0 as int, f_operation(key, m, sep)) ==> (r matches Some((
            x,
            e,
        )) && x@ == m && e == p->0 + f_operation(key, m, sep).len()),
{
    broadcast use {lemma_at_concat, lemma_at_single};

    let len = b.len();
    let v = operation_at(b, lit_at(b, p, key));
    let r = match v {
        Some((x, e)) => match byte_at(b, Some(e), sep) {
            Some(e2) => Some((x, e2)),
            None => None,
        },
        None => None,
    };
    proof {
        assert forall|m: OperationView| #![trigger f_operation(key, m, sep)] p is Some && at(b@, p->0 as int, f_operation(key, m, sep)) implies at(b@, p->0 as int, key.spec_bytes())
            && at(b@, p->0 + key.spec_bytes().len(), enc_operation(m))
            && at(b@, p->0 + key.spec_bytes().len() + enc_operation(m).len(), seq![sep]) by {
            let q = p->0 as int;
            assert(at(b@, q, key.spec_bytes() + (enc_operation(m) + seq![sep])));
            assert(at(b@, q + key.spec_bytes().len(), enc_operation(m) + seq![sep]));
        }
    }
    r
}


impl Channel {
    /// A channel created at `now`: every timestamp is `now`.
    pub fn new(id: String, name: String, description: String, public: bool, now: i64) -> (r: Self)
        ensures
            r@ == (ChannelView {
                id: id@,
                name: name@,
                description: description@,
                public,
                when_created: now,
                last_publish: now,
                last_subscribe: now,
            }),
    {
        Channel { id, name, description, public, when_created: now, last_publish: now, last_subscribe: now }
    }
}

/// Why a payload could not be read as an envelope.
#[derive(Debug, Clone, Copy, PartialEq, Eq, Structural)]
pub enum DecodeError {
    /// The bytes are not the wire form of any envelope.
    Malformed,
}

/// The wire form of `e`.
pub fn encode(e: &EventEnvelope) -> (r: Vec<u8>)
    ensures
        r@ == enc_envelope(e@),
{
    let mut out: Vec<u8> = Vec::new();
    push_envelope(&mut out, e);
    assert(out@ =~= enc_envelope(e@));
    out
}

fn bytes_equal(a: &Vec<u8>, b: &Vec<u8>) -> (r: bool)
    ensures
        r == (a@ == b@),
{
    if a.len() != b.len() {
        return false;
    }
    let mut i: usize = 0;
    while i < a.len()
        invariant
            a@.len() == b@.len(),
            i <= a@.len(),
            forall|k: int| 0 <= k < i ==> a@[k] == b@[k],
        decreases a.len() - i,
    {
        if a[i] != b[i] {
            return false;
        }
        i = i + 1;
    }
    assert(a@ =~= b@);
    true
}

/// A sync message's type agrees with its operation: a file operation is typed
/// `File`, a folder operation `Folder`.
pub open spec fn consistent_sync(m: SyncMessageView) -> bool {
    match m.operation {
        OperationView::File(_) => m.operation_type == ObjectType::File,
        OperationView::Path(_) => m.operation_type == ObjectType::Folder,
    }
}

/// Every tag in the envelope agrees with what it tags.
pub open spec fn consistent(e: EventEnvelopeView) -> bool {
    match e {
        EventEnvelopeView::Sync(SyncEventView::Create(m)) => consistent_sync(m),
        EventEnvelopeView::Sync(SyncEventView::Rename(m)) => consistent_sync(m),
        _ => true,
    }
}

fn sync_is_consistent(m: &SyncMessage) -> (r: bool)
    ensures
        r == consistent_sync(m@),
{
    match (&m.operation, m.operation_type) {
        (Operation::File(_), ObjectType::File) => true,
        (Operation::Path(_), ObjectType::Folder) => true,
        _ => false,
    }
}

/// Whether every tag in `e` agrees with what it tags.
pub fn is_consistent(e: &EventEnvelope) -> (r: bool)
    ensures
        r == consistent(e@),
{
    match e {
        EventEnvelope::Sync(SyncEvent::Create(m)) => sync_is_consistent(m),
        EventEnvelope::Sync(SyncEvent::Rename(m)) => sync_is_consistent(m),
        _ => true,
    }
}

/// What `decode` answers on `b`: a consistent envelope whose wire form is exactly
/// `b`, and an error exactly when no consistent envelope has `b` as its wire form.
pub open spec fn decoded(b: Seq<u8>, r: Result<EventEnvelope, DecodeError>) -> bool {
    &&& (r matches Ok(e) ==> enc_envelope(e@) == b && consistent(e@))
    &&& (forall|m: EventEnvelopeView| #[trigger] enc_envelope(m) == b && consistent(m) ==> (r matches Ok(e) && e@ == m))
    &&& (r is Err ==> r == Err::<EventEnvelope, DecodeError>(DecodeError::Malformed))
}

/// Reads an envelope from its wire form. Any other input, including an envelope
/// followed by more bytes or one whose tags disagree with their payloads, is refused.
pub fn decode(b: &Vec<u8>) -> (r: Result<EventEnvelope, DecodeError>)
    ensures
        decoded(b@, r),
{
    let r = match envelope_at(b, Some(0)) {
        Some((e, end)) => {
            if end == b.len() {
                let again = encode(&e);
                if bytes_equal(&again, b) && is_consistent(&e) {
                    Ok(e)
                } else {
                    Err(DecodeError::Malformed)
                }
            } else {
                Err(DecodeError::Malformed)
            }
        },
        None => Err(DecodeError::Malformed),
    };
    proof {
        assert forall|m: EventEnvelopeView| #[trigger] enc_envelope(m) == b@ && consistent(m) implies (r matches Ok(e) && e@ == m) by {
            assert(b@.subrange(0, enc_envelope(m).len() as int) =~= enc_envelope(m));
            assert(at(b@, 0, enc_envelope(m)));
        }
    }
    r
}

/// Round trip: decoding the wire form of any consistent envelope gives that
/// envelope back.
pub proof fn lemma_round_trip(e: EventEnvelopeView, r: Result<EventEnvelope, DecodeError>)
    requires
        consistent(e),
        decoded(enc_envelope(e), r),
    ensures
        r matches Ok(d) && d@ == e,
{
}

/// The wire form determines the envelope: two consistent envelopes with the same
/// bytes are equal.
pub proof fn lemma_encoding_injective(a: EventEnvelopeView, b: EventEnvelopeView, r: Result<EventEnvelope, DecodeError>)
    requires
        consistent(a),
        consistent(b),
        enc_envelope(a) == enc_envelope(b),
        decoded(enc_envelope(a), r),
    ensures
        a == b,
{
}

} // verus!
