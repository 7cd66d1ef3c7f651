//! What every operation of the service does, as functions from the tables and
//! the request to the new tables or the failure.
//!
//! An operation checks, in this order, that what the request names exists, that
//! the acting user has the role, that the group is in the right state, and that
//! the group is large enough. The first check that fails decides the failure,
//! and a failed operation changes nothing.

use crate::assignment::{is_rearranged, pairings};
use crate::errors::{failure, same_name_suffix, ErrorKind, Failure};
use crate::models::{GroupView, Member, NewMember, Role, UserView};
use crate::rules::{close_rule, demote_rule, join_rule, manage_rule, quorum_rule, reveal_rule};
use crate::tables::{StorageError, Tables};
use vstd::prelude::*;

verus! {

/// The request names a user that is not registered.
pub open spec fn user_not_found() -> Failure {
    failure(ErrorKind::NotFound, "This user was not found")
}

/// The request names a group that does not exist.
pub open spec fn group_not_found() -> Failure {
    failure(ErrorKind::NotFound, "This group was not found")
}

/// The user is not a member of the group.
pub open spec fn member_not_found() -> Failure {
    failure(ErrorKind::NotFound, "This member was not found")
}

/// The store failed.
pub open spec fn internal() -> Failure {
    failure(ErrorKind::Internal, "Error")
}

/// The name of such a thing is taken.
pub open spec fn taken(what: &str) -> Failure {
    Failure { kind: ErrorKind::Conflict, message: what@ + same_name_suffix() }
}

/// How a refusal of the store to write such a thing is reported: a taken key
/// as a conflict, anything else as a failure of the store.
pub open spec fn refused(e: StorageError, what: &str) -> Failure {
    if e == StorageError::DuplicateKey {
        taken(what)
    } else {
        internal()
    }
}

/// The acting user, the group and the membership of the one in the other, looked
/// up in this order.
pub open spec fn resolve(tables: Tables, actor: Seq<char>, group: Seq<char>) -> Result<
    (UserView, GroupView, Member),
    Failure,
> {
    match tables.user_named(actor) {
        None => Err(user_not_found()),
        Some(user) => match tables.group_named(group) {
            None => Err(group_not_found()),
            Some(found) => match tables.membership(user.id, found.id) {
                None => Err(member_not_found()),
                Some(member) => Ok((user, found, member)),
            },
        },
    }
}

/// Registers a user of that name.
pub open spec fn register_user(tables: Tables, name: Seq<char>) -> Result<Tables, Failure> {
    if tables.user_named(name) is Some {
        Err(taken("User"))
    } else if tables.last_user == i32::MAX {
        Err(internal())
    } else {
        Ok(tables.with_user(name))
    }
}

/// Creates an open group of that name with the acting user as its admin.
pub open spec fn create_group(tables: Tables, actor: Seq<char>, group: Seq<char>) -> Result<
    Tables,
    Failure,
> {
    match tables.user_named(actor) {
        None => Err(user_not_found()),
        Some(user) => match tables.try_group_with_admin(group, user.id) {
            Ok(after) => Ok(after),
            Err(e) => Err(refused(e, "Group")),
        },
    }
}

/// Makes the acting user a member of an open group.
pub open spec fn join_group(tables: Tables, actor: Seq<char>, group: Seq<char>) -> Result<
    Tables,
    Failure,
> {
    match tables.user_named(actor) {
        None => Err(user_not_found()),
        Some(user) => match tables.group_named(group) {
            None => Err(group_not_found()),
            Some(found) => match join_rule(found.is_close) {
                Err(f) => Err(f),
                Ok(_) => if tables.membership(user.id, found.id) is Some {
                    Err(taken("Member"))
                } else if tables.last_member == i32::MAX {
                    Err(internal())
                } else {
                    Ok(
                        tables.with_member(
                            NewMember { user_id: user.id, group_id: found.id, urole: Role::Member },
                        ),
                    )
                },
            },
        },
    }
}

/// Deletes a group with its memberships and pairings, for one of its admins.
pub open spec fn delete_group(tables: Tables, actor: Seq<char>, group: Seq<char>) -> Result<
    Tables,
    Failure,
> {
    match resolve(tables, actor, group) {
        Err(f) => Err(f),
        Ok((user, found, member)) => match manage_rule(member.urole) {
            Err(f) => Err(f),
            Ok(_) => Ok(tables.without_group(found.id)),
        },
    }
}

/// The names of the users behind the memberships, in their order, where each
/// of these users is registered.
pub open spec fn names_of(tables: Tables, members: Seq<Member>) -> Option<Seq<Seq<char>>> {
    if forall|k: int|
        0 <= k < members.len() ==> tables.user_numbered((#[trigger] members[k]).user_id) is Some {
        Some(Seq::new(members.len(), |k: int| tables.user_numbered(members[k].user_id)->Some_0.name))
    } else {
        None
    }
}

/// Lists the names of the members of a group, for one of its admins.
pub open spec fn list_members(tables: Tables, actor: Seq<char>, group: Seq<char>) -> Result<
    Seq<Seq<char>>,
    Failure,
> {
    match resolve(tables, actor, group) {
        Err(f) => Err(f),
        Ok((user, found, member)) => match manage_rule(member.urole) {
            Err(f) => Err(f),
            Ok(_) => match names_of(tables, tables.members_of(found.id)) {
                None => Err(user_not_found()),
                Some(names) => Ok(names),
            },
        },
    }
}

/// Makes the target an admin of the group, for one of its admins. The group is
/// looked up first, then the acting user and its role, then the target.
pub open spec fn promote_admin(
    tables: Tables,
    actor: Seq<char>,
    target: Seq<char>,
    group: Seq<char>,
) -> Result<Tables, Failure> {
    match tables.group_named(group) {
        None => Err(group_not_found()),
        Some(found) => match tables.user_named(actor) {
            None => Err(user_not_found()),
            Some(user) => match tables.membership(user.id, found.id) {
                None => Err(member_not_found()),
                Some(member) => match manage_rule(member.urole) {
                    Err(f) => Err(f),
                    Ok(_) => match tables.user_named(target) {
                        None => Err(user_not_found()),
                        Some(other) => match tables.membership(other.id, found.id) {
                            None => Err(member_not_found()),
                            Some(promoted) => Ok(tables.with_role(promoted.id, Role::Admin)),
                        },
                    },
                },
            },
        },
    }
}

/// Takes the admin role from the acting user, while another admin remains.
pub open spec fn demote_self(tables: Tables, actor: Seq<char>, group: Seq<char>) -> Result<
    Tables,
    Failure,
> {
    match resolve(tables, actor, group) {
        Err(f) => Err(f),
        Ok((user, found, member)) => match demote_rule(
            member.urole,
            tables.admins_of(found.id).len(),
        ) {
            Err(f) => Err(f),
            Ok(_) => Ok(tables.with_role(member.id, Role::Member)),
        },
    }
}

/// The group that the acting user is about to close: the user is one of its
/// admins, it is open, and it has two members at least.
pub open spec fn closing(tables: Tables, actor: Seq<char>, group: Seq<char>) -> Result<
    GroupView,
    Failure,
> {
    match resolve(tables, actor, group) {
        Err(f) => Err(f),
        Ok((user, found, member)) => match close_rule(member.urole, found.is_close) {
            Err(f) => Err(f),
            Ok(_) => match quorum_rule(tables.members_of(found.id).len()) {
                Err(f) => Err(f),
                Ok(_) => Ok(found),
            },
        },
    }
}

/// Closes the group of that number with the pairings that the order of its
/// members gives: all the pairings are stored and the group is marked closed,
/// or nothing changes.
pub open spec fn closed_with(tables: Tables, group_id: i32, order: Seq<Member>) -> Result<
    Tables,
    Failure,
> {
    if tables.group_numbered(group_id) is None {
        Err(group_not_found())
    } else {
        match tables.try_santas(pairings(group_id, order)) {
            Err(e) => Err(internal()),
            Ok(after) => Ok(after.with_group_state(group_id, true)),
        }
    }
}

/// Closes a group for one of its admins, with its members in that order.
pub open spec fn close_group(
    tables: Tables,
    actor: Seq<char>,
    group: Seq<char>,
    order: Seq<Member>,
) -> Result<Tables, Failure> {
    match closing(tables, actor, group) {
        Err(f) => Err(f),
        Ok(found) => closed_with(tables, found.id, order),
    }
}

/// A request that may change the tables. Closing a group also says in which
/// order chance has put its members.
pub ghost enum Request {
    Register { name: Seq<char> },
    CreateGroup { actor: Seq<char>, group: Seq<char> },
    Join { actor: Seq<char>, group: Seq<char> },
    Delete { actor: Seq<char>, group: Seq<char> },
    Promote { actor: Seq<char>, target: Seq<char>, group: Seq<char> },
    DemoteSelf { actor: Seq<char>, group: Seq<char> },
    Close { actor: Seq<char>, group: Seq<char>, order: Seq<Member> },
}

/// What a request makes of the tables.
pub open spec fn apply(tables: Tables, request: Request) -> Result<Tables, Failure> {
    match request {
        Request::Register { name } => register_user(tables, name),
        Request::CreateGroup { actor, group } => create_group(tables, actor, group),
        Request::Join { actor, group } => join_group(tables, actor, group),
        Request::Delete { actor, group } => delete_group(tables, actor, group),
        Request::Promote { actor, target, group } => promote_admin(tables, actor, target, group),
        Request::DemoteSelf { actor, group } => demote_self(tables, actor, group),
        Request::Close { actor, group, order } => close_group(tables, actor, group, order),
    }
}

/// The result and the new tables are those of closing the group of that number
/// with that order of its members.
pub open spec fn closes(
    before: Tables,
    group_id: i32,
    order: Seq<Member>,
    done: Result<(), Failure>,
    after: Tables,
) -> bool {
    match closed_with(before, group_id, order) {
        Ok(tables) => done is Ok && after == tables,
        Err(f) => done == Err::<(), Failure>(f) && after == before,
    }
}

/// The result and the new tables are those of closing the group of that number
/// with its members in some order: which order, chance decides.
pub open spec fn closes_in_some_order(
    before: Tables,
    group_id: i32,
    done: Result<(), Failure>,
    after: Tables,
) -> bool {
    exists|order: Seq<Member>|
        is_rearranged(order, before.members_of(group_id)) && #[trigger] closes(
            before,
            group_id,
            order,
            done,
            after,
        )
}

/// Tells the name of the user that the santa gives to in a closed group.
pub open spec fn get_recipient(tables: Tables, santa: Seq<char>, group: Seq<char>) -> Result<
    Seq<char>,
    Failure,
> {
    match tables.user_named(santa) {
        None => Err(user_not_found()),
        Some(user) => match tables.group_named(group) {
            None => Err(group_not_found()),
            Some(found) => match reveal_rule(found.is_close) {
                Err(f) => Err(f),
                Ok(_) => match tables.recipient(found.id, user.id) {
                    None => Err(internal()),
                    Some(recipient) => Ok(recipient.name),
                },
            },
        },
    }
}

} // verus!
