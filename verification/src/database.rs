//! The service: the operations on users, groups and memberships, and the closing
//! of a group, each against the record store.

use crate::assignment::{is_rearranged, link_cycle, shuffle_members};
use crate::errors::{
    error_bad_request, error_internal_server, error_same_name, outcome, Failure, ServiceError,
};
use crate::models::{Group, GroupView, Member, Role, User, UserView};
use crate::rules::{
    check_close, check_demote, check_join, check_manage, check_quorum, check_reveal, manage_rule,
};
use crate::service;
use crate::storage::{group_views, Store};
use crate::tables::{lemma_lookup_only, lemma_try_santas_frame, StorageError, Tables};
use vstd::prelude::*;

verus! {

/// The names of a list as contracts see them.
pub open spec fn name_views(names: Seq<String>) -> Seq<Seq<char>> {
    Seq::new(names.len(), |i: int| names[i]@)
}

/// Reports a refusal of the store to write such a thing.
fn report(e: StorageError, what: &str) -> (error: ServiceError)
    ensures
        error@ == service::refused(e, what),
{
    match e {
        StorageError::DuplicateKey => error_same_name(what.to_owned()),
        _ => error_internal_server(),
    }
}

/// The service and the store that it works on.
pub struct Database {
    store: Store,
}

impl View for Database {
    type V = Tables;

    closed spec fn view(&self) -> Tables {
        self.store@
    }
}

impl Database {
    /// The store of the service keeps the keys of its tables.
    pub open spec fn wf(&self) -> bool {
        self@.valid()
    }

    /// A service with no users and no groups.
    pub fn new() -> (database: Database)
        ensures
            database.wf(),
            database@ == Tables::empty(),
    {
        Database { store: Store::new() }
    }

    /// The service on the rows of `store`.
    pub fn from_store(store: Store) -> (database: Database)
        requires
            store.wf(),
        ensures
            database.wf(),
            database@ == store@,
    {
        Database { store }
    }

    /// The store of the service.
    pub fn store(&self) -> (store: &Store)
        ensures
            store@ == self@,
    {
        &self.store
    }

    /// Looks up the acting user, the group, and the membership of the one in the other.
    fn resolve(&self, username: &str, group_name: &str) -> (found: Result<
        (User, Group, Member),
        ServiceError,
    >)
        requires
            self.wf(),
        ensures
            match found {
                Ok((user, group, member)) => service::resolve(self@, username@, group_name@) == Ok::<
                    (UserView, GroupView, Member),
                    Failure,
                >((user@, group@, member)),
                Err(e) => service::resolve(self@, username@, group_name@) == Err::<
                    (UserView, GroupView, Member),
                    Failure,
                >(e@),
            },
    {
        let user = match self.store.get_user(username) {
            Ok(user) => user,
            Err(_) => { return Err(error_bad_request("This user was not found".to_owned())); },
        };
        let group = match self.store.get_group(group_name) {
            Ok(group) => group,
            Err(_) => { return Err(error_bad_request("This group was not found".to_owned())); },
        };
        let member = match self.store.get_member(&user, &group) {
            Ok(member) => member,
            Err(_) => { return Err(error_bad_request("This member was not found".to_owned())); },
        };
        Ok((user, group, member))
    }

    /// Registers a user of that name. Fails with a conflict where the name is taken.
    pub fn create_user(&mut self, username: &str) -> (done: Result<(), ServiceError>)
        requires
            old(self).wf(),
        ensures
            final(self).wf(),
            match service::register_user(old(self)@, username@) {
                Ok(tables) => done is Ok && final(self)@ == tables,
                Err(f) => outcome(done) == Err::<(), Failure>(f) && final(self)@ == old(self)@,
            },
    {
        match self.store.create_user(username) {
            Ok(_) => Ok(()),
            Err(e) => Err(report(e, "User")),
        }
    }

    /// Creates an open group of that name with the acting user as its admin.
    pub fn create_group_by_user(&mut self, username: &str, group_name: &str) -> (done: Result<
        (),
        ServiceError,
    >)
        requires
            old(self).wf(),
        ensures
            final(self).wf(),
            match service::create_group(old(self)@, username@, group_name@) {
                Ok(tables) => done is Ok && final(self)@ == tables,
                Err(f) => outcome(done) == Err::<(), Failure>(f) && final(self)@ == old(self)@,
            },
    {
        let user = match self.store.get_user(username) {
            Ok(user) => user,
            Err(_) => { return Err(error_bad_request("This user was not found".to_owned())); },
        };
        match self.store.create_group_with_admin(group_name, &user) {
            Ok(_) => Ok(()),
            Err(e) => Err(report(e, "Group")),
        }
    }

    /// Makes the acting user a member of an open group.
    pub fn add_user_to_group(&mut self, username: &str, group_name: &str) -> (done: Result<
        (),
        ServiceError,
    >)
        requires
            old(self).wf(),
        ensures
            final(self).wf(),
            match service::join_group(old(self)@, username@, group_name@) {
                Ok(tables) => done is Ok && final(self)@ == tables,
                Err(f) => outcome(done) == Err::<(), Failure>(f) && final(self)@ == old(self)@,
            },
    {
        let user = match self.store.get_user(username) {
            Ok(user) => user,
            Err(_) => { return Err(error_bad_request("This user was not found".to_owned())); },
        };
        let group = match self.store.get_group(group_name) {
            Ok(group) => group,
            Err(_) => { return Err(error_bad_request("This group was not found".to_owned())); },
        };
        match check_join(group.is_close) {
            Ok(_) => {},
            Err(e) => { return Err(e); },
        }
        match self.store.create_member(&user, &group, Role::Member) {
            Ok(_) => Ok(()),
            Err(e) => Err(report(e, "Member")),
        }
    }

    /// Deletes a group with its memberships and pairings, for one of its admins.
    pub fn delete_group_by_admin(&mut self, username: &str, group_name: &str) -> (done: Result<
        (),
        ServiceError,
    >)
        requires
            old(self).wf(),
        ensures
            final(self).wf(),
            match service::delete_group(old(self)@, username@, group_name@) {
                Ok(tables) => done is Ok && final(self)@ == tables,
                Err(f) => outcome(done) == Err::<(), Failure>(f) && final(self)@ == old(self)@,
            },
    {
        let (user, group, member) = match self.resolve(username, group_name) {
            Ok(found) => found,
            Err(e) => { return Err(e); },
        };
        match check_manage(member.urole) {
            Ok(_) => {},
            Err(e) => { return Err(e); },
        }
        self.store.delete_group(group);
        Ok(())
    }

    /// Lists the names of the members of a group, in the order of their
    /// memberships in the table, for one of its admins.
    pub fn get_group_members(&self, username: &str, group_name: &str) -> (listed: Result<
        Vec<String>,
        ServiceError,
    >)
        requires
            self.wf(),
        ensures
            match listed {
                Ok(names) => service::list_members(self@, username@, group_name@) == Ok::<
                    Seq<Seq<char>>,
                    Failure,
                >(name_views(names@)),
                Err(e) => service::list_members(self@, username@, group_name@) == Err::<
                    Seq<Seq<char>>,
                    Failure,
                >(e@),
            },
    {
        let (actor, group, member) = match self.resolve(username, group_name) {
            Ok(found) => found,
            Err(e) => { return Err(e); },
        };
        match check_manage(member.urole) {
            Ok(_) => {},
            Err(e) => { return Err(e); },
        }
        let members = self.store.get_members(&group);
        let mut users: Vec<String> = Vec::new();
        let mut k: usize = 0;
        while k < members.len()
            invariant
                self.wf(),
                service::resolve(self@, username@, group_name@) == Ok::<
                    (UserView, GroupView, Member),
                    Failure,
                >((actor@, group@, member)),
                manage_rule(member.urole) is Ok,
                members@ == self@.members_of(group.id),
                k <= members.len(),
                users.len() == k,
                forall|j: int|
                    0 <= j < k ==> self@.user_numbered((#[trigger] members@[j]).user_id) is Some,
                forall|j: int|
                    0 <= j < k ==> (#[trigger] users@[j])@ == self@.user_numbered(
                        members@[j].user_id,
                    )->Some_0.name,
            decreases members.len() - k,
        {
            let user = match self.store.get_user_from_member(&members[k]) {
                Ok(user) => user,
                Err(_) => {
                    proof {
                        assert(self@.user_numbered(members@[k as int].user_id) is None);
                        assert(service::names_of(self@, members@) is None);
                    }
                    return Err(error_bad_request("This user was not found".to_owned()));
                },
            };
            users.push(user.name);
            k += 1;
        }
        proof {
            assert(name_views(users@) =~= service::names_of(self@, members@)->Some_0);
        }
        Ok(users)
    }

    /// Takes the admin role from the acting user, while another admin remains.
    pub fn revoke_rights_of_admin(&mut self, username: &str, group_name: &str) -> (done: Result<
        (),
        ServiceError,
    >)
        requires
            old(self).wf(),
        ensures
            final(self).wf(),
            match service::demote_self(old(self)@, username@, group_name@) {
                Ok(tables) => done is Ok && final(self)@ == tables,
                Err(f) => outcome(done) == Err::<(), Failure>(f) && final(self)@ == old(self)@,
            },
    {
        let (user, group, member) = match self.resolve(username, group_name) {
            Ok(found) => found,
            Err(e) => { return Err(e); },
        };
        let number_of_admins = self.store.count_admins(&group);
        match check_demote(member.urole, number_of_admins) {
            Ok(_) => {},
            Err(e) => { return Err(e); },
        }
        let changed_member = member.set_role(Role::Member);
        proof {
            lemma_membership_numbered(self@, user.id, group.id);
        }
        match self.store.update_member(changed_member) {
            Ok(_) => Ok(()),
            Err(_) => Err(error_internal_server()),
        }
    }

    /// Makes another member an admin of the group, for one of its admins.
    pub fn add_admin_to_group(&mut self, username: &str, new_admin: &str, group_name: &str) -> (done:
        Result<(), ServiceError>)
        requires
            old(self).wf(),
        ensures
            final(self).wf(),
            match service::promote_admin(old(self)@, username@, new_admin@, group_name@) {
                Ok(tables) => done is Ok && final(self)@ == tables,
                Err(f) => outcome(done) == Err::<(), Failure>(f) && final(self)@ == old(self)@,
            },
    {
        let group = match self.store.get_group(group_name) {
            Ok(group) => group,
            Err(_) => { return Err(error_bad_request("This group was not found".to_owned())); },
        };
        let user_setter = match self.store.get_user(username) {
            Ok(user) => user,
            Err(_) => { return Err(error_bad_request("This user was not found".to_owned())); },
        };
        let setter_member = match self.store.get_member(&user_setter, &group) {
            Ok(member) => member,
            Err(_) => { return Err(error_bad_request("This member was not found".to_owned())); },
        };
        match check_manage(setter_member.urole) {
            Ok(_) => {},
            Err(e) => { return Err(e); },
        }
        let user_new_admin = match self.store.get_user(new_admin) {
            Ok(user) => user,
            Err(_) => { return Err(error_bad_request("This user was not found".to_owned())); },
        };
        let new_admin_member = match self.store.get_member(&user_new_admin, &group) {
            Ok(member) => member,
            Err(_) => { return Err(error_bad_request("This member was not found".to_owned())); },
        };
        let changed_member = new_admin_member.set_role(Role::Admin);
        proof {
            lemma_membership_numbered(self@, user_new_admin.id, group.id);
        }
        match self.store.update_member(changed_member) {
            Ok(_) => Ok(()),
            Err(_) => Err(error_internal_server()),
        }
    }

    /// Lists the groups that are not closed.
    pub fn get_open_groups(&self) -> (open: Vec<Group>)
        requires
            self.wf(),
        ensures
            group_views(open@) == self@.open_groups(),
    {
        self.store.get_open_groups()
    }

    /// The group that the acting user may close now, and its memberships in the
    /// order of the table.
    pub fn closing_members(&self, username: &str, group_name: &str) -> (found: Result<
        (Group, Vec<Member>),
        ServiceError,
    >)
        requires
            self.wf(),
        ensures
            match found {
                Ok((group, members)) => {
                    &&& service::closing(self@, username@, group_name@) == Ok::<GroupView, Failure>(
                        group@,
                    )
                    &&& members@ == self@.members_of(group.id)
                },
                Err(e) => service::closing(self@, username@, group_name@) == Err::<
                    GroupView,
                    Failure,
                >(e@),
            },
    {
        let (user, group, admin_member) = match self.resolve(username, group_name) {
            Ok(found) => found,
            Err(e) => { return Err(e); },
        };
        match check_close(admin_member.urole, group.is_close) {
            Ok(_) => {},
            Err(e) => { return Err(e); },
        }
        let members = self.store.get_members(&group);
        match check_quorum(members.len()) {
            Ok(_) => {},
            Err(e) => { return Err(e); },
        }
        Ok((group, members))
    }

    /// Closes `group` with the pairings that `order` gives: every member of
    /// `order` gives to the next one, and the last to the first. Either all the
    /// pairings are stored and the group is marked closed, or nothing changes.
    pub fn assign_santas(&mut self, group: &Group, order: &Vec<Member>) -> (done: Result<
        (),
        ServiceError,
    >)
        requires
            old(self).wf(),
        ensures
            final(self).wf(),
            service::closes(old(self)@, group.id, order@, outcome(done), final(self)@),
    {
        if !self.store.has_group(group.id) {
            return Err(error_bad_request("This group was not found".to_owned()));
        }
        let pairs = link_cycle(group.id, order);
        match self.store.set_santas(&pairs) {
            Ok(_) => {},
            Err(_) => { return Err(error_internal_server()); },
        }
        proof {
            lemma_try_santas_frame(old(self)@, pairs@);
        }
        let closed = group.clone().close_group();
        match self.store.update_group(&closed) {
            Ok(_) => Ok(()),
            Err(_) => Err(error_internal_server()),
        }
    }

    /// Closes a group for one of its admins: puts its members into a random
    /// order and pairs each with the next one.
    pub fn close_group(&mut self, username: &str, group_name: &str) -> (done: Result<
        (),
        ServiceError,
    >)
        requires
            old(self).wf(),
        ensures
            final(self).wf(),
            match service::closing(old(self)@, username@, group_name@) {
                Err(f) => outcome(done) == Err::<(), Failure>(f) && final(self)@ == old(self)@,
                Ok(group) => service::closes_in_some_order(
                    old(self)@,
                    group.id,
                    outcome(done),
                    final(self)@,
                ),
            },
    {
        match self.closing_members(username, group_name) {
            Err(e) => Err(e),
            Ok((group, members)) => {
                let mut order = members;
                shuffle_members(&mut order);
                let done = self.assign_santas(&group, &order);
                proof {
                    assert(is_rearranged(order@, old(self)@.members_of(group.id)));
                    assert(service::closes(old(self)@, group.id, order@, outcome(done), self@));
                }
                done
            },
        }
    }

    /// Tells the name of the user that the santa gives to in a closed group.
    pub fn get_recipient_name(&self, santa_name: &str, group_name: &str) -> (told: Result<
        String,
        ServiceError,
    >)
        requires
            self.wf(),
        ensures
            match told {
                Ok(name) => service::get_recipient(self@, santa_name@, group_name@) == Ok::<
                    Seq<char>,
                    Failure,
                >(name@),
                Err(e) => service::get_recipient(self@, santa_name@, group_name@) == Err::<
                    Seq<char>,
                    Failure,
                >(e@),
            },
    {
        let santa = match self.store.get_user(santa_name) {
            Ok(user) => user,
            Err(_) => { return Err(error_bad_request("This user was not found".to_owned())); },
        };
        let group = match self.store.get_group(group_name) {
            Ok(group) => group,
            Err(_) => { return Err(error_bad_request("This group was not found".to_owned())); },
        };
        match check_reveal(group.is_close) {
            Ok(_) => {},
            Err(e) => { return Err(e); },
        }
        match self.store.get_santa_recipient(&group, &santa) {
            Ok(recipient) => Ok(recipient.name),
            Err(_) => Err(error_internal_server()),
        }
    }
}

/// A membership that is found by its user and group is found by its number too.
pub proof fn lemma_membership_numbered(tables: Tables, user_id: i32, group_id: i32)
    requires
        tables.valid(),
        tables.membership(user_id, group_id) is Some,
    ensures
        tables.member_numbered(tables.membership(user_id, group_id)->Some_0.id) == tables.membership(
            user_id,
            group_id,
        ),
{
    let rows = tables.members;
    let by_key = |m: Member| m.user_id == user_id && m.group_id == group_id;
    let k = choose|k: int| 0 <= k < rows.len() && by_key(#[trigger] rows[k]);
    let id = rows[k].id;
    assert forall|j: int| 0 <= j < rows.len() && j != k implies (#[trigger] rows[j]).id != id by {
        assert(rows[j].id != rows[k].id);
    }
    lemma_lookup_only(rows, |m: Member| m.id == id, k);
}

} // verus!
