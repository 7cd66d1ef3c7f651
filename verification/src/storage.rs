//! The record store: four tables of rows, held in memory.
//!
//! Users and groups are found by name, memberships by user and group, pairings
//! by group and santa. The store gives every new row the next number of its table.

use crate::models::{Group, GroupView, Member, NewGroup, NewMember, NewSanta, NewUser, Role, Santa, User, UserView};
use crate::tables::{
    group_numbers, groups_keyed, highest, lemma_filter_groups_keyed, lemma_filter_members_keyed,
    lemma_filter_santas_keyed, lemma_highest_bounds, lemma_lookup_none, lemma_lookup_only,
    lemma_try_santas_refused, member_numbers, members_keyed, santa_numbers, santas_keyed,
    user_numbers, users_keyed, StorageError, Tables,
};
use vstd::prelude::*;

verus! {

/// The users of a table as contracts see them.
pub open spec fn user_views(users: Seq<User>) -> Seq<UserView> {
    Seq::new(users.len(), |i: int| users[i]@)
}

/// The groups of a table as contracts see them.
pub open spec fn group_views(groups: Seq<Group>) -> Seq<GroupView> {
    Seq::new(groups.len(), |i: int| groups[i]@)
}

/// The record store, held in memory.
pub struct Store {
    users: Vec<User>,
    groups: Vec<Group>,
    members: Vec<Member>,
    santas: Vec<Santa>,
    last_user: i32,
    last_group: i32,
    last_member: i32,
    last_santa: i32,
}

impl View for Store {
    type V = Tables;

    closed spec fn view(&self) -> Tables {
        Tables {
            users: user_views(self.users@),
            groups: group_views(self.groups@),
            members: self.members@,
            santas: self.santas@,
            last_user: self.last_user,
            last_group: self.last_group,
            last_member: self.last_member,
            last_santa: self.last_santa,
        }
    }
}

impl Store {
    /// The store keeps the keys of its tables.
    pub open spec fn wf(&self) -> bool {
        self@.valid()
    }

    /// A store with no rows.
    pub fn new() -> (store: Store)
        ensures
            store.wf(),
            store@ == Tables::empty(),
    {
        let store = Store {
            users: Vec::new(),
            groups: Vec::new(),
            members: Vec::new(),
            santas: Vec::new(),
            last_user: 0,
            last_group: 0,
            last_member: 0,
            last_santa: 0,
        };
        proof {
            assert(store@.users =~= Seq::<UserView>::empty());
            assert(store@.groups =~= Seq::<GroupView>::empty());
        }
        store
    }

    /// The store that holds those rows, where they keep the keys of their tables.
    pub fn from_rows(users: Vec<User>, groups: Vec<Group>, members: Vec<Member>, santas: Vec<Santa>) -> (loaded:
        Option<Store>)
        ensures
            match loaded {
                Some(store) => {
                    &&& store.wf()
                    &&& store@ == Tables::loaded(
                        user_views(users@),
                        group_views(groups@),
                        members@,
                        santas@,
                    )
                    &&& Tables::keyed(user_views(users@), group_views(groups@), members@, santas@)
                },
                None => !Tables::keyed(user_views(users@), group_views(groups@), members@, santas@),
            },
    {
        if !users_are_keyed(&users) || !groups_are_keyed(&groups) || !members_are_keyed(&members)
            || !santas_are_keyed(&santas) {
            return None;
        }
        let last_user = highest_user(&users);
        let last_group = highest_group(&groups);
        let last_member = highest_member(&members);
        let last_santa = highest_santa(&santas);
        proof {
            lemma_highest_bounds(user_numbers(user_views(users@)));
            lemma_highest_bounds(group_numbers(group_views(groups@)));
            lemma_highest_bounds(member_numbers(members@));
            lemma_highest_bounds(santa_numbers(santas@));
            assert forall|i: int| 0 <= i < users@.len() implies (#[trigger] user_views(users@)[i]).id
                <= last_user by {
                assert(user_numbers(user_views(users@))[i] <= last_user);
            }
            assert forall|i: int| 0 <= i < groups@.len() implies (#[trigger] group_views(groups@)[i]).id
                <= last_group by {
                assert(group_numbers(group_views(groups@))[i] <= last_group);
            }
            assert forall|i: int| 0 <= i < members@.len() implies (#[trigger] members@[i]).id
                <= last_member by {
                assert(member_numbers(members@)[i] <= last_member);
            }
            assert forall|i: int| 0 <= i < santas@.len() implies (#[trigger] santas@[i]).id
                <= last_santa by {
                assert(santa_numbers(santas@)[i] <= last_santa);
            }
        }
        Some(Store { users, groups, members, santas, last_user, last_group, last_member, last_santa })
    }

    /// The users, in the order of the table.
    pub fn users(&self) -> (rows: &Vec<User>)
        ensures
            user_views(rows@) == self@.users,
    {
        &self.users
    }

    /// The groups, in the order of the table.
    pub fn groups(&self) -> (rows: &Vec<Group>)
        ensures
            group_views(rows@) == self@.groups,
    {
        &self.groups
    }

    /// The memberships, in the order of the table.
    pub fn members(&self) -> (rows: &Vec<Member>)
        ensures
            rows@ == self@.members,
    {
        &self.members
    }

    /// The pairings, in the order of the table.
    pub fn santas(&self) -> (rows: &Vec<Santa>)
        ensures
            rows@ == self@.santas,
    {
        &self.santas
    }

    /// The user of that name.
    pub fn get_user(&self, username: &str) -> (found: Result<User, StorageError>)
        requires
            self.wf(),
        ensures
            match found {
                Ok(user) => self@.user_named(username@) == Some(user@),
                Err(e) => e == StorageError::NotFound && self@.user_named(username@) is None,
            },
    {
        let wanted = username.to_owned();
        let mut i: usize = 0;
        while i < self.users.len()
            invariant
                self.wf(),
                wanted@ == username@,
                i <= self.users.len(),
                forall|j: int| 0 <= j < i ==> (#[trigger] self@.users[j]).name != username@,
            decreases self.users.len() - i,
        {
            if self.users[i].name == wanted {
                proof {
                    let rows = self@.users;
                    assert(rows[i as int].name == username@);
                    assert forall|j: int| 0 <= j < rows.len() && j != i implies (#[trigger] rows[j]).name
                        != username@ by {
                        assert(rows[j].name != rows[i as int].name);
                    }
                    lemma_lookup_only(rows, |u: UserView| u.name == username@, i as int);
                }
                return Ok(self.users[i].clone());
            }
            i += 1;
        }
        Err(StorageError::NotFound)
    }

    /// The user that a membership belongs to.
    pub fn get_user_from_member(&self, member: &Member) -> (found: Result<User, StorageError>)
        requires
            self.wf(),
        ensures
            match found {
                Ok(user) => self@.user_numbered(member.user_id) == Some(user@),
                Err(e) => e == StorageError::NotFound && self@.user_numbered(member.user_id) is None,
            },
    {
        let mut i: usize = 0;
        while i < self.users.len()
            invariant
                self.wf(),
                i <= self.users.len(),
                forall|j: int| 0 <= j < i ==> (#[trigger] self@.users[j]).id != member.user_id,
            decreases self.users.len() - i,
        {
            if self.users[i].id == member.user_id {
                proof {
                    let rows = self@.users;
                    assert(rows[i as int].id == member.user_id);
                    assert forall|j: int| 0 <= j < rows.len() && j != i implies (#[trigger] rows[j]).id
                        != member.user_id by {
                        assert(rows[j].id != rows[i as int].id);
                    }
                    lemma_lookup_only(rows, |u: UserView| u.id == member.user_id, i as int);
                }
                return Ok(self.users[i].clone());
            }
            i += 1;
        }
        Err(StorageError::NotFound)
    }

    /// Stores a user of that name under the next number, unless the name is taken.
    pub fn create_user(&mut self, username: &str) -> (done: Result<(), StorageError>)
        requires
            old(self).wf(),
        ensures
            final(self).wf(),
            match done {
                Ok(_) => {
                    &&& old(self)@.user_named(username@) is None
                    &&& old(self)@.last_user < i32::MAX
                    &&& final(self)@ == old(self)@.with_user(username@)
                },
                Err(e) => {
                    &&& final(self)@ == old(self)@
                    &&& if old(self)@.user_named(username@) is Some {
                        e == StorageError::DuplicateKey
                    } else {
                        e == StorageError::Exhausted && old(self)@.last_user == i32::MAX
                    }
                },
            },
    {
        let new_user = NewUser { name: username };
        match self.get_user(new_user.name) {
            Ok(_) => { return Err(StorageError::DuplicateKey); },
            Err(_) => {},
        }
        if self.last_user == i32::MAX {
            return Err(StorageError::Exhausted);
        }
        let id: i32 = self.last_user + 1;
        self.users.push(User { id, name: new_user.name.to_owned() });
        self.last_user = id;
        proof {
            let before = old(self)@.users;
            let after = self@.users;
            assert(after =~= before.push(UserView { id, name: username@ }));
            assert(self@.groups =~= old(self)@.groups);
            assert forall|j: int| 0 <= j < before.len() implies (#[trigger] before[j]).name
                != username@ by {
                let wanted = |u: UserView| u.name == username@;
                assert(!wanted(before[j]));
            }
            assert forall|j: int| 0 <= j < before.len() implies after[j] == before[j] by {}
            assert(users_keyed(after, id));
        }
        Ok(())
    }

    /// The group of that name.
    pub fn get_group(&self, group_name: &str) -> (found: Result<Group, StorageError>)
        requires
            self.wf(),
        ensures
            match found {
                Ok(group) => self@.group_named(group_name@) == Some(group@),
                Err(e) => e == StorageError::NotFound && self@.group_named(group_name@) is None,
            },
    {
        let wanted = group_name.to_owned();
        let mut i: usize = 0;
        while i < self.groups.len()
            invariant
                self.wf(),
                wanted@ == group_name@,
                i <= self.groups.len(),
                forall|j: int| 0 <= j < i ==> (#[trigger] self@.groups[j]).gname != group_name@,
            decreases self.groups.len() - i,
        {
            if self.groups[i].gname == wanted {
                proof {
                    let rows = self@.groups;
                    assert(rows[i as int].gname == group_name@);
                    assert forall|j: int| 0 <= j < rows.len() && j != i implies (#[trigger] rows[j]).gname
                        != group_name@ by {
                        assert(rows[j].gname != rows[i as int].gname);
                    }
                    lemma_lookup_only(rows, |g: GroupView| g.gname == group_name@, i as int);
                }
                return Ok(self.groups[i].clone());
            }
            i += 1;
        }
        Err(StorageError::NotFound)
    }

    /// Where the group of that number stands in its table.
    fn group_position(&self, id: i32) -> (found: Option<usize>)
        requires
            self.wf(),
        ensures
            match found {
                Some(k) => {
                    &&& k < self@.groups.len()
                    &&& self@.groups[k as int].id == id
                    &&& self@.group_numbered(id) == Some(self@.groups[k as int])
                },
                None => {
                    &&& forall|j: int| 0 <= j < self@.groups.len() ==> (#[trigger] self@.groups[j]).id != id
                    &&& self@.group_numbered(id) is None
                },
            },
    {
        let mut i: usize = 0;
        while i < self.groups.len()
            invariant
                self.wf(),
                i <= self.groups.len(),
                forall|j: int| 0 <= j < i ==> (#[trigger] self@.groups[j]).id != id,
            decreases self.groups.len() - i,
        {
            if self.groups[i].id == id {
                proof {
                    let rows = self@.groups;
                    assert(rows[i as int].id == id);
                    assert forall|j: int| 0 <= j < rows.len() && j != i implies (#[trigger] rows[j]).id
                        != id by {
                        assert(rows[j].id != rows[i as int].id);
                    }
                    lemma_lookup_only(rows, |g: GroupView| g.id == id, i as int);
                }
                return Some(i);
            }
            i += 1;
        }
        None
    }

    /// Whether a group has that number.
    pub fn has_group(&self, id: i32) -> (found: bool)
        requires
            self.wf(),
        ensures
            found == (self@.group_numbered(id) is Some),
    {
        self.group_position(id).is_some()
    }

    /// Stores an open group of that name under the next number, unless the name is taken.
    pub fn create_group(&mut self, group_name: &str) -> (done: Result<(), StorageError>)
        requires
            old(self).wf(),
        ensures
            final(self).wf(),
            match done {
                Ok(_) => {
                    &&& old(self)@.group_named(group_name@) is None
                    &&& old(self)@.last_group < i32::MAX
                    &&& final(self)@ == old(self)@.with_group(group_name@)
                },
                Err(e) => {
                    &&& final(self)@ == old(self)@
                    &&& if old(self)@.group_named(group_name@) is Some {
                        e == StorageError::DuplicateKey
                    } else {
                        e == StorageError::Exhausted && old(self)@.last_group == i32::MAX
                    }
                },
            },
    {
        let new_group = NewGroup { gname: group_name };
        match self.get_group(new_group.gname) {
            Ok(_) => { return Err(StorageError::DuplicateKey); },
            Err(_) => {},
        }
        if self.last_group == i32::MAX {
            return Err(StorageError::Exhausted);
        }
        let id: i32 = self.last_group + 1;
        self.groups.push(Group { id, gname: new_group.gname.to_owned(), is_close: false });
        self.last_group = id;
        proof {
            let before = old(self)@.groups;
            let after = self@.groups;
            assert(after =~= before.push(GroupView { id, gname: group_name@, is_close: false }));
            assert(self@.users =~= old(self)@.users);
            assert forall|j: int| 0 <= j < before.len() implies (#[trigger] before[j]).gname
                != group_name@ by {
                let wanted = |g: GroupView| g.gname == group_name@;
                assert(!wanted(before[j]));
            }
            assert forall|j: int| 0 <= j < before.len() implies after[j] == before[j] by {}
            assert(groups_keyed(after, id));
        }
        Ok(())
    }

    /// Stores an open group of that name and the membership of `admin` in it as
    /// an admin, or neither of them.
    pub fn create_group_with_admin(&mut self, group_name: &str, admin: &User) -> (done: Result<
        (),
        StorageError,
    >)
        requires
            old(self).wf(),
        ensures
            final(self).wf(),
            match old(self)@.try_group_with_admin(group_name@, admin.id) {
                Ok(tables) => done is Ok && final(self)@ == tables,
                Err(e) => done == Err::<(), StorageError>(e) && final(self)@ == old(self)@,
            },
    {
        match self.create_group(group_name) {
            Ok(_) => {},
            Err(e) => { return Err(e); },
        }
        let id: i32 = self.last_group;
        let group = Group { id, gname: group_name.to_owned(), is_close: false };
        let ghost with_group = self@;
        match self.create_member(admin, &group, Role::Admin) {
            Ok(_) => Ok(()),
            Err(e) => {
                let ghost rows = self.groups@;
                assert(group_views(rows) == with_group.groups);
                self.groups.pop();
                self.last_group = id - 1;
                proof {
                    assert(self.groups@ == rows.drop_last());
                    assert forall|j: int| 0 <= j < self.groups@.len() implies #[trigger] self@.groups[j]
                        == old(self)@.groups[j] by {
                        assert(self@.groups[j] == rows[j]@);
                        assert(with_group.groups[j] == rows[j]@);
                    }
                    assert(self@.groups =~= old(self)@.groups);
                    assert(self@.users =~= old(self)@.users);
                }
                Err(e)
            },
        }
    }

    /// The groups that are not closed, in the order of the table.
    pub fn get_open_groups(&self) -> (open: Vec<Group>)
        requires
            self.wf(),
        ensures
            group_views(open@) == self@.open_groups(),
    {
        let mut open: Vec<Group> = Vec::new();
        let mut i: usize = 0;
        proof {
            reveal(Seq::filter);
            assert(self@.groups.take(0).filter(|g: GroupView| !g.is_close) =~= group_views(open@));
        }
        while i < self.groups.len()
            invariant
                i <= self.groups.len(),
                group_views(open@) == self@.groups.take(i as int).filter(|g: GroupView| !g.is_close),
            decreases self.groups.len() - i,
        {
            proof {
                self@.groups.lemma_take_succ_push(i as int);
                self@.groups.take(i as int).lemma_filter_push(
                    self@.groups[i as int],
                    |g: GroupView| !g.is_close,
                );
            }
            if !self.groups[i].is_close {
                open.push(self.groups[i].clone());
                proof {
                    assert(group_views(open@) =~= self@.groups.take(i as int).filter(
                        |g: GroupView| !g.is_close,
                    ).push(self@.groups[i as int]));
                }
            }
            i += 1;
        }
        proof {
            self@.groups.lemma_take_len();
        }
        open
    }

    /// Marks the group with the number of `group` closed or open, as `group` is.
    pub fn update_group(&mut self, group: &Group) -> (done: Result<(), StorageError>)
        requires
            old(self).wf(),
        ensures
            final(self).wf(),
            match done {
                Ok(_) => {
                    &&& old(self)@.group_numbered(group.id) is Some
                    &&& final(self)@ == old(self)@.with_group_state(group.id, group.is_close)
                },
                Err(e) => {
                    &&& e == StorageError::NotFound
                    &&& old(self)@.group_numbered(group.id) is None
                    &&& final(self)@ == old(self)@
                },
            },
    {
        match self.group_position(group.id) {
            None => Err(StorageError::NotFound),
            Some(k) => {
                let changed = Group {
                    id: self.groups[k].id,
                    gname: self.groups[k].gname.clone(),
                    is_close: group.is_close,
                };
                self.groups.set(k, changed);
                proof {
                    let before = old(self)@.groups;
                    let after = self@.groups;
                    let id = group.id;
                    let is_close = group.is_close;
                    assert(after =~= before.update(
                        k as int,
                        GroupView { is_close, ..before[k as int] },
                    ));
                    assert(after =~= old(self)@.with_group_state(id, is_close).groups);
                    assert(self@.users =~= old(self)@.users);
                    assert(groups_keyed(after, self.last_group));
                }
                Ok(())
            },
        }
    }

    /// Stores the membership of `user` in `group` under the next number, unless
    /// the user is a member already.
    pub fn create_member(&mut self, user: &User, group: &Group, role: Role) -> (done: Result<
        (),
        StorageError,
    >)
        requires
            old(self).wf(),
        ensures
            final(self).wf(),
            match done {
                Ok(_) => {
                    &&& old(self)@.membership(user.id, group.id) is None
                    &&& old(self)@.last_member < i32::MAX
                    &&& final(self)@ == old(self)@.with_member(
                        NewMember { user_id: user.id, group_id: group.id, urole: role },
                    )
                },
                Err(e) => {
                    &&& final(self)@ == old(self)@
                    &&& if old(self)@.membership(user.id, group.id) is Some {
                        e == StorageError::DuplicateKey
                    } else {
                        e == StorageError::Exhausted && old(self)@.last_member == i32::MAX
                    }
                },
            },
    {
        let new_group_member = NewMember { user_id: user.id, group_id: group.id, urole: role };
        match self.get_member(user, group) {
            Ok(_) => { return Err(StorageError::DuplicateKey); },
            Err(_) => {},
        }
        if self.last_member == i32::MAX {
            return Err(StorageError::Exhausted);
        }
        let id: i32 = self.last_member + 1;
        self.members.push(
            Member {
                id,
                user_id: new_group_member.user_id,
                group_id: new_group_member.group_id,
                urole: new_group_member.urole,
            },
        );
        self.last_member = id;
        proof {
            let before = old(self)@.members;
            let after = self@.members;
            assert(self@.users =~= old(self)@.users);
            assert(self@.groups =~= old(self)@.groups);
            assert forall|j: int| 0 <= j < before.len() implies !((#[trigger] before[j]).user_id
                == user.id && before[j].group_id == group.id) by {
                let wanted = |m: Member| m.user_id == user.id && m.group_id == group.id;
                assert(!wanted(before[j]));
            }
            assert forall|j: int| 0 <= j < before.len() implies after[j] == before[j] by {}
            assert(members_keyed(after, id));
        }
        Ok(())
    }

    /// The membership of `user` in `group`.
    pub fn get_member(&self, user: &User, group: &Group) -> (found: Result<Member, StorageError>)
        requires
            self.wf(),
        ensures
            match found {
                Ok(member) => self@.membership(user.id, group.id) == Some(member),
                Err(e) => e == StorageError::NotFound && self@.membership(user.id, group.id) is None,
            },
    {
        let mut i: usize = 0;
        while i < self.members.len()
            invariant
                self.wf(),
                i <= self.members.len(),
                forall|j: int|
                    0 <= j < i ==> !((#[trigger] self@.members[j]).user_id == user.id
                        && self@.members[j].group_id == group.id),
            decreases self.members.len() - i,
        {
            if self.members[i].user_id == user.id && self.members[i].group_id == group.id {
                proof {
                    let rows = self@.members;
                    assert forall|j: int| 0 <= j < rows.len() && j != i implies !((
                    #[trigger] rows[j]).user_id == user.id && rows[j].group_id == group.id) by {
                        assert(!(rows[j].user_id == rows[i as int].user_id && rows[j].group_id
                            == rows[i as int].group_id));
                    }
                    lemma_lookup_only(
                        rows,
                        |m: Member| m.user_id == user.id && m.group_id == group.id,
                        i as int,
                    );
                }
                return Ok(self.members[i]);
            }
            i += 1;
        }
        Err(StorageError::NotFound)
    }

    /// The memberships of `group`, in the order of the table.
    pub fn get_members(&self, group: &Group) -> (members: Vec<Member>)
        requires
            self.wf(),
        ensures
            members@ == self@.members_of(group.id),
    {
        let mut members: Vec<Member> = Vec::new();
        let mut i: usize = 0;
        proof {
            reveal(Seq::filter);
            assert(self@.members.take(0).filter(|m: Member| m.group_id == group.id) =~= members@);
        }
        while i < self.members.len()
            invariant
                i <= self.members.len(),
                members@ == self@.members.take(i as int).filter(|m: Member| m.group_id == group.id),
            decreases self.members.len() - i,
        {
            proof {
                self@.members.lemma_take_succ_push(i as int);
                self@.members.take(i as int).lemma_filter_push(
                    self@.members[i as int],
                    |m: Member| m.group_id == group.id,
                );
            }
            if self.members[i].group_id == group.id {
                members.push(self.members[i]);
            }
            i += 1;
        }
        proof {
            self@.members.lemma_take_len();
        }
        members
    }

    /// Gives the membership with the number of `member` the role of `member`.
    pub fn update_member(&mut self, member: Member) -> (done: Result<(), StorageError>)
        requires
            old(self).wf(),
        ensures
            final(self).wf(),
            match done {
                Ok(_) => {
                    &&& old(self)@.member_numbered(member.id) is Some
                    &&& final(self)@ == old(self)@.with_role(member.id, member.urole)
                },
                Err(e) => {
                    &&& e == StorageError::NotFound
                    &&& old(self)@.member_numbered(member.id) is None
                    &&& final(self)@ == old(self)@
                },
            },
    {
        let mut i: usize = 0;
        while i < self.members.len()
            invariant
                self.wf(),
                *self == *old(self),
                i <= self.members.len(),
                forall|j: int| 0 <= j < i ==> (#[trigger] self@.members[j]).id != member.id,
            decreases self.members.len() - i,
        {
            if self.members[i].id == member.id {
                let changed = self.members[i].set_role(member.urole);
                self.members.set(i, changed);
                proof {
                    let before = old(self)@.members;
                    let after = self@.members;
                    assert forall|j: int| 0 <= j < before.len() && j != i implies (
                    #[trigger] before[j]).id != member.id by {
                        assert(before[j].id != before[i as int].id);
                    }
                    lemma_lookup_only(before, |m: Member| m.id == member.id, i as int);
                    assert(after =~= old(self)@.with_role(member.id, member.urole).members);
                    assert(self@.users =~= old(self)@.users);
                    assert(self@.groups =~= old(self)@.groups);
                    assert(members_keyed(after, self.last_member));
                }
                return Ok(());
            }
            i += 1;
        }
        proof {
            lemma_lookup_none(self@.members, |m: Member| m.id == member.id);
        }
        Err(StorageError::NotFound)
    }

    /// How many members of `group` hold the admin role.
    pub fn count_admins(&self, group: &Group) -> (count: usize)
        requires
            self.wf(),
        ensures
            count == self@.admins_of(group.id).len(),
    {
        let mut count: usize = 0;
        let mut i: usize = 0;
        proof {
            reveal(Seq::filter);
            assert(self@.members.take(0).filter(
                |m: Member| m.group_id == group.id && m.urole == Role::Admin,
            ).len() == 0);
        }
        while i < self.members.len()
            invariant
                i <= self.members.len(),
                count <= i,
                count == self@.members.take(i as int).filter(
                    |m: Member| m.group_id == group.id && m.urole == Role::Admin,
                ).len(),
            decreases self.members.len() - i,
        {
            proof {
                self@.members.lemma_take_succ_push(i as int);
                self@.members.take(i as int).lemma_filter_push(
                    self@.members[i as int],
                    |m: Member| m.group_id == group.id && m.urole == Role::Admin,
                );
            }
            if self.members[i].group_id == group.id && self.members[i].urole == Role::Admin {
                count += 1;
            }
            i += 1;
        }
        proof {
            self@.members.lemma_take_len();
        }
        count
    }

    /// Stores the pairing of `santa` with `recipient` in `group` under the next
    /// number, unless the santa has a pairing in the group already.
    pub fn set_santa(&mut self, group: &Group, santa: &User, recipient: &User) -> (done: Result<
        (),
        StorageError,
    >)
        requires
            old(self).wf(),
        ensures
            final(self).wf(),
            match old(self)@.try_santa(
                NewSanta { group_id: group.id, santa_id: santa.id, recipient_id: recipient.id },
            ) {
                Ok(tables) => done is Ok && final(self)@ == tables,
                Err(e) => done == Err::<(), StorageError>(e) && final(self)@ == old(self)@,
            },
    {
        let new_santa = NewSanta { group_id: group.id, santa_id: santa.id, recipient_id: recipient.id };
        self.insert_santa(new_santa)
    }

    /// Stores one pairing under the next number, unless its santa has a pairing
    /// in its group already.
    fn insert_santa(&mut self, new_santa: NewSanta) -> (done: Result<(), StorageError>)
        requires
            old(self).wf(),
        ensures
            final(self).wf(),
            match old(self)@.try_santa(new_santa) {
                Ok(tables) => done is Ok && final(self)@ == tables,
                Err(e) => done == Err::<(), StorageError>(e) && final(self)@ == old(self)@,
            },
            final(self).users == old(self).users,
            final(self).groups == old(self).groups,
            final(self).members == old(self).members,
    {
        if self.santa_position(new_santa.group_id, new_santa.santa_id).is_some() {
            return Err(StorageError::DuplicateKey);
        }
        if self.last_santa == i32::MAX {
            return Err(StorageError::Exhausted);
        }
        let id: i32 = self.last_santa + 1;
        self.santas.push(
            Santa {
                id,
                group_id: new_santa.group_id,
                santa_id: new_santa.santa_id,
                recipient_id: new_santa.recipient_id,
            },
        );
        self.last_santa = id;
        proof {
            let before = old(self)@.santas;
            let after = self@.santas;
            assert forall|j: int| 0 <= j < before.len() implies after[j] == before[j] by {}
            assert(santas_keyed(after, id));
        }
        Ok(())
    }

    /// Where the pairing of that santa in that group stands in its table.
    fn santa_position(&self, group_id: i32, santa_id: i32) -> (found: Option<usize>)
        requires
            self.wf(),
        ensures
            match found {
                Some(k) => {
                    &&& k < self@.santas.len()
                    &&& self@.pairing(group_id, santa_id) == Some(self@.santas[k as int])
                },
                None => {
                    &&& forall|j: int|
                        0 <= j < self@.santas.len() ==> !((#[trigger] self@.santas[j]).group_id
                            == group_id && self@.santas[j].santa_id == santa_id)
                    &&& self@.pairing(group_id, santa_id) is None
                },
            },
    {
        let mut i: usize = 0;
        while i < self.santas.len()
            invariant
                self.wf(),
                i <= self.santas.len(),
                forall|j: int|
                    0 <= j < i ==> !((#[trigger] self@.santas[j]).group_id == group_id
                        && self@.santas[j].santa_id == santa_id),
            decreases self.santas.len() - i,
        {
            if self.santas[i].group_id == group_id && self.santas[i].santa_id == santa_id {
                proof {
                    let rows = self@.santas;
                    assert forall|j: int| 0 <= j < rows.len() && j != i implies !((
                    #[trigger] rows[j]).group_id == group_id && rows[j].santa_id == santa_id) by {
                        assert(!(rows[j].group_id == rows[i as int].group_id && rows[j].santa_id
                            == rows[i as int].santa_id));
                    }
                    lemma_lookup_only(
                        rows,
                        |s: Santa| s.group_id == group_id && s.santa_id == santa_id,
                        i as int,
                    );
                }
                return Some(i);
            }
            i += 1;
        }
        None
    }

    /// Stores all the pairings, one after the other, or none of them: where one
    /// is refused, those stored before it are taken back.
    pub fn set_santas(&mut self, pairs: &Vec<NewSanta>) -> (done: Result<(), StorageError>)
        requires
            old(self).wf(),
        ensures
            final(self).wf(),
            match old(self)@.try_santas(pairs@) {
                Ok(tables) => done is Ok && final(self)@ == tables,
                Err(e) => done == Err::<(), StorageError>(e) && final(self)@ == old(self)@,
            },
    {
        let kept: usize = self.santas.len();
        let last: i32 = self.last_santa;
        let mut k: usize = 0;
        proof {
            assert(pairs@.take(0) =~= Seq::<NewSanta>::empty());
        }
        while k < pairs.len()
            invariant
                self.wf(),
                old(self).wf(),
                k <= pairs.len(),
                kept == old(self).santas.len(),
                last == old(self).last_santa,
                old(self)@.try_santas(pairs@.take(k as int)) == Ok::<Tables, StorageError>(self@),
                self.users == old(self).users,
                self.groups == old(self).groups,
                self.members == old(self).members,
                self.last_group == old(self).last_group,
                self.last_user == old(self).last_user,
                self.last_member == old(self).last_member,
                kept <= self.santas.len(),
                self.santas@.subrange(0, kept as int) == old(self).santas@,
            decreases pairs.len() - k,
        {
            proof {
                assert(pairs@.take(k + 1).drop_last() =~= pairs@.take(k as int));
            }
            match self.insert_santa(pairs[k]) {
                Ok(_) => {
                    proof {
                        assert(self.santas@.subrange(0, kept as int) =~= old(self).santas@);
                    }
                },
                Err(e) => {
                    self.santas.truncate(kept);
                    self.last_santa = last;
                    proof {
                        lemma_try_santas_refused(old(self)@, pairs@, k + 1);
                        assert(self.santas@ =~= old(self).santas@);
                    }
                    return Err(e);
                },
            }
            k += 1;
        }
        proof {
            assert(pairs@.take(k as int) =~= pairs@);
        }
        Ok(())
    }

    /// The user that `santa` gives to in `group`.
    pub fn get_santa_recipient(&self, group: &Group, santa: &User) -> (found: Result<
        User,
        StorageError,
    >)
        requires
            self.wf(),
        ensures
            match found {
                Ok(user) => self@.recipient(group.id, santa.id) == Some(user@),
                Err(e) => e == StorageError::NotFound && self@.recipient(group.id, santa.id) is None,
            },
    {
        match self.santa_position(group.id, santa.id) {
            None => Err(StorageError::NotFound),
            Some(k) => {
                let recipient_id = self.santas[k].recipient_id;
                let mut i: usize = 0;
                while i < self.users.len()
                    invariant
                        self.wf(),
                        i <= self.users.len(),
                        k < self@.santas.len(),
                        self@.pairing(group.id, santa.id) == Some(self@.santas[k as int]),
                        recipient_id == self@.santas[k as int].recipient_id,
                        forall|j: int| 0 <= j < i ==> (#[trigger] self@.users[j]).id != recipient_id,
                    decreases self.users.len() - i,
                {
                    if self.users[i].id == recipient_id {
                        proof {
                            let rows = self@.users;
                            assert(rows[i as int].id == recipient_id);
                            assert forall|j: int| 0 <= j < rows.len() && j != i implies (
                            #[trigger] rows[j]).id != recipient_id by {
                                assert(rows[j].id != rows[i as int].id);
                            }
                            lemma_lookup_only(rows, |u: UserView| u.id == recipient_id, i as int);
                        }
                        return Ok(self.users[i].clone());
                    }
                    i += 1;
                }
                proof {
                    lemma_lookup_none(self@.users, |u: UserView| u.id == recipient_id);
                }
                Err(StorageError::NotFound)
            },
        }
    }

    /// Removes the group with the number of `group`, with its memberships and
    /// its pairings. Where there is no such group, nothing changes.
    pub fn delete_group(&mut self, group: Group)
        requires
            old(self).wf(),
        ensures
            final(self).wf(),
            final(self)@ == old(self)@.without_group(group.id),
    {
        let id: i32 = group.id;
        let groups = groups_without(&self.groups, id);
        let members = members_without(&self.members, id);
        let santas = santas_without(&self.santas, id);
        proof {
            lemma_filter_groups_keyed(old(self)@.groups, self.last_group, |g: GroupView| g.id != id);
            lemma_filter_members_keyed(
                old(self)@.members,
                self.last_member,
                |m: Member| m.group_id != id,
            );
            lemma_filter_santas_keyed(old(self)@.santas, self.last_santa, |s: Santa| s.group_id != id);
        }
        self.groups = groups;
        self.members = members;
        self.santas = santas;
        proof {
            assert(self@.users =~= old(self)@.users);
        }
    }
}

/// The groups but the one of that number.
fn groups_without(groups: &Vec<Group>, id: i32) -> (kept: Vec<Group>)
    ensures
        group_views(kept@) == group_views(groups@).filter(|g: GroupView| g.id != id),
{
    let ghost rows = group_views(groups@);
    let mut kept: Vec<Group> = Vec::new();
    let mut i: usize = 0;
    proof {
        reveal(Seq::filter);
        assert(rows.take(0).filter(|g: GroupView| g.id != id) =~= group_views(kept@));
    }
    while i < groups.len()
        invariant
            rows == group_views(groups@),
            i <= groups.len(),
            group_views(kept@) == rows.take(i as int).filter(|g: GroupView| g.id != id),
        decreases groups.len() - i,
    {
        proof {
            rows.lemma_take_succ_push(i as int);
            rows.take(i as int).lemma_filter_push(rows[i as int], |g: GroupView| g.id != id);
        }
        if groups[i].id != id {
            kept.push(groups[i].clone());
            proof {
                assert(group_views(kept@) =~= rows.take(i as int).filter(
                    |g: GroupView| g.id != id,
                ).push(rows[i as int]));
            }
        }
        i += 1;
    }
    proof {
        rows.lemma_take_len();
    }
    kept
}

/// The memberships but those of the group of that number.
fn members_without(members: &Vec<Member>, group_id: i32) -> (kept: Vec<Member>)
    ensures
        kept@ == members@.filter(|m: Member| m.group_id != group_id),
{
    let mut kept: Vec<Member> = Vec::new();
    let mut i: usize = 0;
    proof {
        reveal(Seq::filter);
        assert(members@.take(0).filter(|m: Member| m.group_id != group_id) =~= kept@);
    }
    while i < members.len()
        invariant
            i <= members.len(),
            kept@ == members@.take(i as int).filter(|m: Member| m.group_id != group_id),
        decreases members.len() - i,
    {
        proof {
            members@.lemma_take_succ_push(i as int);
            members@.take(i as int).lemma_filter_push(
                members@[i as int],
                |m: Member| m.group_id != group_id,
            );
        }
        if members[i].group_id != group_id {
            kept.push(members[i]);
        }
        i += 1;
    }
    proof {
        members@.lemma_take_len();
    }
    kept
}

/// The pairings but those of the group of that number.
fn santas_without(santas: &Vec<Santa>, group_id: i32) -> (kept: Vec<Santa>)
    ensures
        kept@ == santas@.filter(|s: Santa| s.group_id != group_id),
{
    let mut kept: Vec<Santa> = Vec::new();
    let mut i: usize = 0;
    proof {
        reveal(Seq::filter);
        assert(santas@.take(0).filter(|s: Santa| s.group_id != group_id) =~= kept@);
    }
    while i < santas.len()
        invariant
            i <= santas.len(),
            kept@ == santas@.take(i as int).filter(|s: Santa| s.group_id != group_id),
        decreases santas.len() - i,
    {
        proof {
            santas@.lemma_take_succ_push(i as int);
            santas@.take(i as int).lemma_filter_push(
                santas@[i as int],
                |s: Santa| s.group_id != group_id,
            );
        }
        if santas[i].group_id != group_id {
            kept.push(santas[i]);
        }
        i += 1;
    }
    proof {
        santas@.lemma_take_len();
    }
    kept
}

/// Whether no two of the rows share a number or a key.
fn users_are_keyed(rows: &Vec<User>) -> (ok: bool)
    ensures
        ok == users_keyed(user_views(rows@), i32::MAX),
{
    let ghost table = user_views(rows@);
    let mut i: usize = 0;
    while i < rows.len()
        invariant
            table == user_views(rows@),
            i <= rows.len(),
            forall|a: int, b: int|
                0 <= a < b < i ==> {
                    &&& (#[trigger] table[a]).id != (#[trigger] table[b]).id
                    &&& table[a].name != table[b].name
                },
        decreases rows.len() - i,
    {
        let mut j: usize = 0;
        while j < i
            invariant
                table == user_views(rows@),
                i < rows.len(),
                j <= i,
                forall|a: int|
                    0 <= a < j ==> {
                        &&& (#[trigger] table[a]).id != table[i as int].id
                        &&& table[a].name != table[i as int].name
                    },
            decreases i - j,
        {
            if rows[j].id == rows[i].id || rows[j].name == rows[i].name {
                proof {
                    let a = j as int;
                    let b = i as int;
                    assert(!(table[a].id != table[b].id && table[a].name != table[b].name));
                }
                return false;
            }
            j += 1;
        }
        i += 1;
    }
    proof {
        assert forall|a: int, b: int|
            0 <= a < table.len() && 0 <= b < table.len() && a != b implies {
            &&& (#[trigger] table[a]).id != (#[trigger] table[b]).id
            &&& table[a].name != table[b].name
        } by {
            if b < a {
                assert(table[b].id != table[a].id);
            }
        }
    }
    true
}

/// Whether no two of the rows share a number or a key.
fn groups_are_keyed(rows: &Vec<Group>) -> (ok: bool)
    ensures
        ok == groups_keyed(group_views(rows@), i32::MAX),
{
    let ghost table = group_views(rows@);
    let mut i: usize = 0;
    while i < rows.len()
        invariant
            table == group_views(rows@),
            i <= rows.len(),
            forall|a: int, b: int|
                0 <= a < b < i ==> {
                    &&& (#[trigger] table[a]).id != (#[trigger] table[b]).id
                    &&& table[a].gname != table[b].gname
                },
        decreases rows.len() - i,
    {
        let mut j: usize = 0;
        while j < i
            invariant
                table == group_views(rows@),
                i < rows.len(),
                j <= i,
                forall|a: int|
                    0 <= a < j ==> {
                        &&& (#[trigger] table[a]).id != table[i as int].id
                        &&& table[a].gname != table[i as int].gname
                    },
            decreases i - j,
        {
            if rows[j].id == rows[i].id || rows[j].gname == rows[i].gname {
                proof {
                    let a = j as int;
                    let b = i as int;
                    assert(!(table[a].id != table[b].id && table[a].gname != table[b].gname));
                }
                return false;
            }
            j += 1;
        }
        i += 1;
    }
    proof {
        assert forall|a: int, b: int|
            0 <= a < table.len() && 0 <= b < table.len() && a != b implies {
            &&& (#[trigger] table[a]).id != (#[trigger] table[b]).id
            &&& table[a].gname != table[b].gname
        } by {
            if b < a {
                assert(table[b].id != table[a].id);
            }
        }
    }
    true
}

/// Whether no two of the rows share a number or a key.
fn members_are_keyed(rows: &Vec<Member>) -> (ok: bool)
    ensures
        ok == members_keyed(rows@, i32::MAX),
{
    let ghost table = rows@;
    let mut i: usize = 0;
    while i < rows.len()
        invariant
            table == rows@,
            i <= rows.len(),
            forall|a: int, b: int|
                0 <= a < b < i ==> {
                    &&& (#[trigger] table[a]).id != (#[trigger] table[b]).id
                    &&& !(table[a].user_id == table[b].user_id && table[a].group_id == table[b].group_id)
                },
        decreases rows.len() - i,
    {
        let mut j: usize = 0;
        while j < i
            invariant
                table == rows@,
                i < rows.len(),
                j <= i,
                forall|a: int|
                    0 <= a < j ==> {
                        &&& (#[trigger] table[a]).id != table[i as int].id
                        &&& !(table[a].user_id == table[i as int].user_id && table[a].group_id == table[i as int].group_id)
                    },
            decreases i - j,
        {
            if rows[j].id == rows[i].id || (rows[j].user_id == rows[i].user_id && rows[j].group_id == rows[i].group_id) {
                proof {
                    let a = j as int;
                    let b = i as int;
                    assert(!(table[a].id != table[b].id && !(table[a].user_id == table[b].user_id && table[a].group_id == table[b].group_id)));
                }
                return false;
            }
            j += 1;
        }
        i += 1;
    }
    proof {
        assert forall|a: int, b: int|
            0 <= a < table.len() && 0 <= b < table.len() && a != b implies {
            &&& (#[trigger] table[a]).id != (#[trigger] table[b]).id
            &&& !(table[a].user_id == table[b].user_id && table[a].group_id == table[b].group_id)
        } by {
            if b < a {
                assert(table[b].id != table[a].id);
            }
        }
    }
    true
}

/// Whether no two of the rows share a number or a key.
fn santas_are_keyed(rows: &Vec<Santa>) -> (ok: bool)
    ensures
        ok == santas_keyed(rows@, i32::MAX),
{
    let ghost table = rows@;
    let mut i: usize = 0;
    while i < rows.len()
        invariant
            table == rows@,
            i <= rows.len(),
            forall|a: int, b: int|
                0 <= a < b < i ==> {
                    &&& (#[trigger] table[a]).id != (#[trigger] table[b]).id
                    &&& !(table[a].group_id == table[b].group_id && table[a].santa_id == table[b].santa_id)
                },
        decreases rows.len() - i,
    {
        let mut j: usize = 0;
        while j < i
            invariant
                table == rows@,
                i < rows.len(),
                j <= i,
                forall|a: int|
                    0 <= a < j ==> {
                        &&& (#[trigger] table[a]).id != table[i as int].id
                        &&& !(table[a].group_id == table[i as int].group_id && table[a].santa_id == table[i as int].santa_id)
                    },
            decreases i - j,
        {
            if rows[j].id == rows[i].id || (rows[j].group_id == rows[i].group_id && rows[j].santa_id == rows[i].santa_id) {
                proof {
                    let a = j as int;
                    let b = i as int;
                    assert(!(table[a].id != table[b].id && !(table[a].group_id == table[b].group_id && table[a].santa_id == table[b].santa_id)));
                }
                return false;
            }
            j += 1;
        }
        i += 1;
    }
    proof {
        assert forall|a: int, b: int|
            0 <= a < table.len() && 0 <= b < table.len() && a != b implies {
            &&& (#[trigger] table[a]).id != (#[trigger] table[b]).id
            &&& !(table[a].group_id == table[b].group_id && table[a].santa_id == table[b].santa_id)
        } by {
            if b < a {
                assert(table[b].id != table[a].id);
            }
        }
    }
    true
}

/// The highest number of the rows, and zero where all are lower or there is none.
fn highest_user(rows: &Vec<User>) -> (top: i32)
    ensures
        top == highest(user_numbers(user_views(rows@))),
{
    let ghost numbers = user_numbers(user_views(rows@));
    let mut top: i32 = 0;
    let mut i: usize = 0;
    proof {
        assert(numbers.take(0) =~= Seq::<i32>::empty());
    }
    while i < rows.len()
        invariant
            numbers == user_numbers(user_views(rows@)),
            i <= rows.len(),
            top == highest(numbers.take(i as int)),
        decreases rows.len() - i,
    {
        proof {
            assert(numbers.take(i + 1).drop_last() =~= numbers.take(i as int));
            assert(numbers.take(i + 1).last() == numbers[i as int]);
        }
        if rows[i].id > top {
            top = rows[i].id;
        }
        i += 1;
    }
    proof {
        assert(numbers.take(i as int) =~= numbers);
    }
    top
}

/// The highest number of the rows, and zero where all are lower or there is none.
fn highest_group(rows: &Vec<Group>) -> (top: i32)
    ensures
        top == highest(group_numbers(group_views(rows@))),
{
    let ghost numbers = group_numbers(group_views(rows@));
    let mut top: i32 = 0;
    let mut i: usize = 0;
    proof {
        assert(numbers.take(0) =~= Seq::<i32>::empty());
    }
    while i < rows.len()
        invariant
            numbers == group_numbers(group_views(rows@)),
            i <= rows.len(),
            top == highest(numbers.take(i as int)),
        decreases rows.len() - i,
    {
        proof {
            assert(numbers.take(i + 1).drop_last() =~= numbers.take(i as int));
            assert(numbers.take(i + 1).last() == numbers[i as int]);
        }
        if rows[i].id > top {
            top = rows[i].id;
        }
        i += 1;
    }
    proof {
        assert(numbers.take(i as int) =~= numbers);
    }
    top
}

/// The highest number of the rows, and zero where all are lower or there is none.
fn highest_member(rows: &Vec<Member>) -> (top: i32)
    ensures
        top == highest(member_numbers(rows@)),
{
    let ghost numbers = member_numbers(rows@);
    let mut top: i32 = 0;
    let mut i: usize = 0;
    proof {
        assert(numbers.take(0) =~= Seq::<i32>::empty());
    }
    while i < rows.len()
        invariant
            numbers == member_numbers(rows@),
            i <= rows.len(),
            top == highest(numbers.take(i as int)),
        decreases rows.len() - i,
    {
        proof {
            assert(numbers.take(i + 1).drop_last() =~= numbers.take(i as int));
            assert(numbers.take(i + 1).last() == numbers[i as int]);
        }
        if rows[i].id > top {
            top = rows[i].id;
        }
        i += 1;
    }
    proof {
        assert(numbers.take(i as int) =~= numbers);
    }
    top
}

/// The highest number of the rows, and zero where all are lower or there is none.
fn highest_santa(rows: &Vec<Santa>) -> (top: i32)
    ensures
        top == highest(santa_numbers(rows@)),
{
    let ghost numbers = santa_numbers(rows@);
    let mut top: i32 = 0;
    let mut i: usize = 0;
    proof {
        assert(numbers.take(0) =~= Seq::<i32>::empty());
    }
    while i < rows.len()
        invariant
            numbers == santa_numbers(rows@),
            i <= rows.len(),
            top == highest(numbers.take(i as int)),
        decreases rows.len() - i,
    {
        proof {
            assert(numbers.take(i + 1).drop_last() =~= numbers.take(i as int));
            assert(numbers.take(i + 1).last() == numbers[i as int]);
        }
        if rows[i].id > top {
            top = rows[i].id;
        }
        i += 1;
    }
    proof {
        assert(numbers.take(i as int) =~= numbers);
    }
    top
}

} // verus!
