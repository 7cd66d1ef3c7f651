//! The records of the exchange: users, groups, memberships and santa pairings.

use vstd::prelude::*;

verus! {

/// What a user may do inside one group.
#[derive(Clone, Copy, Debug, PartialEq, Eq, Structural)]
pub enum Role {
    Member,
    Admin,
}

/// A user that is about to be registered.
#[derive(Clone, Copy, Debug)]
pub struct NewUser<'a> {
    pub name: &'a str,
}

/// A registered user.
#[derive(Debug)]
pub struct User {
    pub id: i32,
    pub name: String,
}

/// A user as contracts see it: the name is a sequence of characters.
pub ghost struct UserView {
    pub id: i32,
    pub name: Seq<char>,
}

impl View for User {
    type V = UserView;

    open spec fn view(&self) -> UserView {
        UserView { id: self.id, name: self.name@ }
    }
}

impl Clone for User {
    fn clone(&self) -> (copy: Self)
        ensures
            copy@ == self@,
    {
        User { id: self.id, name: self.name.clone() }
    }
}

/// A group that is about to be created.
#[derive(Clone, Copy, Debug)]
pub struct NewGroup<'a> {
    pub gname: &'a str,
}

/// A group of users that runs one exchange.
#[derive(Debug)]
pub struct Group {
    pub id: i32,
    pub gname: String,
    pub is_close: bool,
}

/// A group as contracts see it.
pub ghost struct GroupView {
    pub id: i32,
    pub gname: Seq<char>,
    pub is_close: bool,
}

impl View for Group {
    type V = GroupView;

    open spec fn view(&self) -> GroupView {
        GroupView { id: self.id, gname: self.gname@, is_close: self.is_close }
    }
}

impl Clone for Group {
    fn clone(&self) -> (copy: Self)
        ensures
            copy@ == self@,
    {
        Group { id: self.id, gname: self.gname.clone(), is_close: self.is_close }
    }
}

impl Group {
    /// The same group, closed. Closing an already closed group changes nothing.
    pub fn close_group(self) -> (closed: Self)
        ensures
            closed@ == (GroupView { is_close: true, ..self@ }),
    {
        Self { id: self.id, gname: self.gname, is_close: true }
    }
}

/// Why a stored value could not be read as one of the library's types.
#[derive(Debug)]
pub struct ConversionError {
    pub msg: String,
    pub status: u16,
}

impl ConversionError {
    /// The error for a stored value that names no variant: status 404 with the given text.
    pub fn not_found(msg: String) -> (error: Self)
        ensures
            error.msg@ == msg@,
            error.status == 404,
    {
        Self { msg, status: 404 }
    }
}

/// A membership that is about to be stored.
#[derive(Clone, Copy, Debug)]
pub struct NewMember {
    pub user_id: i32,
    pub group_id: i32,
    pub urole: Role,
}

/// The membership of one user in one group.
#[derive(Clone, Copy, Debug)]
pub struct Member {
    pub id: i32,
    pub user_id: i32,
    pub group_id: i32,
    pub urole: Role,
}

impl Member {
    /// The same membership with another role.
    pub fn set_role(self, new_role: Role) -> (changed: Self)
        ensures
            changed == (Member { urole: new_role, ..self }),
    {
        Self { id: self.id, user_id: self.user_id, group_id: self.group_id, urole: new_role }
    }
}

/// A pairing that is about to be stored.
#[derive(Clone, Copy, Debug)]
pub struct NewSanta {
    pub group_id: i32,
    pub santa_id: i32,
    pub recipient_id: i32,
}

/// One pairing of a closed group: `santa_id` gives to `recipient_id`.
#[derive(Clone, Copy, Debug)]
pub struct Santa {
    pub id: i32,
    pub group_id: i32,
    pub santa_id: i32,
    pub recipient_id: i32,
}

} // verus!
