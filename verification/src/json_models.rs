//! The bodies of the requests, as the transport hands them over.

use vstd::prelude::*;

verus! {

/// A request that names only the acting user.
#[derive(Debug)]
pub struct Username {
    pub username: String,
}

/// A request of a user about a group.
#[derive(Debug)]
pub struct UserGroupName {
    pub username: String,
    pub group_name: String,
}

/// A request of a user to make another user an admin of a group.
#[derive(Debug)]
pub struct NewAdminUserGroupName {
    pub username: String,
    pub group_name: String,
    pub new_admin: String,
}

} // verus!
