//! The rules that gate the operations: who may do what, and in which state of a group.
//!
//! Each rule is a decision over the role of the acting user and the state of
//! the group, and every operation of the service goes through them.

use crate::errors::{
    error_method_not_allowed, error_precondition_failed, error_too_early, failure, outcome, ErrorKind,
    Failure, ServiceError,
};
use crate::models::Role;
use vstd::prelude::*;

verus! {

/// Managing a group (deleting it, listing its members, naming an admin) is for
/// its admins.
pub open spec fn manage_rule(role: Role) -> Result<(), Failure> {
    if role == Role::Admin {
        Ok(())
    } else {
        Err(failure(ErrorKind::Forbidden, "Not enough right"))
    }
}

/// Nobody joins a closed group.
pub open spec fn join_rule(is_close: bool) -> Result<(), Failure> {
    if is_close {
        Err(failure(ErrorKind::InvalidState, "Group close"))
    } else {
        Ok(())
    }
}

/// An admin closes a group, and only once.
pub open spec fn close_rule(role: Role, is_close: bool) -> Result<(), Failure> {
    if role != Role::Admin {
        Err(failure(ErrorKind::Forbidden, "Not enough rights"))
    } else if is_close {
        Err(failure(ErrorKind::InvalidState, "Group close"))
    } else {
        Ok(())
    }
}

/// An exchange needs two members at least.
pub open spec fn quorum_rule(members: nat) -> Result<(), Failure> {
    if members < 2 {
        Err(failure(ErrorKind::PreconditionFailed, "Not enough count members"))
    } else {
        Ok(())
    }
}

/// An admin gives up the role only while another admin remains.
pub open spec fn demote_rule(role: Role, admins: nat) -> Result<(), Failure> {
    if role != Role::Admin {
        Err(failure(ErrorKind::Forbidden, "Not enough right"))
    } else if admins <= 1 {
        Err(failure(ErrorKind::PreconditionFailed, "Not enough admins"))
    } else {
        Ok(())
    }
}

/// Recipients are told once the group is closed.
pub open spec fn reveal_rule(is_close: bool) -> Result<(), Failure> {
    if is_close {
        Ok(())
    } else {
        Err(failure(ErrorKind::InvalidState, "It's too early to recognize Santa"))
    }
}

/// Decides whether a member of that role may manage the group.
pub fn check_manage(role: Role) -> (verdict: Result<(), ServiceError>)
    ensures
        outcome(verdict) == manage_rule(role),
{
    match role {
        Role::Admin => Ok(()),
        Role::Member => Err(error_method_not_allowed("Not enough right".to_owned())),
    }
}

/// Decides whether a group in that state takes new members.
pub fn check_join(is_close: bool) -> (verdict: Result<(), ServiceError>)
    ensures
        outcome(verdict) == join_rule(is_close),
{
    if is_close {
        Err(error_too_early("Group close".to_owned()))
    } else {
        Ok(())
    }
}

/// Decides whether a member of that role may close a group in that state.
pub fn check_close(role: Role, is_close: bool) -> (verdict: Result<(), ServiceError>)
    ensures
        outcome(verdict) == close_rule(role, is_close),
{
    match role {
        Role::Member => Err(error_method_not_allowed("Not enough rights".to_owned())),
        Role::Admin => {
            if is_close {
                Err(error_too_early("Group close".to_owned()))
            } else {
                Ok(())
            }
        },
    }
}

/// Decides whether that many members are enough for an exchange.
pub fn check_quorum(members: usize) -> (verdict: Result<(), ServiceError>)
    ensures
        outcome(verdict) == quorum_rule(members as nat),
{
    if members < 2 {
        Err(error_precondition_failed("Not enough count members".to_owned()))
    } else {
        Ok(())
    }
}

/// Decides whether a member of that role may give up the admin role in a group
/// with that many admins.
pub fn check_demote(role: Role, admins: usize) -> (verdict: Result<(), ServiceError>)
    ensures
        outcome(verdict) == demote_rule(role, admins as nat),
{
    match role {
        Role::Member => Err(error_method_not_allowed("Not enough right".to_owned())),
        Role::Admin => {
            if admins > 1 {
                Ok(())
            } else {
                Err(error_precondition_failed("Not enough admins".to_owned()))
            }
        },
    }
}

/// Decides whether a group in that state tells recipients.
pub fn check_reveal(is_close: bool) -> (verdict: Result<(), ServiceError>)
    ensures
        outcome(verdict) == reveal_rule(is_close),
{
    if is_close {
        Ok(())
    } else {
        Err(error_too_early("It's too early to recognize Santa".to_owned()))
    }
}

} // verus!
