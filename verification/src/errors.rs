//! The failures of the service: a kind that callers branch on, and a text for people.

use vstd::prelude::*;
use vstd::string::*;

verus! {

/// What went wrong, independent of how it is reported to a client.
#[derive(Clone, Copy, Debug, PartialEq, Eq, Structural)]
pub enum ErrorKind {
    /// A user, group or membership that the request names does not exist.
    NotFound,
    /// A name is already taken, or the user is already a member.
    Conflict,
    /// The acting user lacks the role that the operation asks for.
    Forbidden,
    /// The group is in the wrong state for the operation.
    InvalidState,
    /// The operation would break a structural rule of the group.
    PreconditionFailed,
    /// The record store failed.
    Internal,
}

/// A failed operation.
#[derive(Debug)]
pub struct ServiceError {
    pub kind: ErrorKind,
    pub message: String,
}

/// A failure as contracts see it.
pub ghost struct Failure {
    pub kind: ErrorKind,
    pub message: Seq<char>,
}

impl View for ServiceError {
    type V = Failure;

    open spec fn view(&self) -> Failure {
        Failure { kind: self.kind, message: self.message@ }
    }
}

/// The failure of the given kind with the text of a literal.
pub open spec fn failure(kind: ErrorKind, message: &str) -> Failure {
    Failure { kind, message: message@ }
}

/// What an operation without a payload returned, with the error taken by its view.
pub open spec fn outcome(result: Result<(), ServiceError>) -> Result<(), Failure> {
    match result {
        Ok(_) => Ok(()),
        Err(e) => Err(e@),
    }
}

/// The text that ends every report of a taken name.
pub open spec fn same_name_suffix() -> Seq<char> {
    " with the same name already exists"@
}

/// A name of the given sort of thing is already taken.
pub fn error_same_name(msg: String) -> (error: ServiceError)
    ensures
        error@ == (Failure { kind: ErrorKind::Conflict, message: msg@ + same_name_suffix() }),
{
    ServiceError {
        kind: ErrorKind::Conflict,
        message: msg.concat(" with the same name already exists"),
    }
}

/// The record store failed.
pub fn error_internal_server() -> (error: ServiceError)
    ensures
        error@ == failure(ErrorKind::Internal, "Error"),
{
    ServiceError { kind: ErrorKind::Internal, message: "Error".to_owned() }
}

/// Something that the request names does not exist.
pub fn error_bad_request(message: String) -> (error: ServiceError)
    ensures
        error@ == (Failure { kind: ErrorKind::NotFound, message: message@ }),
{
    ServiceError { kind: ErrorKind::NotFound, message }
}

/// The acting user may not do this.
pub fn error_method_not_allowed(message: String) -> (error: ServiceError)
    ensures
        error@ == (Failure { kind: ErrorKind::Forbidden, message: message@ }),
{
    ServiceError { kind: ErrorKind::Forbidden, message }
}

/// The group is not yet, or no longer, in the state that the operation needs.
pub fn error_too_early(message: String) -> (error: ServiceError)
    ensures
        error@ == (Failure { kind: ErrorKind::InvalidState, message: message@ }),
{
    ServiceError { kind: ErrorKind::InvalidState, message }
}

/// The operation would leave the group without what it must always have.
pub fn error_precondition_failed(message: String) -> (error: ServiceError)
    ensures
        error@ == (Failure { kind: ErrorKind::PreconditionFailed, message: message@ }),
{
    ServiceError { kind: ErrorKind::PreconditionFailed, message }
}

} // verus!
