//! Refusals: a status and a message for the user.
use crate::text::owned;
use vstd::prelude::*;

verus! {

/// Why a request was refused.
#[derive(Clone, Copy, PartialEq, Eq, Debug, Structural)]
pub enum Status {
    /// The request itself is at fault.
    BadRequest,
    /// Nobody is logged in, or the credentials are wrong.
    Unauthorized,
    /// The user may not do this.
    Forbidden,
    /// Something failed on the server.
    Internal,
}

impl Status {
    /// The HTTP status code.
    pub open spec fn number(self) -> u16 {
        match self {
            Status::BadRequest => 400,
            Status::Unauthorized => 401,
            Status::Forbidden => 403,
            Status::Internal => 500,
        }
    }

    /// The HTTP status code.
    pub fn code(self) -> (r: u16)
        ensures
            r == self.number(),
    {
        match self {
            Status::BadRequest => 400,
            Status::Unauthorized => 401,
            Status::Forbidden => 403,
            Status::Internal => 500,
        }
    }
}

/// A refused request: its status and the message that the user sees.
#[derive(Debug)]
pub struct AppError {
    pub status: Status,
    pub message: String,
}

impl AppError {
    /// Whether this is the refusal with the given status and message.
    pub open spec fn says(self, status: Status, message: Seq<char>) -> bool {
        self.status == status && self.message@ == message
    }

    /// A refusal with the given status and message.
    pub fn new(status: Status, message: &str) -> (r: Self)
        ensures
            r.says(status, message@),
    {
        AppError { status, message: owned(message) }
    }

    /// The refusal of a request without a valid session.
    pub fn unauthorized() -> (r: Self)
        ensures
            r.says(Status::Unauthorized, "Debe iniciar sesión."@),
    {
        AppError::new(Status::Unauthorized, "Debe iniciar sesión.")
    }

    /// The refusal of a request that only an administrator may make.
    pub fn forbidden() -> (r: Self)
        ensures
            r.says(Status::Forbidden, "No tiene permisos para esta operación."@),
    {
        AppError::new(Status::Forbidden, "No tiene permisos para esta operación.")
    }

    /// The refusal that stands for a failure on the server.
    pub fn internal(message: &str) -> (r: Self)
        ensures
            r.says(Status::Internal, message@),
    {
        AppError::new(Status::Internal, message)
    }
}

/// Each refusal has its own HTTP status code.
pub proof fn refusals_have_their_codes()
    ensures
        Status::BadRequest.number() == 400,
        Status::Unauthorized.number() == 401,
        Status::Forbidden.number() == 403,
        Status::Internal.number() == 500,
{
}

/// A refusal says its message as it is, under its status.
pub proof fn refusals_say_their_message(e: AppError, status: Status, message: Seq<char>)
    ensures
        e.says(status, message) <==> e.status == status && e.message@ == message,
{
}

} // verus!
