//! What a refused request is answered.

use vstd::prelude::*;

verus! {

/// The status of a refused request.
#[derive(Debug, Clone, Copy, PartialEq, Eq, Structural)]
pub enum Status {
    BadRequest,
    Unauthorized,
    Forbidden,
    NotFound,
    InternalServerError,
    BadGateway,
}

/// A refusal: its status and the text of its body.
#[derive(Debug)]
pub struct AppError(pub Status, pub &'static str);

impl AppError {
    /// This refusal has the given status and text.
    pub open spec fn says(&self, status: Status, message: Seq<char>) -> bool {
        self.0 == status && self.1@ == message
    }

    /// The `WWW-Authenticate` header of the answer, which an unauthorized
    /// request alone gets.
    pub fn challenge(&self) -> (r: Option<&'static str>)
        ensures
            match r {
                Some(text) => self.0 == Status::Unauthorized && text@
                    == "Basic realm=\"Source Management\""@,
                None => self.0 != Status::Unauthorized,
            },
    {
        if self.0 == Status::Unauthorized {
            Some("Basic realm=\"Source Management\"")
        } else {
            None
        }
    }
}

} // verus!
