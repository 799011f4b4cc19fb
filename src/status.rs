//! Response statuses.
use vstd::prelude::*;
use vstd::string::*;

verus! {

/// Response statuses, each with its code and reason phrase.
#[derive(Clone, Copy, Debug, PartialEq, Eq, Structural)]
pub enum Status {
    OK,
    NotFound,
}

/// The numeric code of a status.
pub open spec fn status_code(s: Status) -> u16 {
    match s {
        Status::OK => 200,
        Status::NotFound => 404,
    }
}

/// The reason phrase of a status.
pub open spec fn reason_text(s: Status) -> Seq<char> {
    match s {
        Status::OK => "OK"@,
        Status::NotFound => "Not Found"@,
    }
}

impl Status {
    /// The code and the reason phrase of this status.
    pub fn code_and_reason(self) -> (r: (u16, String))
        ensures
            r.0 == status_code(self),
            r.1@ == reason_text(self),
    {
        match self {
            Status::OK => (200, "OK".to_owned()),
            Status::NotFound => (404, "Not Found".to_owned()),
        }
    }
}

} // verus!
