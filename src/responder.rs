//! Responders: values that can be turned into a response.
use crate::response::Response;
use vstd::prelude::*;

verus! {

/// Something that can be turned into a response, such as an open file.
pub trait Responder {
    /// Why the conversion can fail.
    type Error;

    fn to_response(self) -> Result<Response, Self::Error>;
}

} // verus!
