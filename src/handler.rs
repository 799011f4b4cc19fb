//! Handlers: what answers a request.
use crate::request::Request;
use crate::response::Response;
use vstd::prelude::*;

verus! {

/// Something that answers a request with a response. The router stores
/// handlers and hands them back on lookup; it never calls them.
pub trait Handler {
    fn handle(&self, request: &Request) -> Response;
}

} // verus!
