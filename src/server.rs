//! The server's configuration and its per-request decisions. Accepting
//! connections and moving bytes is left to the caller.
use crate::request::{request_result, Request, RequestParseError};
use crate::router::{is_route_path, is_wildcard_path, wildcard_answer, Router};
use crate::router::route::Route;
use vstd::prelude::*;
use vstd::string::*;

verus! {

/// A trie without registrations has no wildcard answer.
proof fn lemma_no_wildcard_answer<H>(t: Router<H>, key: Seq<char>, n: int)
    requires
        forall|k: Seq<char>| #[trigger] t.probe(k) == (None::<H>, false),
    ensures
        wildcard_answer(t, key, n) is None,
    decreases n,
{
    if n > 0 {
        assert(t.probe(key.take(n - 1)) == (None::<H>, false));
        lemma_no_wildcard_answer(t, key, n - 1);
    }
}

/// What to do with one request text.
pub enum Dispatch<'a, H> {
    /// The text is not a request; nothing is answered.
    Invalid(RequestParseError),
    /// No handler answers for the request's path: answer `404 Not Found`.
    Unrouted(Request),
    /// The handler that answers the request.
    Routed(Request, &'a H),
}

/// An address to listen on and the routes to serve.
pub struct Server<H> {
    address: String,
    port: u16,
    router: Route<H>,
}

impl<H> Server<H> {
    #[verifier::type_invariant]
    spec fn router_valid(self) -> bool {
        &&& self.router.root.wf()
        &&& self.router.root.tidy()
        &&& !self.router.root.label().contains('*')
    }

    /// The address to listen on.
    pub closed spec fn address_view(self) -> Seq<char> {
        self.address@
    }

    /// The port to listen on.
    pub closed spec fn port_view(self) -> u16 {
        self.port
    }

    /// The routes.
    pub closed spec fn routes(self) -> Route<H> {
        self.router
    }

    /// A server for `127.0.0.1:8000` without routes.
    pub fn new() -> (r: Self)
        ensures
            r.address_view() == "127.0.0.1"@,
            r.port_view() == 8000,
            r.routes().root.wf(),
            r.routes().root.tidy(),
            forall|k: Seq<char>| #[trigger] r.routes().root.probe(k) == (None::<H>, false),
            forall|k: Seq<char>| #[trigger] r.routes().root.found(k) is None,
    {
        let router = Route::new();
        proof {
            assert forall|k: Seq<char>| #[trigger] router.root.found(k) is None by {
                crate::router::lemma_find_answer(router.root, k);
                assert(router.root.probe(k) == (None::<H>, false));
                lemma_no_wildcard_answer(router.root, k, k.len() as int);
            }
        }
        Server { address: "127.0.0.1".to_owned(), port: 8000, router }
    }

    /// The same server on another address and port.
    pub fn bind(self, address: &str, port: u16) -> (r: Self)
        ensures
            r.address_view() == address@,
            r.port_view() == port,
            r.routes() == self.routes(),
            r.routes().root.wf(),
            r.routes().root.tidy(),
    {
        proof {
            use_type_invariant(&self);
        }
        let Server { address: _, port: _, router } = self;
        Server { address: address.to_owned(), port, router }
    }

    /// The same server with `handler` registered for `path`; see
    /// `Router::add_route`.
    pub fn route(self, path: &str, handler: H) -> (r: Self)
        ensures
            r.address_view() == self.address_view(),
            r.port_view() == self.port_view(),
            r.routes().root.wf(),
            r.routes().root.tidy(),
            !is_route_path(path@) ==> r.routes().root == self.routes().root,
            is_route_path(path@) && !is_wildcard_path(path@) ==> forall|k: Seq<char>|
                #[trigger] r.routes().root.probe(k) == if k == path@ {
                    (Some(handler), self.routes().root.wild_at(k))
                } else {
                    self.routes().root.probe(k)
                },
            is_route_path(path@) && is_wildcard_path(path@) ==> forall|k: Seq<char>|
                #[trigger] r.routes().root.probe(k) == if k == path@.drop_last() {
                    (Some(handler), true)
                } else {
                    self.routes().root.probe(k)
                },
    {
        proof {
            use_type_invariant(&self);
        }
        let Server { address, port, mut router } = self;
        router.add_route(path, handler);
        Server { address, port, router }
    }

    /// The address to listen on.
    pub fn address(&self) -> (r: &str)
        ensures
            r@ == self.address_view(),
    {
        self.address.as_str()
    }

    /// The port to listen on.
    pub fn port(&self) -> (r: u16)
        ensures
            r == self.port_view(),
    {
        self.port
    }

    /// Decides what to do with a request text: parse it, then look up the
    /// handler for its path.
    pub fn dispatch(&self, raw: &str) -> (r: Dispatch<'_, H>)
        ensures
            request_result(raw@) matches Err(e) ==> (r matches Dispatch::Invalid(x) && x == e),
            request_result(raw@) matches Ok((m, path, h)) ==> (self.routes().root.found(path) is None
                ==> (r matches Dispatch::Unrouted(req) && req.method == m && req.uri@ == path
                && req.headers@ == h)),
            request_result(raw@) matches Ok((m, path, h)) ==> (self.routes().root.found(
                path,
            ) matches Some(answer) ==> (r matches Dispatch::Routed(req, x) && *x == answer
                && req.method == m && req.uri@ == path && req.headers@ == h)),
    {
        match Request::new(raw) {
            Err(e) => Dispatch::Invalid(e),
            Ok(request) => match self.router.find(request.uri.as_str()) {
                Some(handler) => Dispatch::Routed(request, handler),
                None => Dispatch::Unrouted(request),
            },
        }
    }
}

} // verus!
