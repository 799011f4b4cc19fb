//! The router as the server holds it: a trie behind its root node.
use crate::router::{is_route_path, is_wildcard_path, Router};
use vstd::prelude::*;

verus! {

/// A routing table: the root of a routing trie.
pub struct Route<H> {
    pub root: Router<H>,
}

impl<H> Route<H> {
    /// An empty routing table.
    pub fn new() -> (r: Self)
        ensures
            r.root.label() == Seq::<char>::empty(),
            r.root.wf(),
            r.root.tidy(),
            forall|k: Seq<char>| #[trigger] r.root.probe(k) == (None::<H>, false),
    {
        Route { root: Router::new() }
    }

    /// Registers `handler` for `path`; see `Router::add_route`.
    pub fn add_route(&mut self, path: &str, handler: H)
        requires
            old(self).root.wf(),
            old(self).root.tidy(),
            !old(self).root.label().contains('*'),
        ensures
            final(self).root.wf(),
            final(self).root.tidy(),
            !final(self).root.label().contains('*'),
            !is_route_path(path@) ==> final(self).root == old(self).root,
            is_route_path(path@) && !is_wildcard_path(path@) ==> forall|k: Seq<char>|
                #[trigger] final(self).root.probe(k) == if k == path@ {
                    (Some(handler), old(self).root.wild_at(k))
                } else {
                    old(self).root.probe(k)
                },
            is_route_path(path@) && is_wildcard_path(path@) ==> forall|k: Seq<char>|
                #[trigger] final(self).root.probe(k) == if k == path@.drop_last() {
                    (Some(handler), true)
                } else {
                    old(self).root.probe(k)
                },
    {
        self.root.add_route(path, handler);
    }

    /// Looks up the handler that answers for `key`; see `Router::find`.
    pub fn find(&self, key: &str) -> (r: Option<&H>)
        ensures
            r is None <==> self.root.found(key@) is None,
            r matches Some(h) ==> self.root.found(key@) == Some(*h),
            key@.len() == 0 ==> r is None,
    {
        self.root.find(key)
    }

    /// Number of leading characters that the root's label shares with `other`.
    pub fn longest_common_prefix(&self, other: &str) -> (r: usize)
        ensures
            r == crate::router::common_prefix_len(self.root.label(), other@),
    {
        self.root.longest_common_prefix(other)
    }
}

} // verus!
