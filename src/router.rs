//! The routing trie: a compressed prefix tree over path strings.
//!
//! Every node carries a label (a path segment), an optional handler and an
//! ordered list of children. The labels along a path from the root spell out
//! a registered path. Paths keep their leading `/`: the root's label is the
//! empty string and its children normally begin with `/`. A path ending in
//! `/*` registers its prefix up to the `/` with a wildcard child labelled
//! `*`: a lookup that finds nothing below such a prefix is answered by the
//! prefix's handler.
use vstd::prelude::*;
use vstd::std_specs::iter::IteratorSpec;

pub mod route;
mod trie_lemmas;

use trie_lemmas::{
    lemma_add_star, lemma_append, lemma_branch_from, lemma_descend, lemma_lookup_answer,
    lemma_no_star_within, lemma_overwrite, lemma_split, lemma_tidy_node,
};

verus! {

/// Length of the longest common prefix of `a` and `b`, counted from index `i`.
pub open spec fn common_prefix_from(a: Seq<char>, b: Seq<char>, i: nat) -> nat
    decreases a.len() - i,
{
    if i < a.len() && i < b.len() && a[i as int] == b[i as int] {
        common_prefix_from(a, b, i + 1)
    } else {
        i
    }
}

/// Length of the longest common prefix of `a` and `b`.
pub open spec fn common_prefix_len(a: Seq<char>, b: Seq<char>) -> nat {
    common_prefix_from(a, b, 0)
}

proof fn lemma_common_prefix_from(a: Seq<char>, b: Seq<char>, i: nat)
    requires
        i <= a.len(),
        i <= b.len(),
        forall|j: int| 0 <= j < i ==> a[j] == b[j],
    ensures
        ({
            let n = common_prefix_from(a, b, i);
            &&& i <= n <= a.len()
            &&& n <= b.len()
            &&& forall|j: int| 0 <= j < n ==> a[j] == b[j]
            &&& (n < a.len() && n < b.len() ==> a[n as int] != b[n as int])
        }),
    decreases a.len() - i,
{
    if i < a.len() && i < b.len() && a[i as int] == b[i as int] {
        lemma_common_prefix_from(a, b, i + 1);
    }
}

/// The longest common prefix is a common prefix, and the strings differ
/// right after it (unless one of them ends there).
pub proof fn lemma_common_prefix(a: Seq<char>, b: Seq<char>)
    ensures
        ({
            let n = common_prefix_len(a, b);
            &&& n <= a.len()
            &&& n <= b.len()
            &&& a.take(n as int) =~= b.take(n as int)
            &&& (n < a.len() && n < b.len() ==> a[n as int] != b[n as int])
        }),
{
    lemma_common_prefix_from(a, b, 0);
}

/// Whether the path ends in a wildcard segment `/*`.
pub open spec fn is_wildcard_path(p: Seq<char>) -> bool {
    p.len() >= 2 && p[p.len() - 1] == '*' && p[p.len() - 2] == '/'
}

/// A path that can be registered: non-empty, and holding `*` only as the
/// last character of a trailing `/*`.
pub open spec fn is_route_path(p: Seq<char>) -> bool {
    &&& p.len() > 0
    &&& forall|i: int| 0 <= i < p.len() && p[i] == '*' ==> i == p.len() - 1 && is_wildcard_path(p)
}

/// Whether a label begins with the character `c`.
pub open spec fn opens_with(label: Seq<char>, c: char) -> bool {
    label.len() > 0 && label[0] == c
}

/// Index of the first child at or after `i` whose label begins with `c`,
/// or the number of children if there is none.
pub open spec fn branch_from<H>(cs: Seq<Router<H>>, c: char, i: int) -> int
    decreases cs.len() - i,
{
    if i < 0 || i >= cs.len() {
        cs.len() as int
    } else if opens_with(cs[i].label(), c) {
        i
    } else {
        branch_from(cs, c, i + 1)
    }
}

/// The handler of the longest wildcard prefix of `key` that is shorter
/// than `n`: a prefix registered with a handler and a wildcard below it.
pub open spec fn wildcard_answer<H>(t: Router<H>, key: Seq<char>, n: int) -> Option<H>
    decreases n,
{
    if n <= 0 {
        None
    } else {
        let w = key.take(n - 1);
        if t.wild_at(w) && t.route_at(w) is Some {
            t.route_at(w)
        } else {
            wildcard_answer(t, key, n - 1)
        }
    }
}

/// What a lookup of `key` should answer, in terms of the registrations: an
/// exactly registered path answers with its handler; otherwise the longest
/// registered wildcard prefix of `key` (shorter than `key`) answers;
/// otherwise, and for the empty key, nothing does.
pub open spec fn answer<H>(t: Router<H>, key: Seq<char>) -> Option<H> {
    if key.len() == 0 {
        None
    } else if t.route_at(key) is Some {
        t.route_at(key)
    } else {
        wildcard_answer(t, key, key.len() as int)
    }
}

/// Whether the path ends in a wildcard segment `/*`.
fn includes_wildcard(path: &str) -> (r: bool)
    ensures
        r == is_wildcard_path(path@),
{
    let n = path.unicode_len();
    n >= 2 && path.get_char(n - 1) == '*' && path.get_char(n - 2) == '/'
}

/// Whether `path` can be registered; see `is_route_path`.
fn route_path(path: &str) -> (r: bool)
    ensures
        r == is_route_path(path@),
{
    let n = path.unicode_len();
    if n == 0 {
        return false;
    }
    let wild = includes_wildcard(path);
    let mut i: usize = 0;
    while i < n
        invariant
            n == path@.len(),
            i <= n,
            wild == is_wildcard_path(path@),
            forall|j: int| 0 <= j < i && path@[j] == '*' ==> j == n - 1 && wild,
        decreases n - i,
    {
        if path.get_char(i) == '*' && !(i == n - 1 && wild) {
            return false;
        }
        i += 1;
    }
    true
}

/// In a trie that `add_route` built, `find` answers as `answer` says: an
/// exactly registered path gives its handler, any other key the handler of
/// its longest registered wildcard prefix, and nothing else is found.
pub proof fn lemma_find_answer<H>(t: Router<H>, key: Seq<char>)
    requires
        t.wf(),
        t.tidy(),
    ensures
        t.found(key) == answer(t, key),
{
    if key.len() > 0 {
        lemma_lookup_answer(t, key);
    }
}

/// A registered non-empty path is found with the handler registered for it
/// (last, as the contract of `add_route` gives).
pub proof fn lemma_registered_path_found<H>(t: Router<H>, key: Seq<char>)
    requires
        t.wf(),
        t.tidy(),
        key.len() > 0,
        t.route_at(key) is Some,
    ensures
        t.found(key) == t.route_at(key),
{
    lemma_lookup_answer(t, key);
}

/// Registration order does not matter: two tries that hold the same
/// registrations (as any two orders of the same registrations give, by the
/// contract of `add_route`) answer every lookup alike.
pub proof fn lemma_registration_order_irrelevant<H>(t1: Router<H>, t2: Router<H>, key: Seq<char>)
    requires
        t1.wf(),
        t1.tidy(),
        t2.wf(),
        t2.tidy(),
        forall|k: Seq<char>| #[trigger] t1.probe(k) == t2.probe(k),
    ensures
        t1.found(key) == t2.found(key),
{
    lemma_find_answer(t1, key);
    lemma_find_answer(t2, key);
    lemma_same_wildcard_answer(t1, t2, key, key.len() as int);
    assert(t1.probe(key) == t2.probe(key));
}

proof fn lemma_same_wildcard_answer<H>(t1: Router<H>, t2: Router<H>, key: Seq<char>, n: int)
    requires
        forall|k: Seq<char>| #[trigger] t1.probe(k) == t2.probe(k),
    ensures
        wildcard_answer(t1, key, n) == wildcard_answer(t2, key, n),
    decreases n,
{
    if n > 0 {
        assert(t1.probe(key.take(n - 1)) == t2.probe(key.take(n - 1)));
        lemma_same_wildcard_answer(t1, t2, key, n - 1);
    }
}

/// A node of the routing trie. The router itself is the root node, whose
/// label is empty.
pub struct Router<H> {
    pub path: String,
    pub handler: Option<H>,
    pub children: Vec<Router<H>>,
}

impl<H> Router<H> {
    /// The label of this node.
    pub open spec fn label(self) -> Seq<char> {
        self.path@
    }

    /// The children of this node, in registration order.
    pub open spec fn kids(self) -> Seq<Router<H>> {
        self.children@
    }

    /// The wildcard node that a path ending in `/*` hangs below its prefix.
    pub open spec fn is_star_leaf(self) -> bool {
        &&& self.label() == seq!['*']
        &&& self.handler is None
        &&& self.kids().len() == 0
    }

    /// Whether one of the children is a wildcard node.
    pub open spec fn has_star(self) -> bool {
        exists|i: int| 0 <= i < self.kids().len() && (#[trigger] self.kids()[i]).label() == seq!['*']
    }

    /// The trie invariant: no two siblings have labels that share their
    /// first character, at every node.
    pub open spec fn wf(self) -> bool
        decreases self,
    {
        &&& forall|i: int, j: int|
            0 <= i < j < self.kids().len() && self.kids()[i].label().len() > 0
                && self.kids()[j].label().len() > 0 ==> #[trigger] self.kids()[i].label()[0]
                != #[trigger] self.kids()[j].label()[0]
        &&& forall|i: int| 0 <= i < self.kids().len() ==> (#[trigger] self.kids()[i]).wf()
    }

    proof fn lemma_kid_wf(self, i: int)
        requires
            self.wf(),
            0 <= i < self.kids().len(),
        ensures
            self.kids()[i].wf(),
    {
    }

    /// What registration keeps: every label below this node is non-empty,
    /// and a label that holds `*` is a wildcard node (exactly `*`, without
    /// handler or children).
    pub open spec fn tidy(self) -> bool
        decreases self,
    {
        &&& self.label().contains('*') ==> self.is_star_leaf()
        &&& forall|i: int|
            0 <= i < self.kids().len() ==> (#[trigger] self.kids()[i]).label().len() > 0
                && self.kids()[i].tidy()
    }

    /// The node at exactly `key`, read from this node down, seen as its
    /// handler and whether it has a wildcard child; `(None, false)` where the
    /// labels on the way do not spell out `key`.
    pub open spec fn probe(self, key: Seq<char>) -> (Option<H>, bool)
        decreases self,
    {
        if self.label().is_prefix_of(key) {
            let rest = key.skip(self.label().len() as int);
            if rest.len() == 0 {
                (self.handler, self.has_star())
            } else {
                let i = branch_from(self.kids(), rest[0], 0);
                if 0 <= i < self.kids().len() {
                    self.kids()[i].probe(rest)
                } else {
                    (None, false)
                }
            }
        } else {
            (None, false)
        }
    }

    /// The handler registered for exactly `key`.
    pub open spec fn route_at(self, key: Seq<char>) -> Option<H> {
        self.probe(key).0
    }

    /// Whether `key` is registered as a wildcard prefix (its node has a
    /// wildcard child).
    pub open spec fn wild_at(self, key: Seq<char>) -> bool {
        self.probe(key).1
    }

    /// What a lookup of `key` from this node answers. The label must be a
    /// prefix of the key. If nothing remains, the node's own handler
    /// answers. Otherwise the child that begins with the next character
    /// takes the rest; where it finds nothing, a wildcard child makes this
    /// node's handler answer.
    pub open spec fn lookup(self, key: Seq<char>) -> Option<H>
        decreases self,
    {
        if self.label().is_prefix_of(key) {
            let rest = key.skip(self.label().len() as int);
            if rest.len() == 0 {
                self.handler
            } else {
                let i = branch_from(self.kids(), rest[0], 0);
                let below = if 0 <= i < self.kids().len() {
                    self.kids()[i].lookup(rest)
                } else {
                    None
                };
                if below is Some {
                    below
                } else if self.has_star() {
                    self.handler
                } else {
                    None
                }
            }
        } else {
            None
        }
    }

    /// What `find` answers: nothing for the empty key, else `lookup`.
    pub open spec fn found(self, key: Seq<char>) -> Option<H> {
        if key.len() == 0 {
            None
        } else {
            self.lookup(key)
        }
    }

    /// An empty router: the root node, with no handler and no children.
    pub fn new() -> (r: Self)
        ensures
            r.label() == Seq::<char>::empty(),
            r.handler is None,
            r.kids() == Seq::<Router<H>>::empty(),
            r.wf(),
            r.tidy(),
            forall|k: Seq<char>| #[trigger] r.probe(k) == (None::<H>, false),
    {
        let r = Router { path: String::new(), handler: None, children: Vec::new() };
        proof {
            assert forall|k: Seq<char>| #[trigger] r.probe(k) == (None::<H>, false) by {
                assert(r.label().is_prefix_of(k));
                assert(!r.has_star());
            }
        }
        r
    }

    /// A fresh leaf for `path` that answers with `handler`.
    fn new_child(path: &str, handler: H) -> (r: Self)
        requires
            path@.len() > 0,
            !path@.contains('*'),
        ensures
            r.wf(),
            r.tidy(),
            r.label() == path@,
            r.handler == Some(handler),
            r.kids().len() == 0,
            opens_with(r.label(), path@[0]),
    {
        Router { path: path.to_owned(), handler: Some(handler), children: Vec::new() }
    }

    /// A wildcard node.
    fn star_leaf() -> (r: Self)
        ensures
            r.is_star_leaf(),
            r.wf(),
            r.tidy(),
    {
        let star = "*";
        proof {
            reveal_strlit("*");
            assert(star@ =~= seq!['*']);
        }
        Router { path: star.to_owned(), handler: None, children: Vec::new() }
    }

    /// Whether this node is a wildcard node.
    fn is_star(&self) -> (r: bool)
        ensures
            r == (self.label() == seq!['*']),
    {
        let label = self.path.as_str();
        let r = label.unicode_len() == 1 && label.get_char(0) == '*';
        proof {
            if self.label() == seq!['*'] {
                assert(self.label()[0] == '*');
            }
            if r {
                assert(self.label() =~= seq!['*']);
            }
        }
        r
    }

    /// Whether this node's label begins with `c`.
    fn opens_with_char(&self, c: char) -> (r: bool)
        ensures
            r == opens_with(self.label(), c),
    {
        let label = self.path.as_str();
        label.unicode_len() > 0 && label.get_char(0) == c
    }

    /// Whether one of the children is a wildcard node.
    fn has_star_child(&self) -> (r: bool)
        ensures
            r == self.has_star(),
    {
        let mut i: usize = 0;
        while i < self.children.len()
            invariant
                i <= self.kids().len(),
                forall|k: int| 0 <= k < i ==> (#[trigger] self.kids()[k]).label() != seq!['*'],
            decreases self.children.len() - i,
        {
            if self.children[i].is_star() {
                return true;
            }
            i += 1;
        }
        false
    }

    /// Registers `handler` for `new_path`. An exact registration that exists
    /// already is overwritten; otherwise nodes are split at the longest
    /// common prefix or a new child is appended. A path ending in `/*` puts
    /// the handler on its prefix up to the `/` and a wildcard node (without
    /// handler) below it. A path that is empty or holds `*` anywhere else is
    /// not registered.
    pub fn add_route(&mut self, new_path: &str, handler: H)
        requires
            old(self).wf(),
            old(self).tidy(),
            !old(self).label().contains('*'),
        ensures
            final(self).wf(),
            final(self).tidy(),
            !final(self).label().contains('*'),
            !is_route_path(new_path@) ==> *final(self) == *old(self),
            is_route_path(new_path@) && !is_wildcard_path(new_path@) ==> forall|k: Seq<char>|
                #[trigger] final(self).probe(k) == if k == new_path@ {
                    (Some(handler), old(self).wild_at(k))
                } else {
                    old(self).probe(k)
                },
            is_route_path(new_path@) && is_wildcard_path(new_path@) ==> forall|k: Seq<char>|
                #[trigger] final(self).probe(k) == if k == new_path@.drop_last() {
                    (Some(handler), true)
                } else {
                    old(self).probe(k)
                },
    {
        if !route_path(new_path) {
            return;
        }
        let n = new_path.unicode_len();
        if includes_wildcard(new_path) {
            let prefix = new_path.substring_char(0, n - 1);
            proof {
                assert forall|i: int| 0 <= i < prefix@.len() implies prefix@[i] != '*' by {
                    assert(prefix@[i] == new_path@[i]);
                }
            }
            let ghost before = *self;
            self.insert_route(prefix, handler);
            proof {
                lemma_common_prefix(before.label(), prefix@);
                lemma_no_star_within(before.label(), 0, common_prefix_len(before.label(), prefix@) as int);
                assert(self.route_at(prefix@) == Some(handler));
            }
            let ghost middle = *self;
            self.mark_wildcard(prefix);
            proof {
                assert(prefix@ =~= new_path@.drop_last());
                assert forall|k: Seq<char>|
                    #[trigger] self.probe(k) == if k == new_path@.drop_last() {
                        (Some(handler), true)
                    } else {
                        before.probe(k)
                    } by {
                    assert(self.probe(k) == if k == prefix@ {
                        (middle.probe(k).0, true)
                    } else {
                        middle.probe(k)
                    });
                    assert(middle.probe(k) == if k == prefix@ {
                        (Some(handler), before.probe(k).1)
                    } else {
                        before.probe(k)
                    });
                }
            }
        } else {
            proof {
                assert forall|i: int| 0 <= i < new_path@.len() implies new_path@[i] != '*' by {}
            }
            self.insert_route(new_path, handler);
            proof {
                lemma_common_prefix(old(self).label(), new_path@);
                lemma_no_star_within(old(self).label(), 0, common_prefix_len(old(self).label(), new_path@) as int);
            }
        }
    }

    /// Registers `handler` for exactly `new_path`, a non-empty path without
    /// `*`.
    fn insert_route(&mut self, new_path: &str, handler: H)
        requires
            old(self).wf(),
            old(self).tidy(),
            !old(self).label().contains('*'),
            new_path@.len() > 0,
            !new_path@.contains('*'),
        ensures
            final(self).wf(),
            final(self).tidy(),
            final(self).label() == old(self).label().take(
                common_prefix_len(old(self).label(), new_path@) as int,
            ),
            forall|k: Seq<char>|
                #[trigger] final(self).probe(k) == if k == new_path@ {
                    (Some(handler), old(self).probe(k).1)
                } else {
                    old(self).probe(k)
                },
        decreases *old(self),
    {
        let ghost p = new_path@;
        let path_len = self.path.as_str().unicode_len();
        if path_len == 0 && self.children.len() == 0 {
            let child = Self::new_child(new_path, handler);
            self.children.push(child);
            proof {
                assert(self.label() =~= old(self).label().take(
                    common_prefix_len(old(self).label(), p) as int,
                ));
                assert(self.kids()[0].wf());
                assert(self.kids() =~= old(self).kids().push(child));
                assert(p.skip(0) =~= p);
                lemma_append(*old(self), *self, p, child);
                assert(self.kids()[0] == child);
                lemma_tidy_node(*self);
            }
            return;
        }
        let new_len = new_path.unicode_len();
        let lcp = self.longest_common_prefix(new_path);
        proof {
            lemma_common_prefix(self.label(), p);
        }
        if lcp == path_len && lcp == new_len {
            self.handler = Some(handler);
            proof {
                assert(self.label() =~= old(self).label().take(lcp as int));
                assert(self.kids() == old(self).kids());
                assert(self.label() =~= p);
                lemma_overwrite(*old(self), *self, handler);
                lemma_tidy_node(*self);
            }
            return;
        }
        if lcp < path_len {
            let label = self.path.as_str();
            let common = label.substring_char(0, lcp).to_owned();
            let pushed_label = label.substring_char(lcp, path_len).to_owned();
            let rest = new_path.substring_char(lcp, new_len);
            let mut old_children = Vec::new();
            std::mem::swap(&mut self.children, &mut old_children);
            let pushed = Router {
                path: pushed_label,
                handler: self.handler.take(),
                children: old_children,
            };
            let ghost d = pushed;
            proof {
                let l = old(self).label();
                assert(pushed.kids() == old(self).kids());
                assert(pushed.wf());
                lemma_no_star_within(l, lcp as int, l.len() as int);
                lemma_tidy_node(d);
            }
            self.path = common;
            let mut children = Vec::new();
            children.push(pushed);
            if lcp < new_len {
                proof {
                    lemma_no_star_within(p, lcp as int, new_len as int);
                }
                let child = Self::new_child(rest, handler);
                children.push(child);
            } else {
                self.handler = Some(handler);
            }
            self.children = children;
            proof {
                let l = old(self).label();
                assert(self.kids()[0].label()[0] == l[lcp as int]);
                assert(self.kids()[0].wf());
                lemma_no_star_within(l, 0, lcp as int);
                if lcp == new_len {
                    assert(self.kids() =~= seq![d]);
                }
                lemma_split(*old(self), *self, p, handler, lcp as int, d);
                lemma_tidy_node(*self);
            }
        } else {
            let rest = new_path.substring_char(lcp, new_len);
            let c = rest.get_char(0);
            let mut i: usize = 0;
            while i < self.children.len()
                invariant
                    *self == *old(self),
                    old(self).wf(),
                    old(self).tidy(),
                    lcp == path_len,
                    path_len == old(self).label().len(),
                    lcp == common_prefix_len(old(self).label(), p),
                    i <= self.kids().len(),
                    forall|k: int| 0 <= k < i ==> !opens_with(#[trigger] self.kids()[k].label(), c),
                    p == new_path@,
                    !p.contains('*'),
                    rest@ == p.skip(lcp as int),
                    rest@.len() > 0,
                    c == rest@[0],
                    new_len == p.len(),
                    lcp < new_len,
                decreases self.children.len() - i,
            {
                if self.children[i].opens_with_char(c) {
                    proof {
                        old(self).lemma_kid_wf(i as int);
                        assert(old(self).label().take(lcp as int) =~= old(self).label());
                        lemma_no_star_within(p, lcp as int, new_len as int);
                        assert(rest@[0] != '*');
                    }
                    let mut child = self.children.remove(i);
                    let ghost before = child;
                    proof {
                        lemma_common_prefix(before.label(), rest@);
                        assert(before.tidy());
                        if before.label().contains('*') {
                            assert(before.label()[0] == '*');
                        }
                    }
                    child.insert_route(rest, handler);
                    proof {
                        assert(child.label()[0] == c);
                        assert(child.label() != seq!['*']);
                        assert(before.label() != seq!['*']);
                    }
                    self.children.insert(i, child);
                    proof {
                        assert(self.kids() =~= old(self).kids().update(i as int, child));
                        lemma_common_prefix(old(self).label(), p);
                        assert(old(self).label().is_prefix_of(p));
                        lemma_descend(
                            *old(self),
                            *self,
                            p,
                            (Some(handler), before.probe(rest@).1),
                            i as int,
                            child,
                        );
                        lemma_tidy_node(*self);
                    }
                    return;
                }
                i += 1;
            }
            proof {
                lemma_no_star_within(p, lcp as int, new_len as int);
            }
            let child = Self::new_child(rest, handler);
            self.children.push(child);
            proof {
                assert(self.kids().last() == child);
                assert(self.label() =~= old(self).label().take(lcp as int));
                lemma_common_prefix(old(self).label(), p);
                assert(old(self).label().is_prefix_of(p));
                assert(self.kids() =~= old(self).kids().push(child));
                lemma_append(*old(self), *self, p, child);
                lemma_tidy_node(*self);
            }
        }
    }

    /// Gives the node at exactly `prefix` (which must exist) a wildcard
    /// child, unless it has one.
    fn mark_wildcard(&mut self, prefix: &str)
        requires
            old(self).wf(),
            old(self).tidy(),
            !old(self).label().contains('*'),
            old(self).route_at(prefix@) is Some,
            !prefix@.contains('*'),
        ensures
            final(self).wf(),
            final(self).tidy(),
            final(self).label() == old(self).label(),
            forall|k: Seq<char>|
                #[trigger] final(self).probe(k) == if k == prefix@ {
                    (old(self).probe(k).0, true)
                } else {
                    old(self).probe(k)
                },
        decreases *old(self),
    {
        let ghost q = prefix@;
        let path_len = self.path.as_str().unicode_len();
        let q_len = prefix.unicode_len();
        proof {
            assert(self.label().is_prefix_of(q));
        }
        if path_len == q_len {
            proof {
                assert(self.label() =~= q);
            }
            if !self.has_star_child() {
                let star = Self::star_leaf();
                self.children.push(star);
                proof {
                    assert(self.kids() =~= old(self).kids().push(star));
                    lemma_add_star(*old(self), *self, star);
                    assert(self.kids().last() == star);
                    assert(star.label()[0] == '*');
                    assert(star.wf());
                    lemma_tidy_node(*self);
                }
            } else {
                proof {
                    assert forall|k: Seq<char>|
                        #[trigger] self.probe(k) == if k == q {
                            (old(self).probe(k).0, true)
                        } else {
                            old(self).probe(k)
                        } by {
                        if k == q {
                            assert(q.skip(path_len as int).len() == 0);
                        }
                    }
                }
            }
            return;
        }
        let rest = prefix.substring_char(path_len, q_len);
        let c = rest.get_char(0);
        let ghost b = branch_from(self.kids(), c, 0);
        proof {
            assert(rest@ =~= q.skip(path_len as int));
            lemma_branch_from(self.kids(), c, 0);
        }
        let mut i: usize = 0;
        while i < self.children.len() && !self.children[i].opens_with_char(c)
            invariant
                *self == *old(self),
                i <= b,
                b == branch_from(self.kids(), c, 0),
                0 <= b < self.kids().len(),
                opens_with(self.kids()[b].label(), c),
                forall|k: int| 0 <= k < b ==> !opens_with(#[trigger] self.kids()[k].label(), c),
            decreases self.children.len() - i,
        {
            i += 1;
        }
        proof {
            assert(i == b);
            old(self).lemma_kid_wf(b);
            assert(rest@[0] != '*') by {
                assert(rest@[0] == q[path_len as int]);
            }
        }
        let mut child = self.children.remove(i);
        let ghost before = child;
        proof {
            assert(before.tidy());
            if before.label().contains('*') {
                assert(before.label()[0] == '*');
            }
            assert forall|j: int| 0 <= j < rest@.len() implies rest@[j] != '*' by {
                assert(rest@[j] == q[path_len + j]);
            }
        }
        child.mark_wildcard(rest);
        proof {
            assert(child.label() == before.label());
            assert(child.label() != seq!['*']);
            assert(before.label() != seq!['*']);
        }
        self.children.insert(i, child);
        proof {
            assert(self.kids() =~= old(self).kids().update(i as int, child));
            assert(self.label() =~= old(self).label());
            lemma_descend(
                *old(self),
                *self,
                q,
                (before.probe(rest@).0, true),
                i as int,
                child,
            );
            lemma_tidy_node(*self);
        }
    }

    /// Looks up the handler that answers for `key`: see `found`, and
    /// `lemma_find_answer` for what it means in terms of registrations.
    pub fn find(&self, key: &str) -> (r: Option<&H>)
        ensures
            r is None <==> self.found(key@) is None,
            r matches Some(h) ==> self.found(key@) == Some(*h),
            key@.len() == 0 ==> r is None,
    {
        if key.unicode_len() == 0 {
            return None;
        }
        self.lookup_below(key)
    }

    /// Looks up `key` from this node; see `lookup`.
    fn lookup_below(&self, key: &str) -> (r: Option<&H>)
        ensures
            r is None <==> self.lookup(key@) is None,
            r matches Some(h) ==> self.lookup(key@) == Some(*h),
        decreases self,
    {
        let n = key.unicode_len();
        let path_len = self.path.as_str().unicode_len();
        let lcp = self.longest_common_prefix(key);
        proof {
            lemma_common_prefix(self.label(), key@);
        }
        if lcp < path_len {
            proof {
                if self.label().is_prefix_of(key@) {
                    assert(self.label()[lcp as int] == key@.subrange(0, path_len as int)[lcp as int]);
                }
            }
            return None;
        }
        proof {
            assert(self.label() =~= key@.subrange(0, path_len as int));
        }
        if lcp == n {
            return self.handler.as_ref();
        }
        let rest = key.substring_char(lcp, n);
        let c = rest.get_char(0);
        let mut i: usize = 0;
        while i < self.children.len() && !self.children[i].opens_with_char(c)
            invariant
                i <= self.kids().len(),
                branch_from(self.kids(), c, 0) == branch_from(self.kids(), c, i as int),
            decreases self.children.len() - i,
        {
            i += 1;
        }
        let below = if i < self.children.len() {
            self.children[i].lookup_below(rest)
        } else {
            None
        };
        if below.is_some() {
            return below;
        }
        if self.has_star_child() {
            return self.handler.as_ref();
        }
        None
    }

    /// Number of leading characters that this node's label shares with `other`.
    pub fn longest_common_prefix(&self, other: &str) -> (r: usize)
        ensures
            r == common_prefix_len(self.label(), other@),
    {
        broadcast use vstd::string::group_string_axioms;

        let label = self.path.as_str();
        let a_len = label.unicode_len();
        let mut a = label.chars();
        let mut b = other.chars();
        let mut pos: usize = 0;
        loop
            invariant_except_break
                a.remaining() == label@.skip(pos as int),
                b.remaining() == other@.skip(pos as int),
            invariant
                label@ == self.label(),
                a_len == label@.len(),
                pos <= a_len,
                pos <= other@.len(),
                a.obeys_prophetic_iter_laws(),
                b.obeys_prophetic_iter_laws(),
                common_prefix_from(label@, other@, pos as nat) == common_prefix_len(label@, other@),
            ensures
                pos == common_prefix_len(label@, other@),
            decreases a_len - pos,
        {
            let x = a.next();
            let y = b.next();
            match (x, y) {
                (Some(cx), Some(cy)) => {
                    if cx != cy {
                        break;
                    }
                    proof {
                        assert(label@.skip(pos as int).drop_first() =~= label@.skip(pos + 1));
                        assert(other@.skip(pos as int).drop_first() =~= other@.skip(pos + 1));
                    }
                    pos += 1;
                },
                _ => break,
            }
        }
        pos
    }
}

} // verus!
