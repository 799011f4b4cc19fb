//! Facts about the scan over a node's children, about what insertion does
//! to the registrations, and about what a lookup answers.
use crate::router::{answer, branch_from, opens_with, wildcard_answer, Router};
use vstd::prelude::*;

verus! {

/// The scan for `c` stops at the first child that begins with `c`.
pub proof fn lemma_branch_from<H>(cs: Seq<Router<H>>, c: char, i: int)
    requires
        0 <= i <= cs.len(),
    ensures
        i <= branch_from(cs, c, i) <= cs.len(),
        branch_from(cs, c, i) < cs.len() ==> opens_with(cs[branch_from(cs, c, i)].label(), c),
        forall|k: int| i <= k < branch_from(cs, c, i) ==> !opens_with(#[trigger] cs[k].label(), c),
    decreases cs.len() - i,
{
    if i < cs.len() && !opens_with(cs[i].label(), c) {
        lemma_branch_from(cs, c, i + 1);
    }
}

/// In a well-formed node, the scan for `c` finds the one child that begins
/// with `c`.
pub proof fn lemma_branch_unique<H>(t: Router<H>, c: char, j: int)
    requires
        t.wf(),
        0 <= j < t.kids().len(),
        opens_with(t.kids()[j].label(), c),
    ensures
        branch_from(t.kids(), c, 0) == j,
{
    lemma_branch_from(t.kids(), c, 0);
    let b = branch_from(t.kids(), c, 0);
    if b < j {
        assert(t.kids()[b].label()[0] == t.kids()[j].label()[0]);
    } else if b > j {
        assert(!opens_with(t.kids()[j].label(), c));
    }
}

/// Where no child begins with `c`, the scan finds none.
pub proof fn lemma_branch_none<H>(cs: Seq<Router<H>>, c: char)
    requires
        forall|k: int| 0 <= k < cs.len() ==> !opens_with(#[trigger] cs[k].label(), c),
    ensures
        branch_from(cs, c, 0) == cs.len(),
{
    lemma_branch_from(cs, c, 0);
}

/// Replacing a child by one that begins with the same characters leaves the
/// scan where it was.
pub proof fn lemma_branch_update<H>(cs: Seq<Router<H>>, j: int, x: Router<H>, c: char, i: int)
    requires
        0 <= i <= cs.len(),
        0 <= j < cs.len(),
        opens_with(cs[j].label(), c) == opens_with(x.label(), c),
    ensures
        branch_from(cs.update(j, x), c, i) == branch_from(cs, c, i),
    decreases cs.len() - i,
{
    if i < cs.len() {
        lemma_branch_update(cs, j, x, c, i + 1);
    }
}

/// Appending a child: the scan finds what it found before, else the new one.
pub proof fn lemma_branch_push<H>(cs: Seq<Router<H>>, x: Router<H>, c: char, i: int)
    requires
        0 <= i <= cs.len(),
    ensures
        branch_from(cs.push(x), c, i) == if branch_from(cs, c, i) < cs.len() {
            branch_from(cs, c, i)
        } else if opens_with(x.label(), c) {
            cs.len() as int
        } else {
            (cs.len() + 1) as int
        },
    decreases cs.len() - i,
{
    if i < cs.len() {
        assert(cs.push(x)[i] == cs[i]);
        lemma_branch_push(cs, x, c, i + 1);
    } else {
        assert(cs.push(x)[i] == x);
        if !opens_with(x.label(), c) {
            assert(branch_from(cs.push(x), c, i + 1) == cs.len() + 1);
        }
    }
}


/// A node without children is found at exactly its own label, with no
/// wildcard below it.
pub proof fn lemma_leaf_probe<H>(e: Router<H>, r: Seq<char>)
    requires
        e.kids().len() == 0,
    ensures
        e.probe(r) == if r == e.label() {
            (e.handler, false)
        } else {
            (None, false)
        },
{
    assert(!e.has_star());
    if e.label().is_prefix_of(r) {
        if r.skip(e.label().len() as int).len() == 0 {
            assert(r =~= e.label());
        }
    } else {
        assert(r != e.label());
    }
}

/// Two paths that share a prefix of length `n` are equal exactly when what
/// follows the prefix is equal.
pub proof fn lemma_same_after_prefix(a: Seq<char>, b: Seq<char>, n: int)
    requires
        0 <= n <= a.len(),
        n <= b.len(),
        a.take(n) =~= b.take(n),
    ensures
        (a == b) == (a.skip(n) == b.skip(n)),
{
    if a.skip(n) == b.skip(n) {
        assert(a.skip(n).len() == a.len() - n);
        assert(b.skip(n).len() == b.len() - n);
        assert forall|i: int| 0 <= i < a.len() implies a[i] == b[i] by {
            if i < n {
                assert(a.take(n)[i] == b.take(n)[i]);
            } else {
                assert(a.skip(n)[i - n] == b.skip(n)[i - n]);
            }
        }
        assert(a =~= b);
    }
}

/// A node without `*` in its label whose children are all tidy, with
/// non-empty labels, is tidy.
pub proof fn lemma_tidy_node<H>(u: Router<H>)
    requires
        !u.label().contains('*'),
        forall|i: int|
            0 <= i < u.kids().len() ==> (#[trigger] u.kids()[i]).label().len() > 0
                && u.kids()[i].tidy(),
    ensures
        u.tidy(),
{
}

/// Setting the handler of a node changes the registration of its own label
/// only.
pub proof fn lemma_overwrite<H>(t: Router<H>, u: Router<H>, h: H)
    requires
        u.label() == t.label(),
        u.kids() == t.kids(),
        u.handler == Some(h),
    ensures
        forall|k: Seq<char>|
            #[trigger] u.probe(k) == if k == t.label() {
                (Some(h), t.probe(k).1)
            } else {
                t.probe(k)
            },
{
    assert(u.has_star() == t.has_star());
    assert forall|k: Seq<char>|
        #[trigger] u.probe(k) == if k == t.label() {
            (Some(h), t.probe(k).1)
        } else {
            t.probe(k)
        } by {
        if t.label().is_prefix_of(k) && k.skip(t.label().len() as int).len() == 0 {
            assert(k =~= t.label());
        }
        if k == t.label() {
            assert(t.label().is_prefix_of(k));
        }
    }
}

/// Appending a leaf for the rest of `p`, where no child begins like it,
/// registers `p` and keeps all other registrations.
pub proof fn lemma_append<H>(t: Router<H>, u: Router<H>, p: Seq<char>, e: Router<H>)
    requires
        t.label().is_prefix_of(p),
        p.len() > t.label().len(),
        forall|i: int|
            0 <= i < t.kids().len() ==> !opens_with(
                #[trigger] t.kids()[i].label(),
                p[t.label().len() as int],
            ),
        u.label() == t.label(),
        u.handler == t.handler,
        u.kids() == t.kids().push(e),
        e.label() == p.skip(t.label().len() as int),
        e.kids().len() == 0,
        !p.contains('*'),
    ensures
        t.probe(p) == (None::<H>, false),
        forall|k: Seq<char>|
            #[trigger] u.probe(k) == if k == p {
                (e.handler, false)
            } else {
                t.probe(k)
            },
{
    let n = t.label().len() as int;
    assert(e.label()[0] == p[n]);
    assert(e.label() != seq!['*']) by {
        if e.label() == seq!['*'] {
            assert(p[n] == '*');
            assert(p.contains('*'));
        }
    }
    assert(u.has_star() == t.has_star()) by {
        if u.has_star() {
            let i = choose|i: int| 0 <= i < u.kids().len() && (#[trigger] u.kids()[i]).label() == seq!['*'];
            assert(t.kids()[i] == u.kids()[i]);
        }
        if t.has_star() {
            let i = choose|i: int| 0 <= i < t.kids().len() && (#[trigger] t.kids()[i]).label() == seq!['*'];
            assert(u.kids()[i] == t.kids()[i]);
        }
    }
    assert forall|k: Seq<char>|
        #[trigger] u.probe(k) == if k == p {
            (e.handler, false)
        } else {
            t.probe(k)
        } by {
        if t.label().is_prefix_of(k) {
            let r = k.skip(n);
            lemma_same_after_prefix(k, p, n);
            if r.len() > 0 {
                lemma_branch_push(t.kids(), e, r[0], 0);
                lemma_branch_from(t.kids(), r[0], 0);
                lemma_leaf_probe(e, r);
                if r[0] == p[n] {
                    lemma_branch_none(t.kids(), r[0]);
                }
                assert(u.kids()[t.kids().len() as int] == e);
                let b = branch_from(t.kids(), r[0], 0);
                if b < t.kids().len() {
                    assert(u.kids()[b] == t.kids()[b]);
                }
            }
        } else {
            assert(k != p);
        }
    }
    lemma_branch_none(t.kids(), p[n]);
    assert(p.skip(n).len() > 0);
}

/// Registering below the child that begins like the rest of `p`: where the
/// child's registrations change only at the rest of `p`, to `x`, this
/// node's change only at `p`, to `x`.
pub proof fn lemma_descend<H>(
    t: Router<H>,
    u: Router<H>,
    p: Seq<char>,
    x: (Option<H>, bool),
    j: int,
    c: Router<H>,
)
    requires
        t.wf(),
        t.label().is_prefix_of(p),
        p.len() > t.label().len(),
        0 <= j < t.kids().len(),
        opens_with(t.kids()[j].label(), p[t.label().len() as int]),
        opens_with(c.label(), p[t.label().len() as int]),
        t.kids()[j].label() != seq!['*'],
        c.label() != seq!['*'],
        forall|r: Seq<char>|
            #[trigger] c.probe(r) == if r == p.skip(t.label().len() as int) {
                x
            } else {
                t.kids()[j].probe(r)
            },
        u.label() == t.label(),
        u.handler == t.handler,
        u.kids() == t.kids().update(j, c),
    ensures
        t.probe(p) == t.kids()[j].probe(p.skip(t.label().len() as int)),
        forall|k: Seq<char>|
            #[trigger] u.probe(k) == if k == p {
                x
            } else {
                t.probe(k)
            },
{
    let n = t.label().len() as int;
    assert(u.has_star() == t.has_star()) by {
        if u.has_star() {
            let i = choose|i: int| 0 <= i < u.kids().len() && (#[trigger] u.kids()[i]).label() == seq!['*'];
            assert(t.kids()[i] == u.kids()[i]);
        }
        if t.has_star() {
            let i = choose|i: int| 0 <= i < t.kids().len() && (#[trigger] t.kids()[i]).label() == seq!['*'];
            assert(u.kids()[i] == t.kids()[i]);
        }
    }
    lemma_branch_unique(t, p[n], j);
    assert forall|k: Seq<char>|
        #[trigger] u.probe(k) == if k == p {
            x
        } else {
            t.probe(k)
        } by {
        if t.label().is_prefix_of(k) {
            let r = k.skip(n);
            lemma_same_after_prefix(k, p, n);
            if r.len() > 0 {
                lemma_branch_update(t.kids(), j, c, r[0], 0);
                lemma_branch_from(t.kids(), r[0], 0);
                assert(u.kids()[j] == c);
                let b = branch_from(t.kids(), r[0], 0);
                if r[0] == p[n] {
                    lemma_branch_unique(t, r[0], j);
                }
                assert(branch_from(u.kids(), r[0], 0) == b);
                if b == j {
                    assert(u.probe(k) == c.probe(r));
                    assert(t.probe(k) == t.kids()[j].probe(r));
                } else if b < t.kids().len() {
                    assert(u.kids()[b] == t.kids()[b]);
                    assert(u.probe(k) == t.probe(k));
                    assert(k != p);
                } else {
                    assert(u.probe(k) == t.probe(k));
                    assert(k != p);
                }
            } else {
                assert(u.probe(k) == t.probe(k));
                assert(k != p);
            }
        } else {
            assert(k != p);
        }
    }
}

/// A node pushed down below the common prefix answers, for the rest of a
/// key, as the node before the split answered for the key.
pub proof fn lemma_pushed_down<H>(t: Router<H>, d: Router<H>, n: int, k: Seq<char>)
    requires
        0 <= n < t.label().len(),
        d.label() == t.label().skip(n),
        d.handler == t.handler,
        d.kids() == t.kids(),
        t.label().take(n).is_prefix_of(k),
    ensures
        d.probe(k.skip(n)) == t.probe(k),
{
    let r = k.skip(n);
    let m = t.label().len() as int;
    assert(d.has_star() == t.has_star());
    if d.label().is_prefix_of(r) {
        assert forall|i: int| 0 <= i < m implies t.label()[i] == k[i] by {
            if i < n {
                assert(t.label().take(n)[i] == k.subrange(0, n)[i]);
            } else {
                assert(d.label()[i - n] == r.subrange(0, m - n)[i - n]);
            }
        }
        assert(t.label() =~= k.subrange(0, m));
        assert(r.skip(m - n) =~= k.skip(m));
    } else if t.label().is_prefix_of(k) {
        assert(d.label() =~= r.subrange(0, m - n));
    }
}

/// Splitting a node at the common prefix `n` of its label and `p` (a leaf
/// for the rest of `p`, or the handler on the shared node) registers `p`
/// and keeps all other registrations.
pub proof fn lemma_split<H>(t: Router<H>, u: Router<H>, p: Seq<char>, h: H, n: int, d: Router<H>)
    requires
        0 <= n < t.label().len(),
        n <= p.len(),
        t.label().take(n) =~= p.take(n),
        n < p.len() ==> t.label()[n] != p[n],
        !t.label().contains('*'),
        !p.contains('*'),
        u.label() == t.label().take(n),
        d.label() == t.label().skip(n),
        d.handler == t.handler,
        d.kids() == t.kids(),
        n == p.len() ==> u.handler == Some(h) && u.kids() == seq![d],
        n < p.len() ==> {
            &&& u.handler is None
            &&& u.kids().len() == 2
            &&& u.kids()[0] == d
            &&& u.kids()[1].label() == p.skip(n)
            &&& u.kids()[1].handler == Some(h)
            &&& u.kids()[1].kids().len() == 0
        },
    ensures
        forall|k: Seq<char>|
            #[trigger] u.probe(k) == if k == p {
                (Some(h), t.probe(k).1)
            } else {
                t.probe(k)
            },
{
    let l = t.label();
    assert(d.label() != seq!['*']) by {
        if d.label() == seq!['*'] {
            assert(l[n] == d.label()[0]);
        }
    }
    if n < p.len() {
        assert(u.kids()[1].label() != seq!['*']) by {
            if u.kids()[1].label() == seq!['*'] {
                assert(p.skip(n)[0] == '*');
                assert(p[n] == '*');
                assert(p.contains('*'));
            }
        }
    }
    assert(!u.has_star()) by {
        if u.has_star() {
            let i = choose|i: int| 0 <= i < u.kids().len() && (#[trigger] u.kids()[i]).label() == seq!['*'];
        }
    }
    assert(!l.is_prefix_of(p)) by {
        if l.is_prefix_of(p) && n < p.len() {
            assert(l[n] == p.subrange(0, l.len() as int)[n]);
        }
    }
    assert forall|k: Seq<char>|
        #[trigger] u.probe(k) == if k == p {
            (Some(h), t.probe(k).1)
        } else {
            t.probe(k)
        } by {
        if u.label().is_prefix_of(k) {
            let r = k.skip(n);
            lemma_same_after_prefix(k, p, n);
            lemma_pushed_down(t, d, n, k);
            if r.len() == 0 {
                assert(!l.is_prefix_of(k));
                assert(u.probe(k) == (u.handler, u.has_star()));
                if n == p.len() {
                    assert(r =~= p.skip(n));
                } else {
                    assert(k != p);
                }
            } else {
                if l.is_prefix_of(k) {
                    assert(l[n] == k[n]);
                }
                assert(r[0] == k[n]);
                assert(d.label()[0] == l[n]);
                assert(u.kids()[0] == d);
                lemma_branch_from(u.kids(), r[0], 0);
                let b = branch_from(u.kids(), r[0], 0);
                if r[0] == l[n] {
                    assert(b == 0);
                    assert(u.probe(k) == d.probe(r));
                    assert(k != p);
                } else if n < p.len() {
                    let e = u.kids()[1];
                    lemma_leaf_probe(e, r);
                    assert(e.label()[0] == p[n]);
                    if k == p {
                        assert(r[0] == p[n]);
                    }
                    if r[0] == p[n] {
                        assert(b == 1);
                        assert(u.probe(k) == e.probe(r));
                        assert(t.probe(k) == (None::<H>, false));
                    } else {
                        assert(!opens_with(u.kids()[1].label(), r[0]));
                        assert(b == 2);
                        assert(t.probe(k) == (None::<H>, false));
                        assert(k != p);
                    }
                } else {
                    assert(b == 1);
                    assert(t.probe(k) == (None::<H>, false));
                    assert(k != p);
                }
            }
        } else {
            assert(u.label().is_prefix_of(p));
            if l.is_prefix_of(k) {
                assert(u.label() =~= k.subrange(0, n));
            }
        }
    }
}

/// Giving a node without a wildcard child one marks its own label as a
/// wildcard prefix and changes nothing else.
pub proof fn lemma_add_star<H>(t: Router<H>, u: Router<H>, s: Router<H>)
    requires
        t.tidy(),
        !t.has_star(),
        s.is_star_leaf(),
        u.label() == t.label(),
        u.handler == t.handler,
        u.kids() == t.kids().push(s),
    ensures
        forall|i: int| 0 <= i < t.kids().len() ==> !opens_with(#[trigger] t.kids()[i].label(), '*'),
        forall|k: Seq<char>|
            #[trigger] u.probe(k) == if k == t.label() {
                (t.probe(k).0, true)
            } else {
                t.probe(k)
            },
{
    let n = t.label().len() as int;
    assert(u.kids()[t.kids().len() as int] == s);
    assert(u.has_star());
    assert forall|i: int| 0 <= i < t.kids().len() implies !opens_with(
        #[trigger] t.kids()[i].label(),
        '*',
    ) by {
        if opens_with(t.kids()[i].label(), '*') {
            assert(t.kids()[i].tidy());
            assert(t.kids()[i].label().contains('*'));
            assert(t.kids()[i].label() == seq!['*']);
        }
    }
    assert forall|k: Seq<char>|
        #[trigger] u.probe(k) == if k == t.label() {
            (t.probe(k).0, true)
        } else {
            t.probe(k)
        } by {
        if t.label().is_prefix_of(k) {
            let r = k.skip(n);
            if r.len() > 0 {
                lemma_branch_push(t.kids(), s, r[0], 0);
                lemma_branch_from(t.kids(), r[0], 0);
                lemma_leaf_probe(s, r);
                if r[0] == '*' {
                    lemma_branch_none(t.kids(), r[0]);
                }
                let b = branch_from(t.kids(), r[0], 0);
                if b < t.kids().len() {
                    assert(u.kids()[b] == t.kids()[b]);
                }
                assert(k != t.label());
            } else {
                assert(k =~= t.label());
            }
        } else {
            assert(k != t.label());
        }
    }
}

/// Where the label is not a prefix of the key, or all candidates are
/// shorter than the label, no wildcard prefix answers.
proof fn lemma_wildcard_none<H>(t: Router<H>, key: Seq<char>, n: int)
    requires
        n <= key.len(),
        !t.label().is_prefix_of(key) || n <= t.label().len(),
    ensures
        wildcard_answer(t, key, n) is None,
    decreases n,
{
    if n > 0 {
        let w = key.take(n - 1);
        if t.label().is_prefix_of(w) {
            assert(t.label() =~= key.subrange(0, t.label().len() as int));
        }
        lemma_wildcard_none(t, key, n - 1);
    }
}

/// The wildcard prefixes of `key` longer than the label of `t` are those of
/// the rest of `key` in the child that takes it.
proof fn lemma_wildcard_below<H>(t: Router<H>, key: Seq<char>, n: int)
    requires
        t.tidy(),
        t.label().is_prefix_of(key),
        t.label().len() < n <= key.len(),
    ensures
        ({
            let m = t.label().len() as int;
            let rest = key.skip(m);
            let b = branch_from(t.kids(), rest[0], 0);
            let base = if t.has_star() && t.handler is Some {
                t.handler
            } else {
                None
            };
            wildcard_answer(t, key, n) == if 0 <= b < t.kids().len() && wildcard_answer(
                t.kids()[b],
                rest,
                n - m,
            ) is Some {
                wildcard_answer(t.kids()[b], rest, n - m)
            } else {
                base
            }
        }),
    decreases n,
{
    let m = t.label().len() as int;
    let rest = key.skip(m);
    let b = branch_from(t.kids(), rest[0], 0);
    let w = key.take(n - 1);
    assert(t.label() =~= key.subrange(0, m));
    if n == m + 1 {
        assert(w =~= t.label());
        assert(w.skip(m).len() == 0);
        lemma_wildcard_none(t, key, m);
        if 0 <= b < t.kids().len() {
            let c = t.kids()[b];
            assert(c.label().len() > 0);
            assert(!c.label().is_prefix_of(rest.take(0)));
            assert(wildcard_answer(c, rest, 1) == wildcard_answer(c, rest, 0));
        }
    } else {
        lemma_wildcard_below(t, key, n - 1);
        assert(t.label().is_prefix_of(w));
        assert(w.skip(m) =~= rest.take(n - 1 - m));
        assert(w.skip(m)[0] == rest[0]);
        lemma_branch_from(t.kids(), rest[0], 0);
    }
}

/// A lookup answers as `answer` says.
pub proof fn lemma_lookup_answer<H>(t: Router<H>, key: Seq<char>)
    requires
        t.wf(),
        t.tidy(),
        key.len() > 0,
    ensures
        t.lookup(key) == answer(t, key),
    decreases t,
{
    let m = t.label().len() as int;
    if !t.label().is_prefix_of(key) {
        lemma_wildcard_none(t, key, key.len() as int);
    } else {
        let rest = key.skip(m);
        if rest.len() == 0 {
            lemma_wildcard_none(t, key, key.len() as int);
        } else {
            let b = branch_from(t.kids(), rest[0], 0);
            lemma_branch_from(t.kids(), rest[0], 0);
            lemma_wildcard_below(t, key, key.len() as int);
            if 0 <= b < t.kids().len() {
                let c = t.kids()[b];
                assert(c.wf());
                assert(c.tidy());
                lemma_lookup_answer(c, rest);
            }
        }
    }
}

/// A part of a path without `*` holds no `*` either.
pub proof fn lemma_no_star_within(s: Seq<char>, a: int, b: int)
    requires
        0 <= a <= b <= s.len(),
        !s.contains('*'),
    ensures
        !s.subrange(a, b).contains('*'),
{
    if s.subrange(a, b).contains('*') {
        let i = choose|i: int| 0 <= i < b - a && s.subrange(a, b)[i] == '*';
        assert(s[a + i] == '*');
    }
}

} // verus!
