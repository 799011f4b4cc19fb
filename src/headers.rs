//! The header vocabulary and the header mapping.
use crate::text::same_text;
use vstd::prelude::*;
use vstd::string::*;
use vstd::utf8::encode_utf8;

verus! {

/// The recognised header fields; anything else is `Undefined`.
#[derive(Clone, Copy, Debug, PartialEq, Eq, Hash, Structural)]
pub enum HeaderField {
    // Request headers
    Accept,
    Host,
    UserAgent,
    // Entity headers
    ContentLength,
    ContentType,
    // Unrecognised header field
    Undefined,
}

/// The wire name of a header field; `Undefined` has none.
pub open spec fn field_text(f: HeaderField) -> Seq<char> {
    match f {
        HeaderField::Accept => "Accept"@,
        HeaderField::Host => "Host"@,
        HeaderField::UserAgent => "User-Agent"@,
        HeaderField::ContentLength => "Content-Length"@,
        HeaderField::ContentType => "Content-Type"@,
        HeaderField::Undefined => Seq::empty(),
    }
}

/// The header field that a wire name stands for.
pub open spec fn field_of(s: Seq<char>) -> HeaderField {
    if s == "Accept"@ {
        HeaderField::Accept
    } else if s == "Host"@ {
        HeaderField::Host
    } else if s == "User-Agent"@ {
        HeaderField::UserAgent
    } else if s == "Content-Length"@ {
        HeaderField::ContentLength
    } else if s == "Content-Type"@ {
        HeaderField::ContentType
    } else {
        HeaderField::Undefined
    }
}

/// Reading the wire name of a recognised field gives the field back.
pub proof fn lemma_field_text_round_trip(f: HeaderField)
    requires
        f != HeaderField::Undefined,
    ensures
        field_of(field_text(f)) == f,
{
    reveal_strlit("Accept");
    reveal_strlit("Host");
    reveal_strlit("User-Agent");
    reveal_strlit("Content-Length");
    reveal_strlit("Content-Type");
    assert("Accept"@[0] != "Host"@[0]);
    assert("User-Agent"@[0] != "Content-Length"@[0]);
    assert("Content-Length"@[8] != "Content-Type"@[8]);
}

impl HeaderField {
    /// The field that `s` names; unrecognised names give `Undefined`.
    pub fn from_str(s: &str) -> (r: HeaderField)
        ensures
            r == field_of(s@),
    {
        if same_text(s, "Accept") {
            HeaderField::Accept
        } else if same_text(s, "Host") {
            HeaderField::Host
        } else if same_text(s, "User-Agent") {
            HeaderField::UserAgent
        } else if same_text(s, "Content-Length") {
            HeaderField::ContentLength
        } else if same_text(s, "Content-Type") {
            HeaderField::ContentType
        } else {
            HeaderField::Undefined
        }
    }

    /// The wire name of this field.
    pub fn as_text(&self) -> (r: &'static str)
        ensures
            r@ == field_text(*self),
    {
        match self {
            HeaderField::Accept => "Accept",
            HeaderField::Host => "Host",
            HeaderField::UserAgent => "User-Agent",
            HeaderField::ContentLength => "Content-Length",
            HeaderField::ContentType => "Content-Type",
            HeaderField::Undefined => {
                proof {
                    reveal_strlit("");
                    assert(""@ =~= Seq::<char>::empty());
                }
                ""
            },
        }
    }

    /// The wire name of this field as bytes.
    pub fn to_bytes(&self) -> (r: Vec<u8>)
        ensures
            r@ == encode_utf8(field_text(*self)),
    {
        self.as_text().as_bytes_vec()
    }
}

/// The mapping that a list of entries stands for; a later entry for the
/// same field wins.
pub open spec fn map_of(ps: Seq<(HeaderField, Seq<char>)>) -> Map<HeaderField, Seq<char>>
    decreases ps.len(),
{
    if ps.len() == 0 {
        Map::empty()
    } else {
        map_of(ps.drop_last()).insert(ps.last().0, ps.last().1)
    }
}

/// No two entries name the same field.
pub open spec fn keys_unique(ps: Seq<(HeaderField, Seq<char>)>) -> bool {
    forall|i: int, j: int| 0 <= i < j < ps.len() ==> #[trigger] ps[i].0 != #[trigger] ps[j].0
}

/// The text of one header line.
pub open spec fn header_line(f: HeaderField, v: Seq<char>) -> Seq<char> {
    field_text(f) + ": "@ + v + "\r\n"@
}

/// The header lines of a list of entries, in order.
pub open spec fn header_block(ps: Seq<(HeaderField, Seq<char>)>) -> Seq<char>
    decreases ps.len(),
{
    if ps.len() == 0 {
        Seq::empty()
    } else {
        header_block(ps.drop_last()) + header_line(ps.last().0, ps.last().1)
    }
}

/// A field is in the mapping exactly when some entry names it, and with
/// unique fields the mapping gives that entry's value.
pub proof fn lemma_map_of_entry(ps: Seq<(HeaderField, Seq<char>)>, f: HeaderField)
    ensures
        map_of(ps).contains_key(f) <==> exists|i: int| 0 <= i < ps.len() && #[trigger] ps[i].0 == f,
        keys_unique(ps) ==> forall|i: int|
            0 <= i < ps.len() && #[trigger] ps[i].0 == f ==> map_of(ps)[f] == ps[i].1,
    decreases ps.len(),
{
    if ps.len() > 0 {
        let q = ps.drop_last();
        lemma_map_of_entry(q, f);
        if map_of(q).contains_key(f) {
            let i = choose|i: int| 0 <= i < q.len() && #[trigger] q[i].0 == f;
            assert(ps[i].0 == f);
        }
        if exists|i: int| 0 <= i < ps.len() && #[trigger] ps[i].0 == f {
            let i = choose|i: int| 0 <= i < ps.len() && #[trigger] ps[i].0 == f;
            if i < ps.len() - 1 {
                assert(q[i].0 == f);
            }
        }
        if keys_unique(ps) {
            assert forall|i: int| 0 <= i < ps.len() && #[trigger] ps[i].0 == f implies map_of(
                ps,
            )[f] == ps[i].1 by {
                if i < ps.len() - 1 {
                    assert(q[i].0 == f);
                    assert(ps[i].0 != ps[ps.len() - 1].0);
                }
            }
        }
    }
}

/// Overwriting the value of one entry overwrites it in the mapping.
pub proof fn lemma_map_of_update(ps: Seq<(HeaderField, Seq<char>)>, i: int, v: Seq<char>)
    requires
        keys_unique(ps),
        0 <= i < ps.len(),
    ensures
        map_of(ps.update(i, (ps[i].0, v))) == map_of(ps).insert(ps[i].0, v),
    decreases ps.len(),
{
    let f = ps[i].0;
    let us = ps.update(i, (f, v));
    if i == ps.len() - 1 {
        assert(us.drop_last() =~= ps.drop_last());
        assert(map_of(ps).insert(f, v) =~= map_of(ps.drop_last()).insert(f, v));
    } else {
        let q = ps.drop_last();
        assert(us.drop_last() =~= q.update(i, (f, v)));
        lemma_map_of_update(q, i, v);
        assert(ps.last().0 != f);
        assert(map_of(us) =~= map_of(ps).insert(f, v));
    }
}

/// A header mapping: at most one value per field, never `Undefined`. The
/// entries keep the order in which their fields were first inserted.
#[derive(Debug)]
pub struct HeaderMap {
    entries: Vec<(HeaderField, String)>,
}

impl HeaderMap {
    #[verifier::type_invariant]
    spec fn entries_valid(self) -> bool {
        &&& keys_unique(self.pairs())
        &&& forall|i: int| 0 <= i < self.pairs().len() ==> #[trigger] self.pairs()[i].0 != HeaderField::Undefined
    }

    /// The entries, in order.
    pub closed spec fn pairs(self) -> Seq<(HeaderField, Seq<char>)> {
        self.entries@.map_values(|e: (HeaderField, String)| (e.0, e.1@))
    }

    /// An empty mapping.
    pub fn new() -> (r: Self)
        ensures
            r@ == Map::<HeaderField, Seq<char>>::empty(),
            r.pairs() == Seq::<(HeaderField, Seq<char>)>::empty(),
    {
        let r = HeaderMap { entries: Vec::new() };
        proof {
            assert(r.pairs() =~= Seq::<(HeaderField, Seq<char>)>::empty());
        }
        r
    }

    /// Position of the entry for `field`, if there is one.
    fn position(&self, field: HeaderField) -> (r: Option<usize>)
        ensures
            r matches Some(i) ==> i < self.pairs().len() && self.pairs()[i as int].0 == field,
            r is None ==> forall|i: int| 0 <= i < self.pairs().len() ==> #[trigger] self.pairs()[i].0 != field,
    {
        let mut i: usize = 0;
        while i < self.entries.len()
            invariant
                i <= self.pairs().len(),
                self.pairs().len() == self.entries@.len(),
                forall|k: int| 0 <= k < i ==> #[trigger] self.pairs()[k].0 != field,
            decreases self.entries.len() - i,
        {
            if self.entries[i].0 == field {
                return Some(i);
            }
            i += 1;
        }
        None
    }

    /// The value for `field`, if it is in the mapping.
    pub fn get(&self, field: HeaderField) -> (r: Option<&String>)
        ensures
            r is Some <==> self@.contains_key(field),
            r matches Some(v) ==> self@[field] == v@,
    {
        proof {
            use_type_invariant(self);
            lemma_map_of_entry(self.pairs(), field);
        }
        match self.position(field) {
            Some(i) => Some(&self.entries[i].1),
            None => None,
        }
    }

    /// Number of entries.
    pub fn len(&self) -> (r: usize)
        ensures
            r == self.pairs().len(),
    {
        self.entries.len()
    }

    /// The entry at `i`, in order.
    pub fn entry(&self, i: usize) -> (r: (HeaderField, &String))
        requires
            i < self.pairs().len(),
        ensures
            r.0 == self.pairs()[i as int].0,
            r.1@ == self.pairs()[i as int].1,
    {
        (self.entries[i].0, &self.entries[i].1)
    }

    /// Sets the value of `field`: an existing entry keeps its place and
    /// takes the new value, a new field is appended.
    pub fn insert(&mut self, field: HeaderField, value: String)
        requires
            field != HeaderField::Undefined,
        ensures
            final(self)@ == old(self)@.insert(field, value@),
            old(self)@.contains_key(field) ==> exists|i: int|
                0 <= i < old(self).pairs().len() && #[trigger] old(self).pairs()[i].0 == field
                    && final(self).pairs() == old(self).pairs().update(i, (field, value@)),
            !old(self)@.contains_key(field) ==> final(self).pairs() == old(self).pairs().push(
                (field, value@),
            ),
    {
        proof {
            use_type_invariant(&*self);
            lemma_map_of_entry(self.pairs(), field);
        }
        let ghost ps = self.pairs();
        let mut entries = self.copied_entries();
        match self.position(field) {
            Some(i) => {
                entries.remove(i);
                entries.insert(i, (field, value));
                proof {
                    assert(entries@.map_values(|e: (HeaderField, String)| (e.0, e.1@)) =~= ps.update(
                        i as int,
                        (field, value@),
                    ));
                    lemma_map_of_update(ps, i as int, value@);
                    assert(ps[i as int].0 == field);
                }
            },
            None => {
                entries.push((field, value));
                proof {
                    assert(entries@.map_values(|e: (HeaderField, String)| (e.0, e.1@)) =~= ps.push(
                        (field, value@),
                    ));
                    assert(ps.push((field, value@)).drop_last() =~= ps);
                }
            },
        }
        *self = HeaderMap { entries };
    }

    /// A copy of the entries.
    fn copied_entries(&self) -> (r: Vec<(HeaderField, String)>)
        ensures
            r@.map_values(|e: (HeaderField, String)| (e.0, e.1@)) == self.pairs(),
    {
        let mut r: Vec<(HeaderField, String)> = Vec::new();
        let mut i: usize = 0;
        while i < self.entries.len()
            invariant
                i <= self.entries@.len(),
                r@.map_values(|e: (HeaderField, String)| (e.0, e.1@)) =~= self.pairs().take(i as int),
            decreases self.entries.len() - i,
        {
            let field = self.entries[i].0;
            let value = self.entries[i].1.clone();
            let ghost before = r@.map_values(|e: (HeaderField, String)| (e.0, e.1@));
            r.push((field, value));
            proof {
                assert(r@.map_values(|e: (HeaderField, String)| (e.0, e.1@)) =~= before.push(
                    (field, value@),
                ));
                assert(self.pairs().take(i + 1) =~= self.pairs().take(i as int).push(
                    self.pairs()[i as int],
                ));
            }
            i += 1;
        }
        proof {
            assert(self.pairs().take(i as int) =~= self.pairs());
        }
        r
    }
}

impl HeaderMap {
    /// Whether both mappings agree on `field`.
    fn agrees_on(&self, other: &HeaderMap, field: HeaderField) -> (r: bool)
        ensures
            r == (self@.contains_key(field) == other@.contains_key(field) && (self@.contains_key(
                field,
            ) ==> self@[field] == other@[field])),
    {
        match (self.get(field), other.get(field)) {
            (Some(a), Some(b)) => same_text(a.as_str(), b.as_str()),
            (None, None) => true,
            _ => false,
        }
    }
}

impl PartialEq for HeaderMap {
    fn eq(&self, other: &HeaderMap) -> (r: bool) {
        let r = self.agrees_on(other, HeaderField::Accept) && self.agrees_on(other, HeaderField::Host)
            && self.agrees_on(other, HeaderField::UserAgent) && self.agrees_on(
            other,
            HeaderField::ContentLength,
        ) && self.agrees_on(other, HeaderField::ContentType) && self.agrees_on(
            other,
            HeaderField::Undefined,
        );
        proof {
            if r {
                assert(self@ =~= other@);
            }
        }
        r
    }
}

impl vstd::std_specs::cmp::PartialEqSpecImpl for HeaderMap {
    open spec fn obeys_eq_spec() -> bool {
        true
    }

    open spec fn eq_spec(&self, other: &HeaderMap) -> bool {
        self@ == other@
    }
}

impl Clone for HeaderMap {
    fn clone(&self) -> Self {
        proof {
            use_type_invariant(self);
        }
        HeaderMap { entries: self.copied_entries() }
    }
}

impl View for HeaderMap {
    type V = Map<HeaderField, Seq<char>>;

    open spec fn view(&self) -> Map<HeaderField, Seq<char>> {
        map_of(self.pairs())
    }
}

/// The header lines of `headers` as bytes: `field: value` and a CRLF for
/// each entry, in the mapping's order.
pub fn to_vec(headers: &HeaderMap) -> (r: Vec<u8>)
    ensures
        r@ == encode_utf8(header_block(headers.pairs())),
        keys_unique(headers.pairs()),
        forall|i: int|
            0 <= i < headers.pairs().len() ==> #[trigger] headers.pairs()[i].0
                != HeaderField::Undefined,
        forall|f: HeaderField|
            headers@.contains_key(f) <==> exists|i: int|
                0 <= i < headers.pairs().len() && #[trigger] headers.pairs()[i].0 == f,
        forall|i: int|
            0 <= i < headers.pairs().len() ==> headers@[#[trigger] headers.pairs()[i].0]
                == headers.pairs()[i].1,
{
    proof {
        use_type_invariant(headers);
        assert forall|f: HeaderField|
            headers@.contains_key(f) <==> exists|i: int|
                0 <= i < headers.pairs().len() && #[trigger] headers.pairs()[i].0 == f by {
            lemma_map_of_entry(headers.pairs(), f);
        }
        assert forall|i: int|
            0 <= i < headers.pairs().len() implies headers@[#[trigger] headers.pairs()[i].0]
            == headers.pairs()[i].1 by {
            lemma_map_of_entry(headers.pairs(), headers.pairs()[i].0);
        }
    }
    let mut text = String::new();
    let mut i: usize = 0;
    while i < headers.len()
        invariant
            i <= headers.pairs().len(),
            text@ == header_block(headers.pairs().take(i as int)),
        decreases headers.pairs().len() - i,
    {
        let (field, value) = headers.entry(i);
        let ghost before = text@;
        text.append(field.as_text());
        text.append(": ");
        text.append(value.as_str());
        text.append("\r\n");
        proof {
            let ps = headers.pairs();
            assert(ps.take(i + 1).drop_last() =~= ps.take(i as int));
            assert(text@ =~= before + header_line(ps[i as int].0, ps[i as int].1));
        }
        i += 1;
    }
    proof {
        assert(headers.pairs().take(i as int) =~= headers.pairs());
    }
    text.as_str().as_bytes_vec()
}

} // verus!
