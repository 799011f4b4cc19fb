//! Responses and their wire form.
use crate::headers::{
    field_text, header_block, header_line, lemma_field_text_round_trip, map_of, to_vec, HeaderField,
    HeaderMap,
};
use crate::request::{headers_from, headers_result, RequestParseError};
use crate::status::{reason_text, status_code, Status};
use crate::text::{
    decimal, decimal_text, decimal_value, lemma_decimal_digits, lemma_decimal_round_trip,
    lemma_encode_utf8_concat, lemma_split_after, lemma_split_single, split_text,
};
use vstd::prelude::*;
use vstd::string::*;
use vstd::utf8::encode_utf8;

verus! {

/// A response: status, headers and an optional body.
#[derive(Debug)]
pub struct Response {
    pub status_code: u16,
    pub reason_phrase: String,
    pub body: Option<Vec<u8>>,
    pub headers: HeaderMap,
}

/// The status line `HTTP/1.1 <code> <reason>` and its CRLF.
pub open spec fn status_line(code: u16, reason: Seq<char>) -> Seq<char> {
    "HTTP/1.1 "@ + decimal(code as nat) + " "@ + reason + "\r\n"@
}

/// The bytes of a body, or none.
pub open spec fn body_bytes(body: Option<Vec<u8>>) -> Seq<u8> {
    match body {
        Some(b) => b@,
        None => Seq::empty(),
    }
}

/// The wire form of a response: the status line, the header lines, a blank
/// line, then the body.
pub open spec fn wire_bytes(r: Response) -> Seq<u8> {
    encode_utf8(status_line(r.status_code, r.reason_phrase@) + header_block(r.headers.pairs())
        + "\r\n"@) + body_bytes(r.body)
}

/// Reading back a serialized response that `new(status)` and then
/// `set_body(body)` made: its wire form is a text head and the body's
/// bytes; the first line of the head carries the status code as its second
/// word; the remaining lines parse, as request header lines do, to the
/// response's headers, whose `Content-Length` reads as the body's length in
/// bytes.
pub proof fn lemma_response_round_trip(status: Status, body: Seq<char>, r: Response)
    requires
        r.status_code == status_code(status),
        r.reason_phrase@ == reason_text(status),
        r.body matches Some(b) && b@ == encode_utf8(body),
        r.headers.pairs() == seq![
            (HeaderField::ContentLength, decimal(encode_utf8(body).len())),
            (HeaderField::ContentType, "text/html"@),
        ],
    ensures
        ({
            let head = status_line(r.status_code, r.reason_phrase@) + header_block(r.headers.pairs())
                + "\r\n"@;
            let lines = split_text(head, "\r\n"@);
            &&& wire_bytes(r) == encode_utf8(head) + encode_utf8(body)
            &&& lines.len() == 5
            &&& decimal_value(split_text(lines[0], " "@)[1]) == status_code(status)
            &&& headers_result(lines.drop_first()) == Ok::<_, RequestParseError>(r.headers@)
            &&& decimal_value(r.headers@[HeaderField::ContentLength]) == encode_utf8(body).len()
        }),
{
    let crlf = "\r\n"@;
    let sp = " "@;
    let colon = ": "@;
    reveal_strlit("\r\n");
    reveal_strlit(" ");
    reveal_strlit(": ");
    reveal_strlit("HTTP/1.1 ");
    reveal_strlit("HTTP/1.1");
    reveal_strlit("OK");
    reveal_strlit("Not Found");
    reveal_strlit("Content-Length");
    reveal_strlit("Content-Type");
    reveal_strlit("text/html");
    let d = decimal(r.status_code as nat);
    let n = encode_utf8(body).len();
    let dn = decimal(n);
    let reason = r.reason_phrase@;
    lemma_decimal_digits(r.status_code as nat);
    lemma_decimal_digits(n);
    lemma_decimal_round_trip(r.status_code as nat);
    lemma_decimal_round_trip(n);
    // The lines of the head.
    let s0 = "HTTP/1.1 "@ + d + sp + reason;
    let l1 = "Content-Length"@ + colon + dn;
    let l2 = "Content-Type"@ + colon + "text/html"@;
    let ps = r.headers.pairs();
    assert(ps.drop_last() =~= seq![ps[0]]);
    assert(seq![ps[0]].drop_last() =~= Seq::<(HeaderField, Seq<char>)>::empty());
    assert(header_block(Seq::<(HeaderField, Seq<char>)>::empty()) == Seq::<char>::empty());
    assert(header_block(seq![ps[0]]) =~= header_line(ps[0].0, ps[0].1));
    assert(header_block(ps) =~= l1 + crlf + l2 + crlf);
    let head = status_line(r.status_code, reason) + header_block(ps) + crlf;
    let empty = Seq::<char>::empty();
    assert(head =~= s0 + crlf + (l1 + crlf + (l2 + crlf + (empty + crlf + empty))));
    assert forall|j: int| 0 <= j < s0.len() implies s0[j] != crlf[0] by {
        if j >= 9 && j < 9 + d.len() {
            assert(s0[j] == d[j - 9]);
        }
    }
    assert forall|j: int| 0 <= j < l1.len() implies l1[j] != crlf[0] by {
        if j >= 16 {
            assert(l1[j] == dn[j - 16]);
        }
    }
    assert forall|j: int| 0 <= j < l2.len() implies l2[j] != crlf[0] by {}
    lemma_split_single(empty, crlf);
    lemma_split_after(empty, crlf, empty);
    lemma_split_after(l2, crlf, empty + crlf + empty);
    lemma_split_after(l1, crlf, l2 + crlf + (empty + crlf + empty));
    lemma_split_after(s0, crlf, l1 + crlf + (l2 + crlf + (empty + crlf + empty)));
    let lines = split_text(head, crlf);
    assert(lines =~= seq![s0, l1, l2, empty, empty]);
    // The status line.
    assert(s0 =~= "HTTP/1.1"@ + sp + (d + sp + reason));
    assert forall|j: int| 0 <= j < d.len() implies d[j] != sp[0] by {}
    lemma_split_after(d, sp, reason);
    lemma_split_after("HTTP/1.1"@, sp, d + sp + reason);
    assert(split_text(s0, sp)[1] == d);
    // The header lines.
    assert forall|j: int| 0 <= j < dn.len() implies dn[j] != colon[0] by {}
    lemma_split_single(dn, colon);
    lemma_split_after("Content-Length"@, colon, dn);
    lemma_split_single("text/html"@, colon);
    lemma_split_after("Content-Type"@, colon, "text/html"@);
    lemma_field_text_round_trip(HeaderField::ContentLength);
    lemma_field_text_round_trip(HeaderField::ContentType);
    let hl = lines.drop_first();
    assert(hl =~= seq![l1, l2, empty, empty]);
    let m1 = Map::<HeaderField, Seq<char>>::empty().insert(HeaderField::ContentLength, dn);
    let m2 = m1.insert(HeaderField::ContentType, "text/html"@);
    assert(split_text(l1, colon) =~= seq!["Content-Length"@, dn]);
    assert(split_text(l2, colon) =~= seq!["Content-Type"@, "text/html"@]);
    assert(headers_from(hl, 2, m2) == Ok::<_, RequestParseError>(m2));
    assert(headers_from(hl, 1, m1) == headers_from(hl, 2, m2));
    assert(headers_from(hl, 0, Map::empty()) == headers_from(hl, 1, m1));
    assert(map_of(Seq::<(HeaderField, Seq<char>)>::empty()) == Map::<HeaderField, Seq<char>>::empty());
    assert(ps[0] == (HeaderField::ContentLength, dn));
    assert(map_of(seq![ps[0]]) =~= m1);
    assert(map_of(ps) =~= m2);
    assert(m2[HeaderField::ContentLength] == dn);
}

impl Response {
    /// A response with the given status, no headers and no body.
    pub fn new(status: Status) -> (r: Self)
        ensures
            r.status_code == status_code(status),
            r.reason_phrase@ == reason_text(status),
            r.body is None,
            r.headers@ == Map::<HeaderField, Seq<char>>::empty(),
            r.headers.pairs() == Seq::<(HeaderField, Seq<char>)>::empty(),
    {
        let (status_code, reason_phrase) = status.code_and_reason();
        Response { status_code, reason_phrase, body: None, headers: HeaderMap::new() }
    }

    /// Sets the body, with its `Content-Length` (in bytes) and a
    /// `Content-Type` of `text/html`.
    pub fn set_body(&mut self, body: String)
        ensures
            final(self).status_code == old(self).status_code,
            final(self).reason_phrase == old(self).reason_phrase,
            final(self).body matches Some(b) && b@ == encode_utf8(body@),
            final(self).headers@ == old(self).headers@.insert(
                HeaderField::ContentLength,
                decimal(encode_utf8(body@).len()),
            ).insert(HeaderField::ContentType, "text/html"@),
            old(self).headers.pairs().len() == 0 ==> final(self).headers.pairs() == seq![
                (HeaderField::ContentLength, decimal(encode_utf8(body@).len())),
                (HeaderField::ContentType, "text/html"@),
            ],
    {
        let bytes = body.as_str().as_bytes_vec();
        let length = bytes.len();
        proof {
            if self.headers.pairs().len() == 0 {
                assert(self.headers.pairs() =~= Seq::<(HeaderField, Seq<char>)>::empty());
            }
        }
        self.headers.insert(HeaderField::ContentLength, decimal_text(length as u64));
        proof {
            if old(self).headers.pairs().len() == 0 {
                assert(!self.headers@.contains_key(HeaderField::ContentType));
            }
        }
        self.headers.insert(HeaderField::ContentType, "text/html".to_owned());
        self.body = Some(bytes);
    }

    /// The wire form of this response.
    pub fn into_bytes(self) -> (r: Vec<u8>)
        ensures
            r@ == wire_bytes(self),
    {
        let mut head = "HTTP/1.1 ".to_owned();
        head.append(decimal_text(self.status_code as u64).as_str());
        head.append(" ");
        head.append(self.reason_phrase.as_str());
        head.append("\r\n");
        let mut response = head.as_str().as_bytes_vec();
        let mut header_bytes = to_vec(&self.headers);
        response.append(&mut header_bytes);
        let mut blank = "\r\n".as_bytes_vec();
        response.append(&mut blank);
        let ghost r = self;
        proof {
            let s = status_line(r.status_code, r.reason_phrase@);
            let h = header_block(r.headers.pairs());
            assert(head@ =~= s);
            lemma_encode_utf8_concat(s, h);
            lemma_encode_utf8_concat(s + h, "\r\n"@);
        }
        match self.body {
            Some(mut body) => {
                response.append(&mut body);
            },
            None => {},
        }
        response
    }
}

} // verus!
