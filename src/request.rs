//! Requests and the request parser.
//!
//! A request is parsed from its text: a request line, then header lines up
//! to the first blank line, all separated by CRLF. The path of the request
//! line is stored with its leading `/`, as the router expects it.
use crate::headers::{field_of, HeaderField, HeaderMap};
use crate::text::{find_text, first_occurrence, same_text, split_on, split_text};
use vstd::prelude::*;
use vstd::string::*;

verus! {

/// Request methods.
#[derive(Clone, Copy, Debug, PartialEq, Eq, Structural)]
pub enum Method {
    Get,
}

/// Why a request could not be parsed.
#[derive(Clone, Copy, Debug, PartialEq, Eq, Structural)]
pub enum RequestParseError {
    Empty,
    InvalidMethod,
    LackingPath,
    InvalidHeaderFormat,
}

/// A short description of an error.
pub open spec fn error_message(e: RequestParseError) -> Seq<char> {
    match e {
        RequestParseError::Empty => "Empty request"@,
        RequestParseError::InvalidMethod => "Invalid type of method"@,
        RequestParseError::LackingPath => "Lacking path"@,
        RequestParseError::InvalidHeaderFormat => "Invalid form of header"@,
    }
}

impl RequestParseError {
    /// A short description of the error.
    pub fn message(&self) -> (r: &'static str)
        ensures
            r@ == error_message(*self),
    {
        match self {
            RequestParseError::Empty => "Empty request",
            RequestParseError::InvalidMethod => "Invalid type of method",
            RequestParseError::LackingPath => "Lacking path",
            RequestParseError::InvalidHeaderFormat => "Invalid form of header",
        }
    }
}

/// The method that a method name stands for.
pub open spec fn method_of(s: Seq<char>) -> Result<Method, RequestParseError> {
    if s == "GET"@ {
        Ok(Method::Get)
    } else {
        Err(RequestParseError::InvalidMethod)
    }
}

impl Method {
    /// The method named `s`; only `GET` is known.
    pub fn from_str(s: &str) -> (r: Result<Method, RequestParseError>)
        ensures
            r == method_of(s@),
    {
        if same_text(s, "GET") {
            Ok(Method::Get)
        } else {
            Err(RequestParseError::InvalidMethod)
        }
    }
}

/// One or more upper-case ASCII letters.
pub open spec fn is_method_word(s: Seq<char>) -> bool {
    s.len() > 0 && forall|i: int| 0 <= i < s.len() ==> 'A' <= #[trigger] s[i] <= 'Z'
}

/// A decimal digit.
pub open spec fn is_digit(c: char) -> bool {
    '0' <= c <= '9'
}

/// The end of a request line: ` HTTP/` and a version `<digit>.<digit>`.
pub open spec fn is_version_suffix(s: Seq<char>) -> bool {
    &&& s.len() == 9
    &&& s.take(6) == " HTTP/"@
    &&& is_digit(s[6])
    &&& s[7] == '.'
    &&& is_digit(s[8])
}

/// What parsing a request line gives. The line reads `METHOD PATH
/// HTTP/d.d`: the method runs up to the first space and is one or more
/// upper-case letters, the line ends in ` HTTP/d.d`, and the path is what
/// stands between, empty or beginning with `/`. A line of any other shape
/// is `Empty`; a method other than `GET` is `InvalidMethod`. The grammar
/// always yields a path, so `LackingPath` does not arise here.
pub open spec fn request_line_result(line: Seq<char>) -> Result<(Method, Seq<char>), RequestParseError> {
    match first_occurrence(line, " "@) {
        None => Err(RequestParseError::Empty),
        Some(sp) => {
            let word = line.take(sp);
            let tail = line.skip(sp + 1);
            let path = tail.take(tail.len() - 9);
            if !is_method_word(word) || tail.len() < 9 || !is_version_suffix(
                tail.skip(tail.len() - 9),
            ) || (path.len() > 0 && path[0] != '/') {
                Err(RequestParseError::Empty)
            } else if word != "GET"@ {
                Err(RequestParseError::InvalidMethod)
            } else {
                Ok((Method::Get, path))
            }
        },
    }
}

/// Whether `s` is one or more upper-case ASCII letters.
fn method_word(s: &str) -> (r: bool)
    ensures
        r == is_method_word(s@),
{
    let n = s.unicode_len();
    if n == 0 {
        return false;
    }
    let mut i: usize = 0;
    while i < n
        invariant
            n == s@.len(),
            i <= n,
            forall|k: int| 0 <= k < i ==> 'A' <= #[trigger] s@[k] <= 'Z',
        decreases n - i,
    {
        let c = s.get_char(i);
        if !('A' <= c && c <= 'Z') {
            return false;
        }
        i += 1;
    }
    true
}

/// Whether `s` is ` HTTP/d.d`.
fn version_suffix(s: &str) -> (r: bool)
    ensures
        r == is_version_suffix(s@),
{
    if s.unicode_len() != 9 {
        return false;
    }
    let start = s.substring_char(0, 6);
    if !same_text(start, " HTTP/") {
        return false;
    }
    let major = s.get_char(6);
    let dot = s.get_char(7);
    let minor = s.get_char(8);
    '0' <= major && major <= '9' && dot == '.' && '0' <= minor && minor <= '9'
}

/// What parsing the header lines gives, from line `i` on, with the fields
/// read so far in `acc`. Reading stops at the end or at a blank line. A line
/// without `": "` is `InvalidHeaderFormat`; the field name stands before the
/// first separator and the value up to the next one. Unrecognised fields
/// are dropped, and a later value for a field replaces an earlier one.
pub open spec fn headers_from(
    lines: Seq<Seq<char>>,
    i: int,
    acc: Map<HeaderField, Seq<char>>,
) -> Result<Map<HeaderField, Seq<char>>, RequestParseError>
    decreases lines.len() - i,
{
    if i < 0 || i >= lines.len() || lines[i].len() == 0 {
        Ok(acc)
    } else {
        let pieces = split_text(lines[i], ": "@);
        if pieces.len() < 2 {
            Err(RequestParseError::InvalidHeaderFormat)
        } else {
            let f = field_of(pieces[0]);
            headers_from(
                lines,
                i + 1,
                if f == HeaderField::Undefined {
                    acc
                } else {
                    acc.insert(f, pieces[1])
                },
            )
        }
    }
}

/// What parsing the header lines gives.
pub open spec fn headers_result(lines: Seq<Seq<char>>) -> Result<
    Map<HeaderField, Seq<char>>,
    RequestParseError,
> {
    headers_from(lines, 0, Map::empty())
}

/// What parsing a whole request text gives: its method, path and headers.
pub open spec fn request_result(raw: Seq<char>) -> Result<
    (Method, Seq<char>, Map<HeaderField, Seq<char>>),
    RequestParseError,
> {
    let lines = split_text(raw, "\r\n"@);
    match request_line_result(lines[0]) {
        Err(e) => Err(e),
        Ok((m, path)) => match headers_result(lines.drop_first()) {
            Err(e) => Err(e),
            Ok(h) => Ok((m, path, h)),
        },
    }
}

/// A parsed request.
#[derive(Debug)]
pub struct Request {
    pub method: Method,
    pub uri: String,
    pub headers: HeaderMap,
}

impl Request {
    /// Parses a request text.
    pub fn new(request_str: &str) -> (r: Result<Request, RequestParseError>)
        ensures
            r matches Ok(req) ==> request_result(request_str@) == Ok::<_, RequestParseError>(
                (req.method, req.uri@, req.headers@),
            ),
            r matches Err(e) ==> request_result(request_str@) == Err::<
                (Method, Seq<char>, Map<HeaderField, Seq<char>>),
                RequestParseError,
            >(e),
    {
        proof {
            reveal_strlit("\r\n");
        }
        let request_lines = split_on(request_str, "\r\n");
        let ghost lines = split_text(request_str@, "\r\n"@);
        proof {
            crate::text::lemma_split_text_not_empty(request_str@, "\r\n"@);
            assert(request_lines@.map_values(|x: String| x@)[0] == request_lines@[0]@);
        }
        let (method, uri) = match Self::parse_request_line(request_lines[0].as_str()) {
            Ok(parsed) => parsed,
            Err(e) => return Err(e),
        };
        let mut header_lines: Vec<&str> = Vec::new();
        let mut i: usize = 1;
        while i < request_lines.len()
            invariant
                1 <= i <= request_lines@.len(),
                lines == request_lines@.map_values(|x: String| x@),
                header_lines@.map_values(|l: &str| l@) =~= lines.subrange(1, i as int),
            decreases request_lines.len() - i,
        {
            let ghost before = header_lines@.map_values(|l: &str| l@);
            header_lines.push(request_lines[i].as_str());
            proof {
                assert(header_lines@.map_values(|l: &str| l@) =~= before.push(lines[i as int]));
                assert(lines.subrange(1, i + 1) =~= lines.subrange(1, i as int).push(
                    lines[i as int],
                ));
            }
            i += 1;
        }
        proof {
            assert(lines.subrange(1, i as int) =~= lines.drop_first());
        }
        match Self::parse_headers(header_lines.as_slice()) {
            Ok(headers) => Ok(Request { method, uri, headers }),
            Err(e) => Err(e),
        }
    }

    /// Parses a request line into its method and path; see
    /// `request_line_result`.
    pub fn parse_request_line(request_line_str: &str) -> (r: Result<(Method, String), RequestParseError>)
        ensures
            r matches Ok((m, path)) ==> request_line_result(request_line_str@) == Ok::<_, RequestParseError>((m, path@)),
            r matches Err(e) ==> request_line_result(request_line_str@) == Err::<
                (Method, Seq<char>),
                RequestParseError,
            >(e),
    {
        let line = request_line_str;
        proof {
            reveal_strlit(" ");
        }
        let sp = match find_text(line, " ") {
            Some(sp) => sp,
            None => return Err(RequestParseError::Empty),
        };
        proof {
            crate::text::lemma_occurrence_from(line@, " "@, 0);
        }
        let n = line.unicode_len();
        let word = line.substring_char(0, sp);
        let tail = line.substring_char(sp + 1, n);
        if !method_word(word) {
            return Err(RequestParseError::Empty);
        }
        let t = tail.unicode_len();
        if t < 9 {
            return Err(RequestParseError::Empty);
        }
        if !version_suffix(tail.substring_char(t - 9, t)) {
            return Err(RequestParseError::Empty);
        }
        let path = tail.substring_char(0, t - 9);
        if path.unicode_len() > 0 && path.get_char(0) != '/' {
            return Err(RequestParseError::Empty);
        }
        let method = match Method::from_str(word) {
            Ok(m) => m,
            Err(e) => return Err(e),
        };
        Ok((method, path.to_owned()))
    }

    /// Parses header lines (those after the request line) into a header
    /// mapping; see `headers_result`.
    pub fn parse_headers(header_lines: &[&str]) -> (r: Result<HeaderMap, RequestParseError>)
        ensures
            r matches Ok(h) ==> headers_result(header_lines@.map_values(|l: &str| l@)) == Ok::<
                _,
                RequestParseError,
            >(h@),
            r matches Err(e) ==> headers_result(header_lines@.map_values(|l: &str| l@)) == Err::<
                Map<HeaderField, Seq<char>>,
                RequestParseError,
            >(e),
    {
        let ghost lines = header_lines@.map_values(|l: &str| l@);
        let mut headers = HeaderMap::new();
        let mut i: usize = 0;
        while i < header_lines.len()
            invariant
                i <= header_lines@.len(),
                lines == header_lines@.map_values(|l: &str| l@),
                headers_from(lines, i as int, headers@) == headers_result(lines),
            decreases header_lines.len() - i,
        {
            let line = header_lines[i];
            proof {
                assert(lines[i as int] == line@);
            }
            if line.unicode_len() == 0 {
                return Ok(headers);
            }
            proof {
                reveal_strlit(": ");
            }
            let pieces = split_on(line, ": ");
            proof {
                assert(pieces@.map_values(|x: String| x@).len() == pieces@.len());
            }
            if pieces.len() < 2 {
                return Err(RequestParseError::InvalidHeaderFormat);
            }
            proof {
                assert(pieces@.map_values(|x: String| x@)[0] == pieces@[0]@);
                assert(pieces@.map_values(|x: String| x@)[1] == pieces@[1]@);
            }
            let field = HeaderField::from_str(pieces[0].as_str());
            match field {
                HeaderField::Undefined => {},
                _ => {
                    headers.insert(field, pieces[1].clone());
                },
            }
            i += 1;
        }
        Ok(headers)
    }
}

} // verus!
