use toy_http_server::headers::{HeaderField, HeaderMap};
use toy_http_server::request::{Method, Request, RequestParseError};

fn header_map(pairs: &[(HeaderField, &str)]) -> HeaderMap {
    let mut headers = HeaderMap::new();
    for (field, value) in pairs {
        headers.insert(*field, value.to_string());
    }
    headers
}

#[test]
fn test_parse_request_line_for_root() {
    let request_line = "GET / HTTP/1.1";
    let (method, path) = Request::parse_request_line(request_line).unwrap();
    assert_eq!(method, Method::Get);
    assert_eq!(path, "/".to_string())
}

#[test]
fn test_parse_request_line_for_index() {
    let request_line = "GET /www/index.html HTTP/1.1";
    let (method, path) = Request::parse_request_line(request_line).unwrap();
    assert_eq!(method, Method::Get);
    assert_eq!(path, "/www/index.html".to_string())
}

#[test]
fn test_parse_headers() {
    let header_lines = [
        "Host: localhost:8000",
        "User-Agent: curl/7.58.0",
        "Accept: */*",
        "Content-Length: 3",
        "Content-Type: application/x-www-form-urlencoded",
    ];
    let headers = Request::parse_headers(&header_lines).unwrap();
    assert_eq!(
        headers,
        header_map(&[
            (HeaderField::ContentLength, "3"),
            (HeaderField::UserAgent, "curl/7.58.0"),
            (HeaderField::Host, "localhost:8000"),
            (HeaderField::Accept, "*/*"),
            (HeaderField::ContentType, "application/x-www-form-urlencoded"),
        ])
    );
}

#[test]
fn unrecognised_header_is_dropped() {
    let headers = Request::parse_headers(&["X-Custom: 1", "Host: h"]).unwrap();
    assert_eq!(headers, header_map(&[(HeaderField::Host, "h")]));
    assert_eq!(headers.len(), 1);
    assert_eq!(headers.get(HeaderField::Undefined), None);
}

#[test]
fn later_header_value_wins() {
    let headers = Request::parse_headers(&["Host: a", "Host: b"]).unwrap();
    assert_eq!(headers, header_map(&[(HeaderField::Host, "b")]));
}

#[test]
fn headers_stop_at_blank_line() {
    let headers = Request::parse_headers(&["Host: a", "", "no separator"]).unwrap();
    assert_eq!(headers, header_map(&[(HeaderField::Host, "a")]));
}

#[test]
fn header_value_ends_at_next_separator() {
    let headers = Request::parse_headers(&["Host: a: b"]).unwrap();
    assert_eq!(headers, header_map(&[(HeaderField::Host, "a")]));
}

#[test]
fn header_without_separator_is_rejected() {
    let r = Request::parse_headers(&["Host localhost"]);
    assert_eq!(r.unwrap_err(), RequestParseError::InvalidHeaderFormat);
    let r = Request::parse_headers(&["Host:localhost"]);
    assert_eq!(r.unwrap_err(), RequestParseError::InvalidHeaderFormat);
}

#[test]
fn malformed_request_lines_are_empty() {
    for line in ["", "hello", "get / HTTP/1.1", "GET / HTTP/1", "GET / HTTPS/1.1", "GET / HTTP/a.1", "GET"] {
        assert_eq!(Request::parse_request_line(line).unwrap_err(), RequestParseError::Empty);
    }
}

#[test]
fn unknown_method_is_invalid() {
    let r = Request::parse_request_line("POST / HTTP/1.1");
    assert_eq!(r.unwrap_err(), RequestParseError::InvalidMethod);
}

#[test]
fn path_without_slash_does_not_match() {
    let r = Request::parse_request_line("GET index.html HTTP/1.1");
    assert_eq!(r.unwrap_err(), RequestParseError::Empty);
    let r = Request::parse_request_line("POST index.html HTTP/1.1");
    assert_eq!(r.unwrap_err(), RequestParseError::Empty);
}

#[test]
fn empty_path_is_accepted() {
    let (method, path) = Request::parse_request_line("GET  HTTP/2.0").unwrap();
    assert_eq!(method, Method::Get);
    assert_eq!(path, "");
}

#[test]
fn whole_request_is_parsed() {
    let raw = "GET /index.html HTTP/1.1\r\nHost: localhost:8000\r\nX-Custom: 1\r\nAccept: */*\r\n\r\nbody";
    let request = Request::new(raw).unwrap();
    assert_eq!(request.method, Method::Get);
    assert_eq!(request.uri, "/index.html");
    assert_eq!(
        request.headers,
        header_map(&[(HeaderField::Host, "localhost:8000"), (HeaderField::Accept, "*/*")])
    );
}

#[test]
fn request_errors_are_reported() {
    assert_eq!(Request::new("").unwrap_err(), RequestParseError::Empty);
    assert_eq!(Request::new("PUT /a HTTP/1.1\r\n").unwrap_err(), RequestParseError::InvalidMethod);
    assert_eq!(
        Request::new("GET /a HTTP/1.1\r\nHost\r\n").unwrap_err(),
        RequestParseError::InvalidHeaderFormat
    );
    assert_eq!(Request::new("GET a HTTP/1.1").unwrap_err(), RequestParseError::Empty);
    assert_eq!(RequestParseError::LackingPath.message(), "Lacking path");
}

#[test]
fn method_names() {
    assert_eq!(Method::from_str("GET"), Ok(Method::Get));
    assert_eq!(Method::from_str("Get"), Err(RequestParseError::InvalidMethod));
}
