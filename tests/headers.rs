use toy_http_server::headers::{to_vec, HeaderField, HeaderMap};
use toy_http_server::request::Request;

fn header_map(pairs: &[(HeaderField, &str)]) -> HeaderMap {
    let mut headers = HeaderMap::new();
    for (field, value) in pairs {
        headers.insert(*field, value.to_string());
    }
    headers
}

#[test]
fn test_to_vec() {
    let headers = header_map(&[
        (HeaderField::ContentLength, "3"),
        (HeaderField::UserAgent, "curl/7.58.0"),
        (HeaderField::Host, "localhost:8000"),
        (HeaderField::Accept, "*/*"),
        (HeaderField::ContentType, "application/x-www-form-urlencoded"),
    ]);

    let expected = to_vec(&headers);
    let expected = String::from_utf8(expected).unwrap();
    let expected = expected.split("\r\n").collect::<Vec<&str>>();
    let expected = Request::parse_headers(&expected).unwrap();

    assert_eq!(headers, expected,);
}

#[test]
fn to_vec_writes_one_line_per_entry_in_order() {
    let headers = header_map(&[(HeaderField::Host, "a"), (HeaderField::Accept, "b")]);
    assert_eq!(to_vec(&headers), b"Host: a\r\nAccept: b\r\n".to_vec());
    assert_eq!(to_vec(&HeaderMap::new()), Vec::<u8>::new());
}

#[test]
fn insert_overwrites_in_place() {
    let mut headers = header_map(&[(HeaderField::Host, "a"), (HeaderField::Accept, "b")]);
    headers.insert(HeaderField::Host, "c".to_string());
    assert_eq!(headers.len(), 2);
    assert_eq!(headers.get(HeaderField::Host), Some(&"c".to_string()));
    assert_eq!(to_vec(&headers), b"Host: c\r\nAccept: b\r\n".to_vec());
}

#[test]
fn equality_ignores_order() {
    let a = header_map(&[(HeaderField::Host, "a"), (HeaderField::Accept, "b")]);
    let b = header_map(&[(HeaderField::Accept, "b"), (HeaderField::Host, "a")]);
    let c = header_map(&[(HeaderField::Accept, "b"), (HeaderField::Host, "x")]);
    let d = header_map(&[(HeaderField::Accept, "b")]);
    assert_eq!(a, b);
    assert_ne!(a, c);
    assert_ne!(a, d);
}

#[test]
fn field_names_round_trip() {
    let fields = [
        HeaderField::Accept,
        HeaderField::Host,
        HeaderField::UserAgent,
        HeaderField::ContentLength,
        HeaderField::ContentType,
    ];
    for field in fields {
        assert_eq!(HeaderField::from_str(field.as_text()), field);
    }
    assert_eq!(HeaderField::UserAgent.as_text(), "User-Agent");
    assert_eq!(HeaderField::ContentLength.to_bytes(), b"Content-Length".to_vec());
    assert_eq!(HeaderField::from_str("X-Custom"), HeaderField::Undefined);
    assert_eq!(HeaderField::from_str("host"), HeaderField::Undefined);
    assert_eq!(HeaderField::Undefined.as_text(), "");
}
