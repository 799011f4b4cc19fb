use toy_http_server::headers::HeaderField;
use toy_http_server::request::Request;
use toy_http_server::response::Response;
use toy_http_server::status::Status;
use toy_http_server::text::decimal_text;

#[test]
fn new_response_has_status_and_nothing_else() {
    let r = Response::new(Status::OK);
    assert_eq!(r.status_code, 200);
    assert_eq!(r.reason_phrase, "OK");
    assert_eq!(r.body, None);
    assert_eq!(r.headers.len(), 0);
    let r = Response::new(Status::NotFound);
    assert_eq!(r.status_code, 404);
    assert_eq!(r.reason_phrase, "Not Found");
}

#[test]
fn set_body_sets_length_and_type() {
    let mut r = Response::new(Status::OK);
    r.set_body("héllo".to_string());
    assert_eq!(r.body, Some("héllo".as_bytes().to_vec()));
    assert_eq!(r.headers.get(HeaderField::ContentLength), Some(&"6".to_string()));
    assert_eq!(r.headers.get(HeaderField::ContentType), Some(&"text/html".to_string()));
    r.set_body(String::new());
    assert_eq!(r.headers.get(HeaderField::ContentLength), Some(&"0".to_string()));
    assert_eq!(r.headers.len(), 2);
}

#[test]
fn serialized_response_is_exact() {
    let mut r = Response::new(Status::OK);
    r.set_body("hello".to_string());
    assert_eq!(
        r.into_bytes(),
        b"HTTP/1.1 200 OK\r\nContent-Length: 5\r\nContent-Type: text/html\r\n\r\nhello".to_vec()
    );
    assert_eq!(Response::new(Status::NotFound).into_bytes(), b"HTTP/1.1 404 Not Found\r\n\r\n".to_vec());
}

#[test]
fn serialized_response_reads_back() {
    for (status, body) in [(Status::OK, "<p>hi</p>"), (Status::NotFound, ""), (Status::OK, "ünïcödé text")] {
        let mut r = Response::new(status);
        r.set_body(body.to_string());
        let code = r.status_code;
        let bytes = r.into_bytes();
        let text = String::from_utf8(bytes).unwrap();
        let (head, rest) = text.split_once("\r\n\r\n").unwrap();
        assert_eq!(rest, body);
        let lines: Vec<&str> = head.split("\r\n").collect();
        let status_line: Vec<&str> = lines[0].splitn(3, ' ').collect();
        assert_eq!(status_line[0], "HTTP/1.1");
        assert_eq!(status_line[1].parse::<u16>().unwrap(), code);
        let headers = Request::parse_headers(&lines[1..]).unwrap();
        let length = headers.get(HeaderField::ContentLength).unwrap();
        assert_eq!(length.parse::<usize>().unwrap(), body.len());
    }
}

#[test]
fn decimal_numerals() {
    assert_eq!(decimal_text(0), "0");
    assert_eq!(decimal_text(7), "7");
    assert_eq!(decimal_text(10), "10");
    assert_eq!(decimal_text(404), "404");
    assert_eq!(decimal_text(u64::MAX), u64::MAX.to_string());
}

#[test]
fn status_codes_and_reasons() {
    assert_eq!(Status::OK.code_and_reason(), (200, "OK".to_string()));
    assert_eq!(Status::NotFound.code_and_reason(), (404, "Not Found".to_string()));
}
