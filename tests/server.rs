use toy_http_server::headers::HeaderField;
use toy_http_server::request::{Method, RequestParseError};
use toy_http_server::server::{Dispatch, Server};
use toy_http_server::static_files::StaticFiles;

#[test]
fn server_defaults_and_bind() {
    let server: Server<u8> = Server::new();
    assert_eq!(server.address(), "127.0.0.1");
    assert_eq!(server.port(), 8000);
    let server = server.bind("0.0.0.0", 1111);
    assert_eq!(server.address(), "0.0.0.0");
    assert_eq!(server.port(), 1111);
}

#[test]
fn dispatch_routes_parses_and_rejects() {
    let server = Server::new().route("/", 1u8).route("/static/*", 2u8).bind("127.0.0.1", 8080);
    match server.dispatch("GET /static/app.css HTTP/1.1\r\nHost: h\r\n\r\n") {
        Dispatch::Routed(request, handler) => {
            assert_eq!(*handler, 2);
            assert_eq!(request.method, Method::Get);
            assert_eq!(request.uri, "/static/app.css");
            assert_eq!(request.headers.get(HeaderField::Host), Some(&"h".to_string()));
        }
        _ => panic!(),
    }
    match server.dispatch("GET / HTTP/1.1\r\n\r\n") {
        Dispatch::Routed(_, handler) => assert_eq!(*handler, 1),
        _ => panic!(),
    }
    match server.dispatch("GET /missing HTTP/1.1\r\n\r\n") {
        Dispatch::Unrouted(request) => assert_eq!(request.uri, "/missing"),
        _ => panic!(),
    }
    match server.dispatch("BREW /pot HTTP/1.1\r\n\r\n") {
        Dispatch::Invalid(e) => assert_eq!(e, RequestParseError::InvalidMethod),
        _ => panic!(),
    }
}

#[test]
fn static_files_strip_leading_slashes() {
    let files = StaticFiles::new("static");
    assert_eq!(files.root(), "static");
    let server: Server<u8> = Server::new();
    let request = match server.dispatch("GET //css/site.css HTTP/1.1\r\n\r\n") {
        Dispatch::Unrouted(request) => request,
        _ => panic!(),
    };
    assert_eq!(files.relative_path(&request), "css/site.css");
}
