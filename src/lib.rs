//! A small HTTP/1.1 request router: a request parser, a response serializer
//! and a compressed path trie that maps request paths to handlers.
pub mod handler;
pub mod headers;
pub mod request;
pub mod responder;
pub mod response;
pub mod router;
pub mod server;
pub mod static_files;
pub mod status;
pub mod text;
