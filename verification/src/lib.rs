//! An HTTP/1.1 server's request handling, verified: configuration,
//! request parsing and chunked coding, routing, sessions, CGI output, and
//! what the single-host and multi-host servers answer.
pub mod text;
pub mod strmap;
pub mod http;
pub mod config;
pub mod router;
pub mod session;
pub mod cgi;
pub mod error;
pub mod error_handler;
pub mod server;
pub mod utils;
pub mod static_file;
pub mod transfer;
