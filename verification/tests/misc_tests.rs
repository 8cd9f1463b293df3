use http_server::error::ServerError;
use http_server::static_file::content_type_for;
use http_server::text::{decimal_chars, hex_upper_chars, lines_of, parse_unsigned_chars, words_of};

fn chars(s: &str) -> Vec<char> {
    s.chars().collect()
}

fn strings(v: Vec<Vec<char>>) -> Vec<String> {
    v.into_iter().map(|c| c.into_iter().collect()).collect()
}

#[test]
fn content_types_from_mime_guess() {
    assert_eq!(content_type_for("index.html"), "text/html");
    assert_eq!(content_type_for("img/logo.png"), "image/png");
    assert_eq!(content_type_for("README"), "application/octet-stream");
}

#[test]
fn server_error_messages() {
    assert_eq!(ServerError::Http(404).message(), "HTTP error: 404");
    assert_eq!(ServerError::Internal("x".to_string()).message(), "Internal error: x");
    let io = std::io::Error::new(std::io::ErrorKind::Other, "disk");
    let e: ServerError = io.into();
    assert_eq!(e.message(), "IO error: disk");
}

#[test]
fn lines_like_str_lines() {
    assert_eq!(strings(lines_of(&chars("a\r\nb\n\nc\n"))), vec!["a", "b", "", "c"]);
    assert_eq!(strings(lines_of(&chars(""))), Vec::<String>::new());
    assert_eq!(strings(lines_of(&chars("x\r"))), vec!["x\r"]);
}

#[test]
fn words_like_split_whitespace() {
    assert_eq!(strings(words_of(&chars("  GET  /a\tHTTP/1.1 "))), vec!["GET", "/a", "HTTP/1.1"]);
}

#[test]
fn numbers() {
    assert_eq!(decimal_chars(0), vec!['0']);
    assert_eq!(decimal_chars(1024), chars("1024"));
    assert_eq!(hex_upper_chars(8192), chars("2000"));
    assert_eq!(hex_upper_chars(255), chars("FF"));
    assert_eq!(parse_unsigned_chars(&chars("ff"), 16, usize::MAX), Some(255));
    assert_eq!(parse_unsigned_chars(&chars("+12"), 10, 100), Some(12));
    assert_eq!(parse_unsigned_chars(&chars("+"), 10, 100), None);
    assert_eq!(parse_unsigned_chars(&chars("101"), 10, 100), None);
    assert_eq!(parse_unsigned_chars(&chars(""), 10, 100), None);
}
