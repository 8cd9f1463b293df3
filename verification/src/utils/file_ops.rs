//! Raw responses built from a status line, a content type and a body.
use vstd::prelude::*;
use crate::text::{chars_of, decimal, decimal_chars, utf8_of};

verus! {

/// The text of a response with the given status, type and body; the
/// length is that of the body in bytes.
pub open spec fn response_text(status: Seq<char>, content_type: Seq<char>, content: Seq<char>) -> Seq<char> {
    "HTTP/1.1 "@ + status + "\r\nContent-Type: "@ + content_type + "\r\nContent-Length: "@
        + decimal(vstd::utf8::encode_utf8(content).len()) + "\r\n\r\n"@ + content
}

/// The bytes of a response: status line, `Content-Type`, `Content-Length`
/// and the body.
pub fn generate_response(status: &str, content_type: &str, content: &str) -> (r: Vec<u8>)
    ensures
        r@ == vstd::utf8::encode_utf8(response_text(status@, content_type@, content@)),
{
    let body = chars_of(content);
    let body_bytes = utf8_of(body.as_slice());
    let mut text = chars_of("HTTP/1.1 ");
    text.extend_from_slice(chars_of(status).as_slice());
    text.extend_from_slice(chars_of("\r\nContent-Type: ").as_slice());
    text.extend_from_slice(chars_of(content_type).as_slice());
    text.extend_from_slice(chars_of("\r\nContent-Length: ").as_slice());
    text.extend_from_slice(decimal_chars(body_bytes.len()).as_slice());
    text.extend_from_slice(chars_of("\r\n\r\n").as_slice());
    text.extend_from_slice(body.as_slice());
    assert(text@ =~= response_text(status@, content_type@, content@));
    utf8_of(text.as_slice())
}

} // verus!
