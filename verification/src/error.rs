//! The errors of request handling.
use vstd::prelude::*;
use std::io;
use crate::text::{decimal_chars, string_of};

verus! {

#[verifier::external_type_specification]
#[verifier::external_body]
pub struct ExIoError(io::Error);

/// Calls `to_string` on an I/O error (its `Display` text, which the
/// operating system's message may make up); nothing is stated of it.
#[verifier::external_body]
fn io_error_text(e: &io::Error) -> String {
    e.to_string()
}

pub enum ServerError {
    Io(io::Error),
    Http(u16),
    Internal(String),
}

impl ServerError {
    /// The text that `Display` shows for the error. For an I/O error it
    /// ends with the error's own text, which the operating system may
    /// supply and which is not stated.
    pub fn message(&self) -> (r: String)
        ensures
            self matches ServerError::Http(status) ==> r@ == "HTTP error: "@ + crate::text::decimal(
                status as nat,
            ),
            self matches ServerError::Internal(m) ==> r@ == "Internal error: "@ + m@,
            self matches ServerError::Io(_) ==> crate::text::starts_with(r@, "IO error: "@),
    {
        match self {
            ServerError::Io(e) => {
                let mut s = String::from_str("IO error: ");
                let ghost head = s@;
                s.append(io_error_text(e).as_str());
                assert(s@.subrange(0, head.len() as int) =~= head);
                s
            },
            ServerError::Http(status) => {
                let mut s = String::from_str("HTTP error: ");
                let d = decimal_chars(*status as usize);
                s.append(string_of(d.as_slice()).as_str());
                s
            },
            ServerError::Internal(m) => {
                let mut s = String::from_str("Internal error: ");
                s.append(m.as_str());
                s
            },
        }
    }
}

impl From<io::Error> for ServerError {
    fn from(err: io::Error) -> (r: ServerError) {
        ServerError::Io(err)
    }
}

impl vstd::std_specs::convert::FromSpecImpl<io::Error> for ServerError {
    open spec fn obeys_from_spec() -> bool {
        true
    }

    open spec fn from_spec(v: io::Error) -> ServerError {
        ServerError::Io(v)
    }
}

} // verus!
