//! The content type of a file that is served as it is.
use vstd::prelude::*;

verus! {

/// The type `mime_guess` gives a file at this path, by its extension.
pub uninterp spec fn guessed_mime(path: Seq<char>) -> Seq<char>;

/// Calls `mime_guess::from_path(path).first_or_octet_stream()` and writes
/// the type as text. The result is named `guessed_mime` of the path; as
/// the crate's source shows, a path without an extension gets
/// `application/octet-stream`.
#[verifier::external_body]
fn mime_of(path: &str) -> (r: String)
    ensures
        r@ == guessed_mime(path@),
        crate::server::path_extension(path@) is None ==> r@ == "application/octet-stream"@,
{
    mime_guess::from_path(path).first_or_octet_stream().to_string()
}

/// The content type under which the file at `path` is served.
pub fn content_type_for(path: &str) -> (r: String)
    ensures
        r@ == guessed_mime(path@),
        crate::server::path_extension(path@) is None ==> r@ == "application/octet-stream"@,
{
    mime_of(path)
}

} // verus!
