//! Settings of the multi-host server and the path of a request line.
use vstd::prelude::*;
use crate::text::{chars_of, lines, lines_of, string_of, trim_start_matches_chars, trim_start_str, words, words_of};

verus! {

/// Seconds of silence after which a connection is dropped.
pub const TIMEOUT_SECS: u64 = 30;

pub const DEFAULT_PAGE: &'static str = "src/www/index.html";

pub const ERROR_403_PAGE: &'static str = "src/www/errors/403.html";

pub const ERROR_404_PAGE: &'static str = "src/www/errors/404.html";

pub const ERROR_405_PAGE: &'static str = "src/www/errors/405.html";

pub const ERROR_500_PAGE: &'static str = "src/www/errors/500.html";

/// The second word of the first line, without its leading slashes; empty
/// when the first line has fewer than two words.
pub open spec fn requested_path(request: Seq<char>) -> Seq<char> {
    let ls = lines(request);
    if ls.len() > 0 && words(ls[0]).len() > 1 {
        trim_start_str(words(ls[0])[1], "/"@)
    } else {
        seq![]
    }
}

/// The path asked for in the request line.
pub fn get_requested_path(request: &str) -> (r: String)
    ensures
        r@ == requested_path(request@),
{
    let cs = chars_of(request);
    let ls = lines_of(cs.as_slice());
    if ls.len() > 0 {
        assert(ls@[0]@ == lines(request@)[0]);
        let parts = words_of(ls[0].as_slice());
        if parts.len() > 1 {
            assert(parts@[1]@ == words(lines(request@)[0])[1]);
            let p = trim_start_matches_chars(parts[1].as_slice(), chars_of("/").as_slice());
            return string_of(p.as_slice());
        }
    }
    String::new()
}

/// The path taken from a request line never starts with `/`.
pub proof fn law_requested_path_relative(request: Seq<char>)
    ensures
        !crate::text::starts_with(requested_path(request), "/"@),
{
    reveal_strlit("/");
    let ls = lines(request);
    if ls.len() > 0 && words(ls[0]).len() > 1 {
        let w = words(ls[0])[1];
        crate::text::lemma_trim_start_str_done(w, "/"@, 0);
        crate::text::lemma_strip_prefixes_bounds(w, "/"@, 0);
        let k = crate::text::strip_prefixes_from(w, "/"@, 0);
        let t = trim_start_str(w, "/"@);
        if crate::text::starts_with(t, "/"@) {
            assert(t.subrange(0, 1) =~= w.subrange(k, k + 1));
        }
    }
}

} // verus!
