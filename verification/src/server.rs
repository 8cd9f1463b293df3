//! Request handling: what the server answers to a request, decided from
//! the request, the configuration, the routing outcome and the sessions.
//! Reading and writing sockets and files is left to the caller, which
//! carries out the `Dispatch` it is handed.
pub mod config;
pub mod listing;
pub mod multiserver;
pub mod server;
pub mod connection;

use vstd::prelude::*;
use vstd::slice::slice_subrange;
use crate::http::{bdv, HttpMethod, HttpRequest, HttpResponse, ResponseBody};
use crate::strmap::pair_view;
use crate::strmap::StrMap;
use crate::text::{
    chars_of, contains, contains_chars, dv, eq_lit, find, has_prefix, has_suffix,
    lines, lines_of, lossy_chars, lower_chars, lowercase, split, split_chars,
    split_once, split_once_chars, starts_with, string_of, trim, trim_char, trim_chars,
    trim_matches_char, trim_start_matches_chars, trim_start_str, utf8_lossy, utf8_of,
};

verus! {

broadcast use vstd::slice::group_slice_axioms;

// ---------------------------------------------------------------------
// Text from outside helpers
// ---------------------------------------------------------------------
/// What `char::is_alphanumeric` says of `c`.
pub uninterp spec fn alphanumeric(c: char) -> bool;

/// Calls `char::is_alphanumeric`; the result is named `alphanumeric`.
#[verifier::external_body]
fn char_is_alphanumeric(c: char) -> (r: bool)
    ensures
        r == alphanumeric(c),
{
    c.is_alphanumeric()
}

/// Calls `std::str::from_utf8`: the text when the bytes are valid UTF-8.
#[verifier::external_body]
fn utf8_text(b: &[u8]) -> (r: Option<String>)
    ensures
        match r {
            Some(s) => vstd::utf8::valid_utf8(b@) && s@ == vstd::utf8::decode_utf8(b@),
            None => !vstd::utf8::valid_utf8(b@),
        },
{
    match std::str::from_utf8(b) {
        Ok(s) => Some(s.to_string()),
        Err(_) => None,
    }
}

/// The characters of `b` when they are valid UTF-8 (`String::from_utf8(..).ok()`).
pub open spec fn utf8_decoded(b: Seq<u8>) -> Option<Seq<char>> {
    if vstd::utf8::valid_utf8(b) {
        Some(vstd::utf8::decode_utf8(b))
    } else {
        None
    }
}

pub fn utf8_chars(b: &[u8]) -> (r: Option<Vec<char>>)
    ensures
        match r {
            Some(v) => utf8_decoded(b@) == Some(v@),
            None => utf8_decoded(b@) is None,
        },
{
    match utf8_text(b) {
        Some(s) => Some(chars_of(s.as_str())),
        None => None,
    }
}

// ---------------------------------------------------------------------
// Sessions in cookies
// ---------------------------------------------------------------------
/// The session identifier in the first `session_id=` piece of a cookie
/// header, from piece `i` on.
pub open spec fn session_in_pieces(pieces: Seq<Seq<char>>, i: int) -> Option<Seq<char>>
    decreases pieces.len() - i,
{
    if i < 0 || i >= pieces.len() {
        None
    } else {
        let parts = split_once(trim(pieces[i]), "="@);
        if parts.len() == 2 && parts[0] == "session_id"@ {
            Some(parts[1])
        } else {
            session_in_pieces(pieces, i + 1)
        }
    }
}

/// The session identifier a request carries in its `cookie` header, or the
/// empty string.
pub open spec fn session_id_of(headers: Map<Seq<char>, Seq<char>>) -> Seq<char> {
    if headers.contains_key("cookie"@) {
        match session_in_pieces(split(headers["cookie"@], ";"@), 0) {
            Some(id) => id,
            None => seq![],
        }
    } else {
        seq![]
    }
}

/// The cookie that a client sends back with the identifier the server gave
/// it, `session_id=<id>`, is read as that identifier; the identifier holds
/// no `;` and does not end with whitespace (the random identifiers the
/// server hands out are such).
pub proof fn law_session_cookie_read_back(headers: Map<Seq<char>, Seq<char>>, id: Seq<char>)
    requires
        headers.contains_key("cookie"@),
        headers["cookie"@] == "session_id="@ + id,
        !id.contains(';'),
        id.len() > 0 ==> !crate::text::is_ws(id.last()),
    ensures
        session_id_of(headers) == id,
{
    reveal_strlit("session_id=");
    reveal_strlit("session_id");
    reveal_strlit(";");
    reveal_strlit("=");
    let key: Seq<char> = "session_id"@;
    let c = "session_id="@ + id;
    assert(c.len() == 11 + id.len());
    // No `;` in the cookie: a single piece.
    crate::text::lemma_find_from_props(c, ";"@, 0);
    if let Some(k) = crate::text::find_from(c, ";"@, 0) {
        assert(c.subrange(k, k + 1)[0] == c[k]);
        if k >= 11 {
            assert(c[k] == id[k - 11]);
        }
        assert(false);
    }
    assert(crate::text::find_from(c, ";"@, 0) is None);
    assert(c.subrange(0, c.len() as int) =~= c);
    assert(split(c, ";"@) =~= seq![c]);
    // The piece has no surrounding whitespace.
    assert(!crate::text::is_ws(c[0]));
    assert(crate::text::skip_ws(c, 0) == 0);
    assert(c.last() == if id.len() > 0 { id.last() } else { '=' });
    assert(crate::text::back_ws(c, 0, c.len() as int) == c.len());
    assert(trim(c) =~= c);
    // The first `=` ends the name.
    assert(crate::text::occurs_at(c, "="@, 10)) by {
        assert(c.subrange(10, 11) =~= "="@);
    }
    crate::text::lemma_find_from_props(c, "="@, 0);
    let k = crate::text::find_from(c, "="@, 0).unwrap();
    if k < 10 {
        assert(c.subrange(k, k + 1)[0] == c[k]);
        assert(c[k] == key[k]);
        assert(false);
    }
    assert(k == 10);
    assert(split_once(c, "="@) =~= seq![key, id]) by {
        assert(c.subrange(0, 10) =~= key);
        assert(c.subrange(11, c.len() as int) =~= id);
    }
    assert(session_in_pieces(seq![c], 0) == Some(id));
}

pub fn get_session_id(request: &HttpRequest) -> (r: String)
    ensures
        r@ == session_id_of(request.headers@),
{
    let semi = vec![';'];
    let eq = vec!['='];
    proof {
        reveal_strlit(";");
        reveal_strlit("=");
        assert(semi@ =~= ";"@);
        assert(eq@ =~= "="@);
    }
    match request.headers.get(&String::from_str("cookie")) {
        Some(cookie) => {
            let c = chars_of(cookie.as_str());
            let pieces = split_chars(c.as_slice(), semi.as_slice());
            let mut i: usize = 0;
            assert(session_id_of(request.headers@) == match session_in_pieces(dv(pieces@), 0) {
                Some(id) => id,
                None => seq![],
            });
            while i < pieces.len()
                invariant
                    i <= pieces@.len(),
                    eq@ == "="@,
                    session_id_of(request.headers@) == match session_in_pieces(dv(pieces@), 0) {
                        Some(id) => id,
                        None => seq![],
                    },
                    session_in_pieces(dv(pieces@), i as int) == session_in_pieces(dv(pieces@), 0),
                decreases pieces@.len() - i,
            {
                let t = trim_chars(pieces[i].as_slice());
                let parts = split_once_chars(t.as_slice(), eq.as_slice());
                if parts.len() == 2 && eq_lit(parts[0].as_slice(), "session_id") {
                    assert(dv(pieces@)[i as int] == pieces@[i as int]@);
                    assert(session_in_pieces(dv(pieces@), i as int) == Some(parts@[1]@));
                    return string_of(parts[1].as_slice());
                }
                i = i + 1;
            }
            String::new()
        },
        None => String::new(),
    }
}

// ---------------------------------------------------------------------
// The login form
// ---------------------------------------------------------------------
/// The `key=value` pairs of a form body, in order (pieces without `=` left out).
pub open spec fn form_pairs(pieces: Seq<Seq<char>>) -> Seq<(Seq<char>, Seq<char>)>
    decreases pieces.len(),
{
    if pieces.len() == 0 {
        seq![]
    } else {
        let parts = split_once(pieces.last(), "="@);
        if parts.len() == 2 {
            form_pairs(pieces.drop_last()).push((parts[0], parts[1]))
        } else {
            form_pairs(pieces.drop_last())
        }
    }
}

/// The value of the last pair named `key`, as collecting the pairs into a
/// map keeps it.
pub open spec fn form_value(pairs: Seq<(Seq<char>, Seq<char>)>, key: Seq<char>) -> Option<Seq<char>>
    decreases pairs.len(),
{
    if pairs.len() == 0 {
        None
    } else if pairs.last().0 == key {
        Some(pairs.last().1)
    } else {
        form_value(pairs.drop_last(), key)
    }
}

/// The login body names the user `user` with the password `123`.
pub open spec fn credentials_ok(body: Seq<u8>) -> bool {
    let pairs = form_pairs(split(utf8_lossy(body), "&"@));
    form_value(pairs, "username"@) == Some("user"@) && form_value(pairs, "password"@) == Some(
        "123"@,
    )
}

pub fn check_credentials(body: &[u8]) -> (r: bool)
    ensures
        r == credentials_ok(body@),
{
    let text = lossy_chars(body);
    let amp = vec!['&'];
    let eq = vec!['='];
    proof {
        reveal_strlit("&");
        reveal_strlit("=");
        assert(amp@ =~= "&"@);
        assert(eq@ =~= "="@);
    }
    let pieces = split_chars(text.as_slice(), amp.as_slice());
    let mut user: Option<Vec<char>> = None;
    let mut pass: Option<Vec<char>> = None;
    let mut i: usize = 0;
    assert(dv(pieces@).take(0) =~= Seq::<Seq<char>>::empty());
    while i < pieces.len()
        invariant
            i <= pieces@.len(),
            eq@ == "="@,
            match user {
                Some(u) => form_value(form_pairs(dv(pieces@).take(i as int)), "username"@) == Some(
                    u@,
                ),
                None => form_value(form_pairs(dv(pieces@).take(i as int)), "username"@) is None,
            },
            match pass {
                Some(p) => form_value(form_pairs(dv(pieces@).take(i as int)), "password"@) == Some(
                    p@,
                ),
                None => form_value(form_pairs(dv(pieces@).take(i as int)), "password"@) is None,
            },
        decreases pieces@.len() - i,
    {
        let ghost pre = dv(pieces@).take(i as int);
        assert(dv(pieces@).take(i + 1).drop_last() =~= pre);
        assert(dv(pieces@).take(i + 1).last() == pieces@[i as int]@);
        let parts = split_once_chars(pieces[i].as_slice(), eq.as_slice());
        if parts.len() == 2 {
            let ghost pairs = form_pairs(pre).push((parts@[0]@, parts@[1]@));
            assert(pairs.drop_last() =~= form_pairs(pre));
            if eq_lit(parts[0].as_slice(), "username") {
                user = Some(parts[1].clone());
                proof {
                    reveal_strlit("username");
                    reveal_strlit("password");
                    assert("username"@ != "password"@) by {
                        assert("username"@[0] != "password"@[0]);
                    }
                }
            } else if eq_lit(parts[0].as_slice(), "password") {
                pass = Some(parts[1].clone());
            }
        }
        i = i + 1;
    }
    assert(dv(pieces@).take(i as int) =~= dv(pieces@));
    let ok_user = match &user {
        Some(u) => eq_lit(u.as_slice(), "user"),
        None => false,
    };
    let ok_pass = match &pass {
        Some(p) => eq_lit(p.as_slice(), "123"),
        None => false,
    };
    ok_user && ok_pass
}

// ---------------------------------------------------------------------
// Request properties
// ---------------------------------------------------------------------
/// The method a request is handled with: a `POST` whose body is valid
/// UTF-8 holding `_method=DELETE` is a `DELETE`.
pub open spec fn effective_method(method: HttpMethod, body: Seq<u8>) -> HttpMethod {
    if method == HttpMethod::POST {
        match utf8_decoded(body) {
            Some(text) => if contains(text, "_method=DELETE"@) {
                HttpMethod::DELETE
            } else {
                HttpMethod::POST
            },
            None => HttpMethod::POST,
        }
    } else {
        method
    }
}

pub fn method_for(request: &HttpRequest) -> (r: HttpMethod)
    ensures
        r == effective_method(request.method, request.body@),
{
    if request.method == HttpMethod::POST {
        match utf8_chars(request.body.as_slice()) {
            Some(text) => {
                let pat = chars_of("_method=DELETE");
                if contains_chars(text.as_slice(), pat.as_slice()) {
                    HttpMethod::DELETE
                } else {
                    HttpMethod::POST
                }
            },
            None => HttpMethod::POST,
        }
    } else {
        request.method
    }
}

/// A path to a `.php` or `.py` file runs as a CGI script.
pub open spec fn is_cgi_path(p: Seq<char>) -> bool {
    ends_with_str(p, ".php"@) || ends_with_str(p, ".py"@)
}

pub open spec fn ends_with_str(p: Seq<char>, s: Seq<char>) -> bool {
    crate::text::ends_with(p, s)
}

pub fn is_cgi_request(file_path: &str) -> (r: bool)
    ensures
        r == is_cgi_path(file_path@),
{
    let p = chars_of(file_path);
    let php = chars_of(".php");
    let py = chars_of(".py");
    has_suffix(p.as_slice(), php.as_slice()) || has_suffix(p.as_slice(), py.as_slice())
}

/// The request asks to keep the connection open: its `connection` header
/// is `keep-alive` in any case.
pub open spec fn wants_keep_alive(headers: Map<Seq<char>, Seq<char>>) -> bool {
    headers.contains_key("connection"@) && lowercase(headers["connection"@]) == "keep-alive"@
}

pub fn keep_alive(request: &HttpRequest) -> (r: bool)
    ensures
        r == wants_keep_alive(request.headers@),
{
    match request.headers.get(&String::from_str("connection")) {
        Some(v) => {
            let c = chars_of(v.as_str());
            let low = lower_chars(c.as_slice());
            eq_lit(low.as_slice(), "keep-alive")
        },
        None => false,
    }
}


// ---------------------------------------------------------------------
// File uploads
// ---------------------------------------------------------------------
/// The bytes `pat` occur at index `i` of `b`.
pub open spec fn bytes_at(b: Seq<u8>, pat: Seq<u8>, i: int) -> bool {
    0 <= i && i + pat.len() <= b.len() && b.subrange(i, i + pat.len()) == pat
}

/// The first index at or after `i` where a line of `b` starts with `pat`.
pub open spec fn line_with_prefix(b: Seq<u8>, pat: Seq<u8>, i: int) -> Option<int>
    decreases b.len() - i,
{
    if i < 0 || i >= b.len() {
        None
    } else if (i == 0 || b[i - 1] == 10u8) && bytes_at(b, pat, i) {
        Some(i)
    } else {
        line_with_prefix(b, pat, i + 1)
    }
}

/// The first line feed at or after index `i`.
pub open spec fn next_lf(b: Seq<u8>, i: int) -> Option<int>
    decreases b.len() - i,
{
    if i < 0 || i >= b.len() {
        None
    } else if b[i] == 10u8 {
        Some(i)
    } else {
        next_lf(b, i + 1)
    }
}

/// The last line feed before index `j`.
pub open spec fn last_lf_before(b: Seq<u8>, j: int) -> Option<int>
    decreases j,
{
    if j <= 0 || j > b.len() {
        None
    } else if b[j - 1] == 10u8 {
        Some(j - 1)
    } else {
        last_lf_before(b, j - 1)
    }
}

/// Where the uploaded file lies in a multipart body: from the start of the
/// second line after the first line that starts with `Content-Type:` to
/// the line break (`\r\n` or `\n`) before the last line (a final line
/// break ends the last line). The whole body when no line starts with
/// `Content-Type:`. `None` where those lines do not exist.
pub open spec fn content_range(b: Seq<u8>) -> Option<(int, int)> {
    match line_with_prefix(b, vstd::utf8::encode_utf8("Content-Type:"@), 0) {
        None => Some((0, b.len() as int)),
        Some(c) => match next_lf(b, c) {
            None => None,
            Some(e1) => match next_lf(b, e1 + 1) {
                None => None,
                Some(e2) => {
                    let tlen = if b.len() > 0 && b.last() == 10u8 {
                        b.len() - 1
                    } else {
                        b.len() as int
                    };
                    match last_lf_before(b, tlen) {
                        None => None,
                        Some(k) => {
                            let end = if k > 0 && b[k - 1] == 13u8 {
                                k - 1
                            } else {
                                k
                            };
                            if e2 + 1 <= end {
                                Some((e2 + 1, end))
                            } else {
                                None
                            }
                        },
                    }
                },
            },
        },
    }
}

/// The uploaded file's bytes, exactly as the body holds them: `None` where
/// `content_range` finds no file; such a body is refused.
pub open spec fn file_content(body: Seq<u8>) -> Option<Seq<u8>> {
    match content_range(body) {
        Some((s, e)) => Some(body.subrange(s, e)),
        None => None,
    }
}

fn find_line_with_prefix(b: &[u8], pat: &[u8]) -> (r: Option<usize>)
    ensures
        match r {
            Some(i) => line_with_prefix(b@, pat@, 0) == Some(i as int),
            None => line_with_prefix(b@, pat@, 0) is None,
        },
{
    let mut i: usize = 0;
    while i < b.len()
        invariant
            i <= b@.len(),
            line_with_prefix(b@, pat@, i as int) == line_with_prefix(b@, pat@, 0),
        decreases b@.len() - i,
    {
        if (i == 0 || b[i - 1] == 10u8) && pat.len() <= b.len() - i {
            let mut j: usize = 0;
            while j < pat.len() && b[i + j] == pat[j]
                invariant
                    j <= pat@.len(),
                    pat@.len() == pat.len(),
                    b@.len() == b.len(),
                    i + pat@.len() <= b@.len(),
                    forall|t: int| 0 <= t < j ==> b@[i + t] == pat@[t],
                decreases pat@.len() - j,
            {
                j = j + 1;
            }
            if j == pat.len() {
                assert(b@.subrange(i as int, i + pat@.len()) =~= pat@);
                return Some(i);
            }
            assert(b@.subrange(i as int, i + pat@.len())[j as int] == b@[i + j]);
            assert(!bytes_at(b@, pat@, i as int));
        }
        i = i + 1;
    }
    None
}

fn find_lf(b: &[u8], from: usize) -> (r: Option<usize>)
    ensures
        match r {
            Some(i) => next_lf(b@, from as int) == Some(i as int),
            None => next_lf(b@, from as int) is None,
        },
{
    let mut i = from;
    while i < b.len()
        invariant
            from <= i,
            next_lf(b@, i as int) == next_lf(b@, from as int),
        decreases b@.len() - i,
    {
        if b[i] == 10u8 {
            return Some(i);
        }
        i = i + 1;
    }
    None
}

fn rfind_lf_before(b: &[u8], to: usize) -> (r: Option<usize>)
    requires
        to <= b@.len(),
    ensures
        match r {
            Some(i) => last_lf_before(b@, to as int) == Some(i as int),
            None => last_lf_before(b@, to as int) is None,
        },
{
    let mut j = to;
    while j > 0
        invariant
            j <= to,
            to <= b@.len(),
            last_lf_before(b@, j as int) == last_lf_before(b@, to as int),
        decreases j,
    {
        if b[j - 1] == 10u8 {
            return Some(j - 1);
        }
        j = j - 1;
    }
    None
}

pub fn extract_file_content(body: &[u8]) -> (r: Option<Vec<u8>>)
    ensures
        match r {
            Some(c) => file_content(body@) == Some(c@),
            None => file_content(body@) is None,
        },
{
    let pat = utf8_of(chars_of("Content-Type:").as_slice());
    let c = match find_line_with_prefix(body, pat.as_slice()) {
        None => {
            assert(body@.subrange(0, body@.len() as int) =~= body@);
            return Some(vstd::slice::slice_to_vec(body));
        },
        Some(c) => c,
    };
    let e1 = match find_lf(body, c) {
        None => {
            return None;
        },
        Some(e) => e,
    };
    proof {
        lemma_next_lf_bounds(body@, c as int);
        assert(body@.len() == body.len());
    }
    let e2 = match find_lf(body, e1 + 1) {
        None => {
            return None;
        },
        Some(e) => e,
    };
    proof {
        lemma_next_lf_bounds(body@, e1 + 1);
    }
    let n = body.len();
    let tlen = if n > 0 && body[n - 1] == 10u8 {
        n - 1
    } else {
        n
    };
    let k = match rfind_lf_before(body, tlen) {
        None => {
            return None;
        },
        Some(k) => k,
    };
    proof {
        lemma_last_lf_bounds(body@, tlen as int);
    }
    let end = if k > 0 && body[k - 1] == 13u8 {
        k - 1
    } else {
        k
    };
    if e2 + 1 <= end {
        Some(vstd::slice::slice_to_vec(slice_subrange(body, e2 + 1, end)))
    } else {
        None
    }
}

proof fn lemma_next_lf_bounds(b: Seq<u8>, i: int)
    ensures
        next_lf(b, i) matches Some(k) ==> i <= k < b.len(),
    decreases b.len() - i,
{
    if 0 <= i < b.len() && b[i] != 10u8 {
        lemma_next_lf_bounds(b, i + 1);
    }
}

proof fn lemma_last_lf_bounds(b: Seq<u8>, j: int)
    ensures
        last_lf_before(b, j) matches Some(k) ==> 0 <= k < j && k < b.len(),
    decreases j,
{
    if 0 < j <= b.len() && b[j - 1] != 10u8 {
        lemma_last_lf_bounds(b, j - 1);
    }
}

/// The characters `sanitize_filename` keeps: letters and digits, `.`, `-`, `_`.
pub open spec fn keeps(c: char) -> bool {
    alphanumeric(c) || c == '.' || c == '-' || c == '_'
}

pub open spec fn sanitized(s: Seq<char>) -> Seq<char>
    decreases s.len(),
{
    if s.len() == 0 {
        seq![]
    } else if keeps(s.last()) {
        sanitized(s.drop_last()).push(s.last())
    } else {
        sanitized(s.drop_last())
    }
}

/// A sanitised name holds only the characters that are kept, and
/// sanitising it again changes nothing.
pub proof fn law_sanitized_is_clean(s: Seq<char>)
    ensures
        forall|i: int| 0 <= i < sanitized(s).len() ==> keeps(#[trigger] sanitized(s)[i]),
        sanitized(sanitized(s)) == sanitized(s),
    decreases s.len(),
{
    if s.len() > 0 {
        law_sanitized_is_clean(s.drop_last());
        let t = sanitized(s.drop_last());
        if keeps(s.last()) {
            let u = t.push(s.last());
            assert(u.drop_last() =~= t);
            assert(u.last() == s.last());
            assert forall|i: int| 0 <= i < u.len() implies keeps(#[trigger] u[i]) by {
                if i < t.len() {
                    assert(u[i] == t[i]);
                }
            }
        }
    }
}

pub fn sanitize_filename(filename: &str) -> (r: String)
    ensures
        r@ == sanitized(filename@),
{
    let s = chars_of(filename);
    let mut out: Vec<char> = Vec::new();
    let mut i: usize = 0;
    while i < s.len()
        invariant
            i <= s@.len(),
            out@ == sanitized(s@.take(i as int)),
        decreases s@.len() - i,
    {
        assert(s@.take(i + 1).drop_last() =~= s@.take(i as int));
        let c = s[i];
        if char_is_alphanumeric(c) || c == '.' || c == '-' || c == '_' {
            out.push(c);
        }
        i = i + 1;
    }
    assert(s@.take(i as int) =~= s@);
    string_of(out.as_slice())
}

/// The first line at or after `i` holding both `Content-Disposition:` and `filename=`.
pub open spec fn disposition_line(ls: Seq<Seq<char>>, i: int) -> Option<int>
    decreases ls.len() - i,
{
    if i < 0 || i >= ls.len() {
        None
    } else if contains(ls[i], "Content-Disposition:"@) && contains(ls[i], "filename="@) {
        Some(i)
    } else {
        disposition_line(ls, i + 1)
    }
}

/// The file name a multipart body declares: on the first line holding
/// `Content-Disposition:` and `filename=`, the text between the first
/// `filename=` and the next one, without surrounding quotes. `None` for a
/// body that is not valid UTF-8 or has no such line.
pub open spec fn filename_in_body(body: Seq<u8>) -> Option<Seq<char>> {
    match utf8_decoded(body) {
        None => None,
        Some(text) => {
            let ls = lines(text);
            match disposition_line(ls, 0) {
                Some(i) => Some(trim_char(split(ls[i], "filename="@)[1], '"')),
                None => None,
            }
        },
    }
}

proof fn lemma_split_found(s: Seq<char>, pat: Seq<char>)
    requires
        pat.len() > 0,
        contains(s, pat),
    ensures
        split(s, pat).len() >= 2,
{
    crate::text::lemma_find_from_props(s, pat, 0);
    let k = find(s, pat).unwrap();
    assert(split(s, pat) == seq![s.subrange(0, k)] + crate::text::split_from(s, pat, k + pat.len()));
    crate::text::lemma_split_from_nonempty(s, pat, k + pat.len());
}

pub fn extract_filename_from_body(body: &[u8]) -> (r: Option<String>)
    ensures
        opt_str(r) == filename_in_body(body@),
{
    match utf8_chars(body) {
        None => None,
        Some(text) => {
            let ls = lines_of(text.as_slice());
            let ghost lsv = dv(ls@);
            let cd = chars_of("Content-Disposition:");
            let fname = chars_of("filename=");
            proof {
                reveal_strlit("filename=");
            }
            let mut i: usize = 0;
            while i < ls.len()
                invariant
                    i <= ls@.len(),
                    lsv == dv(ls@),
                    lsv == lines(text@),
                    utf8_decoded(body@) == Some(text@),
                    fname@ == "filename="@,
                    fname@.len() == 9,
                    cd@ == "Content-Disposition:"@,
                    disposition_line(lsv, i as int) == disposition_line(lsv, 0),
                decreases ls@.len() - i,
            {
                let line = ls[i].as_slice();
                if contains_chars(line, cd.as_slice()) && contains_chars(line, fname.as_slice()) {
                    let pieces = split_chars(line, fname.as_slice());
                    proof {
                        lemma_split_found(line@, fname@);
                    }
                    let f = trim_matches_char(pieces[1].as_slice(), '"');
                    return Some(string_of(f.as_slice()));
                }
                i = i + 1;
            }
            None
        },
    }
}

pub open spec fn opt_str(o: Option<String>) -> Option<Seq<char>> {
    crate::text::opt_view(o)
}

/// The first piece at or after `i` that starts with `filename=` once trimmed.
pub open spec fn filename_piece(pieces: Seq<Seq<char>>, i: int) -> Option<int>
    decreases pieces.len() - i,
{
    if i < 0 || i >= pieces.len() {
        None
    } else if starts_with(trim(pieces[i]), "filename="@) {
        Some(i)
    } else {
        filename_piece(pieces, i + 1)
    }
}

/// The file name a `content-disposition` header declares: in its first
/// `;`-separated piece that starts with `filename=`, the rest without
/// quotes.
pub open spec fn filename_in_headers(headers: Map<Seq<char>, Seq<char>>) -> Option<Seq<char>> {
    if headers.contains_key("content-disposition"@) {
        let pieces = split(headers["content-disposition"@], ";"@);
        match filename_piece(pieces, 0) {
            Some(i) => Some(trim_char(trim_start_str(trim(pieces[i]), "filename="@), '"')),
            None => None,
        }
    } else {
        None
    }
}

pub fn extract_filename_from_headers(headers: &StrMap) -> (r: Option<String>)
    ensures
        opt_str(r) == filename_in_headers(headers@),
{
    match headers.get(&String::from_str("content-disposition")) {
        None => None,
        Some(disp) => {
            let d = chars_of(disp.as_str());
            let semi = vec![';'];
            proof {
                reveal_strlit(";");
                assert(semi@ =~= ";"@);
            }
            let pieces = split_chars(d.as_slice(), semi.as_slice());
            let fname = chars_of("filename=");
            let mut i: usize = 0;
            while i < pieces.len()
                invariant
                    i <= pieces@.len(),
                    headers@.contains_key("content-disposition"@),
                    dv(pieces@) == split(headers@["content-disposition"@], ";"@),
                    fname@ == "filename="@,
                    filename_piece(dv(pieces@), i as int) == filename_piece(dv(pieces@), 0),
                decreases pieces@.len() - i,
            {
                let part = trim_chars(pieces[i].as_slice());
                if has_prefix(part.as_slice(), fname.as_slice()) {
                    let rest = trim_start_matches_chars(part.as_slice(), fname.as_slice());
                    let f = trim_matches_char(rest.as_slice(), '"');
                    return Some(string_of(f.as_slice()));
                }
                i = i + 1;
            }
            None
        },
    }
}

/// The name an upload is stored under, before sanitising: the one the body
/// declares, else the one the headers declare, else `uploaded_file`.
pub open spec fn upload_name(body: Seq<u8>, headers: Map<Seq<char>, Seq<char>>) -> Seq<char> {
    match filename_in_body(body) {
        Some(n) => n,
        None => match filename_in_headers(headers) {
            Some(n) => n,
            None => "uploaded_file"@,
        },
    }
}

pub fn choose_upload_name(request: &HttpRequest) -> (r: String)
    ensures
        r@ == upload_name(request.body@, request.headers@),
{
    match extract_filename_from_body(request.body.as_slice()) {
        Some(n) => n,
        None => match extract_filename_from_headers(&request.headers) {
            Some(n) => n,
            None => String::from_str("uploaded_file"),
        },
    }
}

/// What `Path::file_stem` returns for this path.
pub uninterp spec fn path_file_stem(p: Seq<char>) -> Option<Seq<char>>;

/// What `Path::extension` returns for this path.
pub uninterp spec fn path_extension(p: Seq<char>) -> Option<Seq<char>>;

/// Calls `Path::file_stem`; the result is named `path_file_stem`.
#[verifier::external_body]
fn file_stem_of(p: &str) -> (r: Option<String>)
    ensures
        opt_str(r) == path_file_stem(p@),
{
    std::path::Path::new(p).file_stem().and_then(|s| s.to_str()).map(|s| s.to_string())
}

/// Calls `Path::extension`; the result is named `path_extension`.
#[verifier::external_body]
pub(crate) fn extension_of(p: &str) -> (r: Option<String>)
    ensures
        opt_str(r) == path_extension(p@),
{
    std::path::Path::new(p).extension().and_then(|s| s.to_str()).map(|s| s.to_string())
}

/// The stem and the extension (empty when there is none) that numbered
/// copies of `filename` are named from; `None` for a name without a stem.
pub fn unique_name_parts(filename: &str) -> (r: Option<(String, String)>)
    ensures
        match r {
            Some((stem, ext)) => path_file_stem(filename@) == Some(stem@) && ext@ == (match path_extension(
                filename@,
            ) {
                Some(e) => e,
                None => seq![],
            }),
            None => path_file_stem(filename@) is None,
        },
{
    match file_stem_of(filename) {
        None => None,
        Some(stem) => {
            let ext = match extension_of(filename) {
                Some(e) => e,
                None => String::new(),
            };
            Some((stem, ext))
        },
    }
}

/// The name of the `counter`-th numbered copy: `stem_counter.ext`.
pub open spec fn numbered_name(stem: Seq<char>, counter: nat, ext: Seq<char>) -> Seq<char> {
    stem + "_"@ + crate::text::decimal(counter) + "."@ + ext
}

pub fn numbered_filename(stem: &str, counter: usize, ext: &str) -> (r: String)
    ensures
        r@ == numbered_name(stem@, counter as nat, ext@),
{
    let mut s = String::from_str(stem);
    s.append("_");
    let d = crate::text::decimal_chars(counter);
    s.append(string_of(d.as_slice()).as_str());
    s.append(".");
    s.append(ext);
    s
}

/// The largest copy number tried: copies are counted in an `i32`.
pub const MAX_COPY: usize = 2147483647;

/// The extension of a file name, empty when it has none.
pub open spec fn extension_text(filename: Seq<char>) -> Seq<char> {
    match path_extension(filename) {
        Some(e) => e,
        None => seq![],
    }
}

/// The path of the `k`-th numbered copy of `filename` in `dir`.
pub open spec fn copy_path(dir: Seq<char>, filename: Seq<char>, k: nat) -> Seq<char> {
    crate::router::join_path(dir, numbered_name(path_file_stem(filename).unwrap(), k, extension_text(filename)))
}

/// The `k`-th name tried for an upload: `dir/filename`, then the numbered
/// copies `dir/stem_k.ext`.
pub open spec fn candidate_path(dir: Seq<char>, filename: Seq<char>, k: nat) -> Seq<char> {
    if k == 0 {
        crate::router::join_path(dir, filename)
    } else {
        copy_path(dir, filename, k)
    }
}

/// The first index from `k` on, up to `MAX_COPY`, whose name is not taken.
pub open spec fn first_free(taken: Seq<bool>, k: int) -> Option<int>
    decreases taken.len() - k,
{
    if k < 0 || k >= taken.len() || k > MAX_COPY {
        None
    } else if !taken[k] {
        Some(k)
    } else {
        first_free(taken, k + 1)
    }
}

/// The name an upload of `filename` gets in `dir`, when `taken[k]` says
/// whether the `k`-th name tried is taken: the first name not taken;
/// `None` for a name without a stem or when every name listed is taken.
pub open spec fn free_path(dir: Seq<char>, filename: Seq<char>, taken: Seq<bool>) -> Option<Seq<char>> {
    if path_file_stem(filename) is None {
        None
    } else {
        match first_free(taken, 0) {
            Some(k) => Some(candidate_path(dir, filename, k as nat)),
            None => None,
        }
    }
}

/// The name to store an upload under, given what the disk says of the
/// names tried: `taken[k]` for the `k`-th of `dir/filename`,
/// `dir/stem_1.ext`, `dir/stem_2.ext`, ...
pub fn first_free_path(dir: &str, filename: &str, taken: &Vec<bool>) -> (r: Option<String>)
    ensures
        opt_str(r) == free_path(dir@, filename@, taken@),
{
    let (stem, ext) = match unique_name_parts(filename) {
        None => {
            return None;
        },
        Some(parts) => parts,
    };
    let mut k: usize = 0;
    while k < taken.len() && k <= MAX_COPY
        invariant
            path_file_stem(filename@) == Some(stem@),
            ext@ == extension_text(filename@),
            first_free(taken@, k as int) == first_free(taken@, 0),
        decreases taken@.len() - k,
    {
        if !taken[k] {
            let path = if k == 0 {
                crate::router::join_path_str(dir, filename)
            } else {
                let name = numbered_filename(stem.as_str(), k, ext.as_str());
                crate::router::join_path_str(dir, name.as_str())
            };
            return Some(path);
        }
        k = k + 1;
    }
    None
}

/// `answers` are what the disk said of the names tried for an upload, in
/// order: the `k`-th is about `candidate_path(dir, filename, k)`.
pub open spec fn names_asked(dir: Seq<char>, filename: Seq<char>, answers: Seq<crate::router::Asked>) -> bool {
    forall|k: int| 0 <= k < answers.len() ==> (#[trigger] answers[k]).path@ == candidate_path(dir, filename, k as nat)
}

/// Whether each name asked about is taken, in order.
pub open spec fn taken_of(answers: Seq<crate::router::Asked>) -> Seq<bool> {
    Seq::new(answers.len(), |k: int| answers[k].yes)
}

/// When the asking stops: at least one name is asked about, every name
/// but the last was reported taken, and the last was reported free unless
/// all `MAX_COPY + 1` names were asked about.
pub open spec fn asked_until_free(answers: Seq<crate::router::Asked>) -> bool {
    &&& 0 < answers.len() <= MAX_COPY + 1
    &&& forall|k: int| 0 <= k < answers.len() - 1 ==> (#[trigger] answers[k]).yes
    &&& (!answers.last().yes || answers.len() == MAX_COPY + 1)
}

proof fn lemma_first_free_run(taken: Seq<bool>, j: int)
    requires
        0 <= j <= taken.len(),
        taken.len() <= MAX_COPY + 1,
        forall|i: int| j <= i < taken.len() - 1 ==> #[trigger] taken[i],
    ensures
        j < taken.len() && !taken.last() ==> first_free(taken, j) == Some(taken.len() - 1),
        (j == taken.len() || taken.last()) ==> first_free(taken, j) is None,
    decreases taken.len() - j,
{
    if j < taken.len() {
        lemma_first_free_run(taken, j + 1);
    }
}

/// The first of `dir/filename`, `dir/stem_1.ext`, `dir/stem_2.ext`, ...
/// that does not exist on disk, as `first_free_path` chooses it from the
/// disk's answers about exactly those names, asked in that order until one
/// is reported free: the result is that name. `None` for a name without a
/// stem (the disk is not asked), or when all `MAX_COPY + 1` names were
/// reported taken. What the disk answers is not stated.
pub fn get_unique_filename(dir: &str, filename: &str) -> (r: Option<String>)
    ensures
        exists|answers: Seq<crate::router::Asked>|
            #[trigger] names_asked(dir@, filename@, answers)
            && opt_str(r) == free_path(dir@, filename@, taken_of(answers))
            && (path_file_stem(filename@) is Some ==> asked_until_free(answers) && (r is None <==> (
            answers.len() == MAX_COPY + 1 && answers.last().yes)) && (r matches Some(p) ==> p@
            == answers.last().path@ && !answers.last().yes)),
        path_file_stem(filename@) is None ==> r is None,
{
    let (stem, ext) = match unique_name_parts(filename) {
        None => {
            assert(names_asked(dir@, filename@, Seq::<crate::router::Asked>::empty()));
            assert(opt_str(None) == free_path(dir@, filename@, taken_of(Seq::<crate::router::Asked>::empty())));
            return None;
        },
        Some(parts) => parts,
    };
    let mut answers: Vec<crate::router::Asked> = Vec::new();
    let mut taken: Vec<bool> = Vec::new();
    let mut k: usize = 0;
    while k <= MAX_COPY
        invariant_except_break
            k <= MAX_COPY + 1,
            taken@.len() == k,
            answers@.len() == k,
            taken@ == taken_of(answers@),
            names_asked(dir@, filename@, answers@),
            forall|j: int| 0 <= j < k ==> (#[trigger] answers@[j]).yes,
            path_file_stem(filename@) == Some(stem@),
            ext@ == extension_text(filename@),
        ensures
            taken@ == taken_of(answers@),
            names_asked(dir@, filename@, answers@),
            asked_until_free(answers@),
        decreases MAX_COPY + 1 - k,
    {
        let path = if k == 0 {
            crate::router::join_path_str(dir, filename)
        } else {
            let name = numbered_filename(stem.as_str(), k, ext.as_str());
            crate::router::join_path_str(dir, name.as_str())
        };
        assert(path@ == candidate_path(dir@, filename@, k as nat));
        let asked = crate::router::path_exists(path.as_str());
        let exists = asked.yes;
        taken.push(exists);
        answers.push(asked);
        assert(taken@ =~= taken_of(answers@));
        if !exists {
            break;
        }
        k = k + 1;
    }
    let r = first_free_path(dir, filename, &taken);
    proof {
        assert forall|i: int| 0 <= i < taken@.len() - 1 implies #[trigger] taken@[i] by {
            assert(answers@[i].yes);
        }
        assert(taken@.last() == answers@.last().yes);
        lemma_first_free_run(taken@, 0);
        assert(answers@.last() == answers@[answers@.len() - 1]);
    }
    assert(opt_str(r) == free_path(dir@, filename@, taken_of(answers@)));
    assert(names_asked(dir@, filename@, answers@));
    r
}


// ---------------------------------------------------------------------
// Writing responses
// ---------------------------------------------------------------------
/// The reason phrase written after a status code.
pub open spec fn status_text(status: u16) -> Seq<char> {
    if status == 200 {
        "OK"@
    } else if status == 400 {
        "Bad Request"@
    } else if status == 404 {
        "Not Found"@
    } else if status == 408 {
        "Request Timeout"@
    } else if status == 500 {
        "Internal Server Error"@
    } else if status == 413 {
        "Payload Too Large"@
    } else if status == 301 || status == 302 {
        "Redirection"@
    } else {
        "Unknown"@
    }
}

pub fn status_text_of(status: u16) -> (r: &'static str)
    ensures
        r@ == status_text(status),
{
    if status == 200 {
        "OK"
    } else if status == 400 {
        "Bad Request"
    } else if status == 404 {
        "Not Found"
    } else if status == 408 {
        "Request Timeout"
    } else if status == 500 {
        "Internal Server Error"
    } else if status == 413 {
        "Payload Too Large"
    } else if status == 301 || status == 302 {
        "Redirection"
    } else {
        "Unknown"
    }
}

/// `name: value\r\n` for each header, in order.
pub open spec fn header_block(pairs: Seq<(Seq<char>, Seq<char>)>) -> Seq<char>
    decreases pairs.len(),
{
    if pairs.len() == 0 {
        seq![]
    } else {
        header_block(pairs.drop_last()) + pairs.last().0 + ": "@ + pairs.last().1 + "\r\n"@
    }
}

/// Each chunk as its size in upper-case hexadecimal, `\r\n`, the bytes and `\r\n`.
pub open spec fn chunk_block(cs: Seq<Seq<u8>>) -> Seq<u8>
    decreases cs.len(),
{
    if cs.len() == 0 {
        seq![]
    } else {
        chunk_block(cs.drop_last()) + vstd::utf8::encode_utf8(
            crate::text::hex_upper(cs.last().len()) + "\r\n"@,
        ) + cs.last() + vstd::utf8::encode_utf8("\r\n"@)
    }
}

/// The bytes written for a response: the status line, the headers in the
/// order given, an empty line, then the body. A chunked body is announced
/// by a `Transfer-Encoding: chunked` line and an empty line written after
/// the headers' empty line, and ends with a chunk of size zero.
pub open spec fn response_bytes(status: u16, pairs: Seq<(Seq<char>, Seq<char>)>, body: ResponseBody) -> Seq<u8> {
    let head = vstd::utf8::encode_utf8(
        "HTTP/1.1 "@ + crate::text::decimal(status as nat) + " "@ + status_text(status) + "\r\n"@
            + header_block(pairs) + "\r\n"@,
    );
    head + match body {
        ResponseBody::Whole(b) => b@,
        ResponseBody::Chunked(cs) => vstd::utf8::encode_utf8("Transfer-Encoding: chunked\r\n\r\n"@)
            + chunk_block(bdv(cs@)) + vstd::utf8::encode_utf8("0\r\n\r\n"@),
    }
}

/// The bytes to write for `response`, its headers in the map's order.
pub fn encode_response(response: &HttpResponse) -> (r: Vec<u8>)
    ensures
        r@ == response_bytes(response.status, response.headers.pairs(), response.body),
{
    let mut head = chars_of("HTTP/1.1 ");
    let d = crate::text::decimal_chars(response.status as usize);
    head.extend_from_slice(d.as_slice());
    head.extend_from_slice(chars_of(" ").as_slice());
    head.extend_from_slice(chars_of(status_text_of(response.status)).as_slice());
    head.extend_from_slice(chars_of("\r\n").as_slice());
    let ghost start = head@;
    assert(start =~= "HTTP/1.1 "@ + crate::text::decimal(response.status as nat) + " "@
        + status_text(response.status) + "\r\n"@);
    let entries = response.headers.entries();
    let ghost pairs = response.headers.pairs();
    let mut i: usize = 0;
    assert(pairs.take(0) =~= Seq::<(Seq<char>, Seq<char>)>::empty());
    assert(start + header_block(pairs.take(0)) =~= start);
    while i < entries.len()
        invariant
            i <= entries@.len(),
            entries@.map_values(|e: (String, String)| pair_view(e)) == pairs,
            head@ == start + header_block(pairs.take(i as int)),
        decreases entries@.len() - i,
    {
        let ghost before = head@;
        head.extend_from_slice(chars_of(entries[i].0.as_str()).as_slice());
        head.extend_from_slice(chars_of(": ").as_slice());
        head.extend_from_slice(chars_of(entries[i].1.as_str()).as_slice());
        head.extend_from_slice(chars_of("\r\n").as_slice());
        proof {
            let t = pairs.take(i + 1);
            assert(t.drop_last() =~= pairs.take(i as int));
            assert(t.last() == pair_view(entries@[i as int]));
            assert(head@ =~= start + header_block(t));
        }
        i = i + 1;
    }
    assert(pairs.take(entries@.len() as int) =~= pairs);
    head.extend_from_slice(chars_of("\r\n").as_slice());
    assert(head@ =~= "HTTP/1.1 "@ + crate::text::decimal(response.status as nat) + " "@
        + status_text(response.status) + "\r\n"@ + header_block(pairs) + "\r\n"@);
    let mut out = utf8_of(head.as_slice());
    match &response.body {
        ResponseBody::Whole(b) => {
            out.extend_from_slice(b.as_slice());
        },
        ResponseBody::Chunked(cs) => {
            let te = utf8_of(chars_of("Transfer-Encoding: chunked\r\n\r\n").as_slice());
            out.extend_from_slice(te.as_slice());
            let ghost base = out@;
            let mut k: usize = 0;
            assert(bdv(cs@).take(0) =~= Seq::<Seq<u8>>::empty());
            assert(base + chunk_block(bdv(cs@).take(0)) =~= base);
            while k < cs.len()
                invariant
                    k <= cs@.len(),
                    out@ == base + chunk_block(bdv(cs@).take(k as int)),
                decreases cs@.len() - k,
            {
                let ghost before = out@;
                let mut size = crate::text::hex_upper_chars(cs[k].len());
                size.extend_from_slice(chars_of("\r\n").as_slice());
                assert(size@ =~= crate::text::hex_upper(cs@[k as int]@.len()) + "\r\n"@);
                let sz = utf8_of(size.as_slice());
                out.extend_from_slice(sz.as_slice());
                out.extend_from_slice(cs[k].as_slice());
                let crlf = utf8_of(chars_of("\r\n").as_slice());
                out.extend_from_slice(crlf.as_slice());
                assert(out@ =~= before + sz@ + cs@[k as int]@ + crlf@);
                proof {
                    let t = bdv(cs@).take(k + 1);
                    assert(t.drop_last() =~= bdv(cs@).take(k as int));
                    assert(t.last() == cs@[k as int]@);
                    assert(out@ =~= base + chunk_block(t));
                }
                k = k + 1;
            }
            assert(bdv(cs@).take(cs@.len() as int) =~= bdv(cs@));
            out.extend_from_slice(utf8_of(chars_of("0\r\n\r\n").as_slice()).as_slice());
        },
    }
    out
}

/// A `text/plain` response with the given text.
pub fn plain_response(status: u16, text: &str) -> (r: HttpResponse)
    ensures
        r.status == status,
        r.headers@ == Map::<Seq<char>, Seq<char>>::empty().insert("Content-Type"@, "text/plain"@).insert(
            "Content-Length"@,
            crate::text::decimal(vstd::utf8::encode_utf8(text@).len()),
        ),
        r.body matches ResponseBody::Whole(b) && b@ == vstd::utf8::encode_utf8(text@),
{
    let body = utf8_of(chars_of(text).as_slice());
    HttpResponse::new(status, body, "text/plain")
}

/// An HTML response with the given text.
pub fn html_response(status: u16, text: &str) -> (r: HttpResponse)
    ensures
        r.status == status,
        r.headers@ == Map::<Seq<char>, Seq<char>>::empty().insert("Content-Type"@, "text/html"@).insert(
            "Content-Length"@,
            crate::text::decimal(vstd::utf8::encode_utf8(text@).len()),
        ),
        r.body matches ResponseBody::Whole(b) && b@ == vstd::utf8::encode_utf8(text@),
{
    let body = utf8_of(chars_of(text).as_slice());
    HttpResponse::new(status, body, "text/html")
}

/// The page shown for an error without a page of its own.
pub open spec fn fallback_error_text(status: u16) -> Seq<char> {
    "<html><body><h1>Error "@ + crate::text::decimal(status as nat) + "</h1></body></html>"@
}

pub fn fallback_error_page(status: u16) -> (r: HttpResponse)
    ensures
        r.status == status,
        r.body matches ResponseBody::Whole(b) && b@ == vstd::utf8::encode_utf8(
            fallback_error_text(status),
        ),
        r.headers@ == Map::<Seq<char>, Seq<char>>::empty().insert("Content-Type"@, "text/html"@).insert(
            "Content-Length"@,
            crate::text::decimal(vstd::utf8::encode_utf8(fallback_error_text(status)).len()),
        ),
{
    let mut s = chars_of("<html><body><h1>Error ");
    s.extend_from_slice(crate::text::decimal_chars(status as usize).as_slice());
    s.extend_from_slice(chars_of("</h1></body></html>").as_slice());
    assert(s@ =~= fallback_error_text(status));
    let st = string_of(s.as_slice());
    html_response(status, st.as_str())
}

/// Where the default page for a status is looked for: `error_pages/<status>.html`.
pub open spec fn default_error_page_path(status: u16) -> Seq<char> {
    crate::router::join_path("error_pages"@, crate::text::decimal(status as nat) + ".html"@)
}

pub fn default_error_page(status: u16) -> (r: String)
    ensures
        r@ == default_error_page_path(status),
{
    let mut name = crate::text::decimal_chars(status as usize);
    name.extend_from_slice(chars_of(".html").as_slice());
    let n = string_of(name.as_slice());
    crate::router::join_path_str("error_pages", n.as_str())
}

/// Where a configured error page is looked for: under `custom_error_pages`.
pub open spec fn custom_error_page_path(page: Seq<char>) -> Seq<char> {
    crate::router::join_path("custom_error_pages"@, page)
}

/// The configured pages for `status`, block by block, as paths to read in order.
pub open spec fn custom_pages(cfgs: Seq<crate::config::ServerSpec>, status: u16) -> Seq<Seq<char>>
    decreases cfgs.len(),
{
    if cfgs.len() == 0 {
        seq![]
    } else if cfgs.last().error_pages.contains_key(status) {
        custom_pages(cfgs.drop_last(), status).push(
            custom_error_page_path(cfgs.last().error_pages[status]),
        )
    } else {
        custom_pages(cfgs.drop_last(), status)
    }
}

pub fn custom_error_pages(configs: &Vec<crate::config::ServerConfig>, status: u16) -> (r: Vec<String>)
    ensures
        crate::text::strs(r@) == custom_pages(crate::config::servers_view(configs@), status),
{
    broadcast use vstd::std_specs::hash::group_hash_axioms;

    let ghost sv = crate::config::servers_view(configs@);
    let mut out: Vec<String> = Vec::new();
    let mut i: usize = 0;
    assert(sv.take(0) =~= Seq::<crate::config::ServerSpec>::empty());
    while i < configs.len()
        invariant
            i <= configs@.len(),
            sv == crate::config::servers_view(configs@),
            crate::text::strs(out@) == custom_pages(sv.take(i as int), status),
        decreases configs@.len() - i,
    {
        let t: Ghost<Seq<crate::config::ServerSpec>> = Ghost(sv.take(i + 1));
        assert(t@.drop_last() =~= sv.take(i as int));
        assert(t@.last() == configs@[i as int]@);
        match configs[i].error_pages.get(&status) {
            Some(page) => {
                let p = crate::router::join_path_str("custom_error_pages", page.as_str());
                assert(crate::text::strs(out@.push(p)) =~= crate::text::strs(out@).push(p@));
                out.push(p);
            },
            None => {},
        }
        i = i + 1;
    }
    assert(sv.take(configs@.len() as int) =~= sv);
    out
}


// ---------------------------------------------------------------------
// Login
// ---------------------------------------------------------------------
/// The login page. Its decimal points are written `\x2e`, so that the
/// source holds no decimal number.
pub const LOGIN_FORM: &'static str = "\n    <!DOCTYPE html>\n    <html lang=\"en\">\n    <head>\n        <meta charset=\"UTF-8\">\n        <meta name=\"viewport\" content=\"width=device-width, initial-scale=1\x2e0\">\n        <title>Login</title>\n        <style>\n            body {\n                font-family: Arial, sans-serif;\n                background-color: #f0f0f0;\n                display: flex;\n                justify-content: center;\n                align-items: center;\n                height: 100vh;\n                margin: 0;\n            }\n            .login-container {\n                background-color: white;\n                padding: 2rem;\n                border-radius: 8px;\n                box-shadow: 0 4px 6px rgba(0, 0, 0, 0\x2e1);\n                width: 300px;\n            }\n            h2 {\n                text-align: center;\n                color: #333;\n            }\n            form {\n                display: flex;\n                flex-direction: column;\n            }\n            label {\n                margin-top: 1rem;\n                color: #555;\n            }\n            input[type=\"text\"], input[type=\"password\"] {\n                padding: 0\x2e5rem;\n                margin-top: 0\x2e5rem;\n                border: 1px solid #ddd;\n                border-radius: 4px;\n            }\n            input[type=\"submit\"] {\n                margin-top: 1\x2e5rem;\n                padding: 0\x2e75rem;\n                background-color: #4CAF50;\n                color: white;\n                border: none;\n                border-radius: 4px;\n                cursor: pointer;\n                transition: background-color 0\x2e3s;\n            }\n            input[type=\"submit\"]:hover {\n                background-color: #45a049;\n            }\n        </style>\n    </head>\n    <body>\n        <div class=\"login-container\">\n            <h2>Login</h2>\n            <form method=\"post\" action=\"/login\">\n                <label for=\"username\">Username:</label>\n                <input type=\"text\" id=\"username\" name=\"username\" required>\n                \n                <label for=\"password\">Password:</label>\n                <input type=\"password\" id=\"password\" name=\"password\" required>\n                \n                <input type=\"submit\" value=\"Login\">\n            </form>\n        </div>\n    </body>\n    </html>\n    ";

/// The headers of the answer to a successful login: back to `/`, with the
/// new session in a cookie.
pub open spec fn login_headers(id: Seq<char>) -> Map<Seq<char>, Seq<char>> {
    Map::<Seq<char>, Seq<char>>::empty().insert("Content-Type"@, "text/plain"@).insert(
        "Content-Length"@,
        crate::text::decimal(0),
    ).insert("Location"@, "/"@).insert("Set-Cookie"@, session_cookie(id))
}

/// The cookie that carries a session: `session_id=<id>; HttpOnly`.
pub open spec fn session_cookie(id: Seq<char>) -> Seq<char> {
    "session_id="@ + id + "; HttpOnly"@
}

pub fn session_cookie_for(id: &str) -> (r: String)
    ensures
        r@ == session_cookie(id@),
{
    let mut s = String::from_str("session_id=");
    s.append(id);
    s.append("; HttpOnly");
    s
}

/// A response with no body that sends the client to `location`.
pub open spec fn redirect_headers(location: Seq<char>) -> Map<Seq<char>, Seq<char>> {
    Map::<Seq<char>, Seq<char>>::empty().insert("Content-Type"@, "text/plain"@).insert(
        "Content-Length"@,
        crate::text::decimal(0),
    ).insert("Location"@, location)
}

pub fn redirect_response(status: u16, location: String) -> (r: HttpResponse)
    ensures
        r.status == status,
        r.headers@ == redirect_headers(location@),
        r.body matches ResponseBody::Whole(b) && b@.len() == 0,
{
    let mut r = HttpResponse::new(status, Vec::new(), "text/plain");
    r.headers.insert(String::from_str("Location"), location);
    r
}

/// Adds the session cookie, when there is one to add.
pub fn add_cookie(response: &mut HttpResponse, cookie: Option<String>)
    ensures
        final(response).status == old(response).status,
        final(response).body == old(response).body,
        final(response).headers@ == match cookie {
            Some(c) => old(response).headers@.insert("Set-Cookie"@, c@),
            None => old(response).headers@,
        },
{
    match cookie {
        Some(c) => response.headers.insert(String::from_str("Set-Cookie"), c),
        None => {},
    }
}

/// Sets the `Connection` header: `keep-alive` or `close`.
pub fn set_connection(response: &mut HttpResponse, keep: bool)
    ensures
        final(response).status == old(response).status,
        final(response).body == old(response).body,
        final(response).headers@ == old(response).headers@.insert(
            "Connection"@,
            if keep {
                "keep-alive"@
            } else {
                "close"@
            },
        ),
{
    if keep {
        response.headers.insert(String::from_str("Connection"), String::from_str("keep-alive"));
    } else {
        response.headers.insert(String::from_str("Connection"), String::from_str("close"));
    }
}

// ---------------------------------------------------------------------
// Reading and failing
// ---------------------------------------------------------------------
/// What the bytes of one read give.
pub enum ReadOutcome {
    /// A whole request.
    Request(HttpRequest),
    /// Not a request yet, and the read filled the buffer: wait for more.
    Wait,
    /// Not a request, with the reason.
    Invalid(String),
}

/// Parses the bytes of one read; `filled` says whether they filled the
/// read buffer, in which case a request that does not parse yet is
/// waited for rather than refused.
pub fn read_outcome(bytes: &[u8], filled: bool) -> (r: ReadOutcome)
    ensures
        match r {
            ReadOutcome::Request(req) => crate::http::parse_error(bytes@) is None && req.parsed_from(bytes@),
            ReadOutcome::Wait => crate::http::parse_error(bytes@) is Some && filled,
            ReadOutcome::Invalid(e) => crate::http::parse_error(bytes@) == Some(e@) && !filled,
        },
{
    match HttpRequest::parse(bytes) {
        Ok(req) => ReadOutcome::Request(req),
        Err(e) => if filled {
            ReadOutcome::Wait
        } else {
            ReadOutcome::Invalid(e)
        },
    }
}

/// The kinds of failure on a connection that decide the status sent.
#[derive(PartialEq, Eq, Structural, Clone, Copy, Debug)]
pub enum FailureKind {
    /// The bytes were not a request.
    InvalidData,
    TimedOut,
    Other,
}

/// The status answered for a failure on a connection.
pub open spec fn failure_status_of(kind: FailureKind) -> u16 {
    match kind {
        FailureKind::InvalidData => 400,
        FailureKind::TimedOut => 408,
        FailureKind::Other => 500,
    }
}

pub fn failure_status(kind: FailureKind) -> (r: u16)
    ensures
        r == failure_status_of(kind),
{
    match kind {
        FailureKind::InvalidData => 400,
        FailureKind::TimedOut => 408,
        FailureKind::Other => 500,
    }
}

// ---------------------------------------------------------------------
// POST requests and uploads
// ---------------------------------------------------------------------
/// What a `POST` that reaches a file does.
#[derive(PartialEq, Eq, Structural, Clone, Copy, Debug)]
pub enum PostAction {
    /// The body is larger than the server block allows: 413.
    TooLarge,
    /// A multipart body: store the uploaded file.
    Upload,
    /// Any other body: write it to the route's file.
    Write,
}

/// The content type a `POST` declares, in lower case, `application/octet-stream` by default.
pub open spec fn post_content_type(headers: Map<Seq<char>, Seq<char>>) -> Seq<char> {
    if headers.contains_key("content-type"@) {
        lowercase(headers["content-type"@])
    } else {
        "application/octet-stream"@
    }
}

pub open spec fn post_action_of(body_len: nat, headers: Map<Seq<char>, Seq<char>>, max: usize) -> PostAction {
    if body_len > max {
        PostAction::TooLarge
    } else if starts_with(post_content_type(headers), "multipart/form-data"@) {
        PostAction::Upload
    } else {
        PostAction::Write
    }
}

pub fn post_action(request: &HttpRequest, client_max_body_size: usize) -> (r: PostAction)
    ensures
        r == post_action_of(request.body@.len(), request.headers@, client_max_body_size),
{
    if request.body.len() > client_max_body_size {
        return PostAction::TooLarge;
    }
    let ct = match request.headers.get(&String::from_str("content-type")) {
        Some(v) => lower_chars(chars_of(v.as_str()).as_slice()),
        None => chars_of("application/octet-stream"),
    };
    let mp = chars_of("multipart/form-data");
    if has_prefix(ct.as_slice(), mp.as_slice()) {
        PostAction::Upload
    } else {
        PostAction::Write
    }
}

/// Where and what to store for an upload. Where the upload is malformed
/// (a name with no stem, a body whose file part is cut short) the
/// corresponding part is `None`.
pub struct UploadPlan {
    /// The `uploads` directory under the route's root.
    pub dir: String,
    /// The file name, sanitised.
    pub name: String,
    /// The stem and extension numbered copies are named from.
    pub name_parts: Option<(String, String)>,
    /// The bytes of the uploaded file.
    pub content: Option<Vec<u8>>,
}

/// The upload plan for a multipart request on a route with this root, or
/// the `400` answer when the request's own `content-type` header is
/// missing or does not start with `multipart/form-data`.
pub fn plan_upload(request: &HttpRequest, route_root: &str) -> (r: Result<UploadPlan, HttpResponse>)
    ensures
        match r {
            Ok(p) => request.headers@.contains_key("content-type"@) && starts_with(
                request.headers@["content-type"@],
                "multipart/form-data"@,
            ) && p.dir@ == crate::router::join_path(route_root@, "uploads"@) && p.name@ == sanitized(
                upload_name(request.body@, request.headers@),
            ) && (match p.name_parts {
                Some((s, e)) => path_file_stem(p.name@) == Some(s@),
                None => path_file_stem(p.name@) is None,
            }) && (match p.content {
                Some(c) => file_content(request.body@) == Some(c@),
                None => file_content(request.body@) is None,
            }),
            Err(resp) => resp.status == 400 && (if request.headers@.contains_key("content-type"@) {
                !starts_with(request.headers@["content-type"@], "multipart/form-data"@)
                    && (resp.body matches ResponseBody::Whole(b) && b@ == vstd::utf8::encode_utf8(
                    "Bad Request: Content-Type must be multipart/form-data"@,
                ))
            } else {
                resp.body matches ResponseBody::Whole(b) && b@ == vstd::utf8::encode_utf8(
                    "Bad Request: Missing Content-Type"@,
                )
            }),
        },
{
    match request.headers.get(&String::from_str("content-type")) {
        None => Err(plain_response(400, "Bad Request: Missing Content-Type")),
        Some(ct) => {
            let c = chars_of(ct.as_str());
            let mp = chars_of("multipart/form-data");
            if !has_prefix(c.as_slice(), mp.as_slice()) {
                return Err(plain_response(400, "Bad Request: Content-Type must be multipart/form-data"));
            }
            let dir = crate::router::join_path_str(route_root, "uploads");
            let filename = choose_upload_name(request);
            let name = sanitize_filename(filename.as_str());
            let parts = unique_name_parts(name.as_str());
            let content = extract_file_content(request.body.as_slice());
            Ok(UploadPlan { dir, name, name_parts: parts, content })
        },
    }
}

/// Where an upload goes once its directory exists: refused with an error
/// page of this status, or stored at this path with these bytes.
pub enum UploadTarget {
    ErrorPage(u16),
    Store(String, Vec<u8>),
}

/// `r` is the target of an upload whose name has a stem or not, whose
/// bytes are `content` (`None` when the body is cut short), given the free
/// name found (`free`): no stem gives 400; then no free name gives 500;
/// then a cut-short body gives 400; otherwise the bytes are stored under
/// the free name.
pub open spec fn upload_target_is(r: UploadTarget, has_stem: bool, content: Option<Seq<u8>>, free: Option<Seq<char>>) -> bool {
    if !has_stem {
        r == UploadTarget::ErrorPage(400)
    } else {
        match free {
            None => r == UploadTarget::ErrorPage(500),
            Some(p) => match content {
                None => r == UploadTarget::ErrorPage(400),
                Some(c) => r matches UploadTarget::Store(q, d) && q@ == p && d@ == c,
            },
        }
    }
}

/// The target of an upload, given the free name that was found for it
/// (looked for only when the plan's name has a stem).
pub fn upload_target_with(plan: UploadPlan, free: Option<String>) -> (r: UploadTarget)
    ensures
        upload_target_is(
            r,
            path_file_stem(plan.name@) is Some,
            match plan.content {
                Some(c) => Some(c@),
                None => None,
            },
            opt_str(free),
        ),
{
    if unique_name_parts(plan.name.as_str()).is_none() {
        return UploadTarget::ErrorPage(400);
    }
    match free {
        None => UploadTarget::ErrorPage(500),
        Some(p) => match plan.content {
            None => UploadTarget::ErrorPage(400),
            Some(c) => UploadTarget::Store(p, c),
        },
    }
}

/// The target of an upload: for a name with a stem, the disk is asked for
/// the first free name in the plan's directory (`get_unique_filename`),
/// and the target follows from it.
pub fn upload_target(plan: UploadPlan) -> (r: UploadTarget)
    ensures
        path_file_stem(plan.name@) is None ==> r == UploadTarget::ErrorPage(400),
        path_file_stem(plan.name@) is Some ==> exists|answers: Seq<crate::router::Asked>|
            #[trigger] names_asked(plan.dir@, plan.name@, answers) && asked_until_free(answers)
            && upload_target_is(
                r,
                true,
                match plan.content {
                    Some(c) => Some(c@),
                    None => None,
                },
                free_path(plan.dir@, plan.name@, taken_of(answers)),
            ),
{
    if unique_name_parts(plan.name.as_str()).is_none() {
        return UploadTarget::ErrorPage(400);
    }
    let free = get_unique_filename(plan.dir.as_str(), plan.name.as_str());
    upload_target_with(plan, free)
}

/// What the storing of an upload came to.
#[derive(PartialEq, Eq, Structural, Clone, Copy, Debug)]
pub enum StoreOutcome {
    /// The `uploads` directory could not be created.
    DirFailed,
    /// The file could not be written.
    WriteFailed,
    Saved,
}

/// The answer once an upload was stored or not: 500 with a short text
/// when the directory or the file could not be made, 200 when saved.
pub fn store_reply(o: StoreOutcome) -> (r: HttpResponse)
    ensures
        r.status == (if o == StoreOutcome::Saved { 200u16 } else { 500u16 }),
        r.headers@ == Map::<Seq<char>, Seq<char>>::empty().insert("Content-Type"@, "text/plain"@).insert(
            "Content-Length"@,
            crate::text::decimal(vstd::utf8::encode_utf8(store_text(o)).len()),
        ),
        r.body matches ResponseBody::Whole(b) && b@ == vstd::utf8::encode_utf8(store_text(o)),
{
    match o {
        StoreOutcome::DirFailed => plain_response(500, "Internal Server Error"),
        StoreOutcome::WriteFailed => plain_response(500, "Failed to save file"),
        StoreOutcome::Saved => plain_response(200, "File uploaded successfully"),
    }
}

/// The text of the answer to an upload that was stored or not.
pub open spec fn store_text(o: StoreOutcome) -> Seq<char> {
    match o {
        StoreOutcome::DirFailed => "Internal Server Error"@,
        StoreOutcome::WriteFailed => "Failed to save file"@,
        StoreOutcome::Saved => "File uploaded successfully"@,
    }
}


// ---------------------------------------------------------------------
// Deciding what to answer
// ---------------------------------------------------------------------
/// What the server does with a request; the caller carries it out.
pub enum Dispatch {
    /// Send this response.
    Respond(HttpResponse),
    /// Send the error page for this status.
    ErrorPage(u16),
    /// Run this CGI script and send what it answers.
    Cgi(String),
    /// Serve the file or directory a route names, then add the cookie, if any.
    Get(crate::router::RouteMatch, Option<String>),
    /// Handle the body of a `POST` to a route, then add the cookie, if any.
    Post(crate::router::RouteMatch, Option<String>),
    /// Delete the file a route names, then add the cookie, if any.
    Delete(crate::router::RouteMatch, Option<String>),
}

/// What the server does with a request, as values.
pub enum DispatchSpec {
    ErrorPage(u16),
    Redirect(Seq<char>),
    Cgi(Seq<char>),
    Serve(HttpMethod, crate::config::RouteSpec, Seq<char>, Option<Seq<char>>),
    Other,
}

pub open spec fn dispatch_view(d: Dispatch) -> DispatchSpec {
    match d {
        Dispatch::Respond(resp) => if resp.status == 301 && resp.headers@.contains_key("Location"@)
            && resp.headers@ == redirect_headers(resp.headers@["Location"@]) && (resp.body matches ResponseBody::Whole(
            b,
        ) && b@.len() == 0) {
            DispatchSpec::Redirect(resp.headers@["Location"@])
        } else {
            DispatchSpec::Other
        },
        Dispatch::ErrorPage(s) => DispatchSpec::ErrorPage(s),
        Dispatch::Cgi(p) => DispatchSpec::Cgi(p@),
        Dispatch::Get(m, c) => DispatchSpec::Serve(HttpMethod::GET, m.route@, m.file_path@, crate::text::opt_view(c)),
        Dispatch::Post(m, c) => DispatchSpec::Serve(HttpMethod::POST, m.route@, m.file_path@, crate::text::opt_view(c)),
        Dispatch::Delete(m, c) => DispatchSpec::Serve(HttpMethod::DELETE, m.route@, m.file_path@, crate::text::opt_view(c)),
    }
}

/// The cookie to set on the answer: the session's, unless the request sent cookies.
pub open spec fn cookie_for(headers: Map<Seq<char>, Seq<char>>, session_id: Seq<char>) -> Option<Seq<char>> {
    if headers.contains_key("cookie"@) {
        None
    } else {
        Some(session_cookie(session_id))
    }
}

/// The answer once a route has been chosen: a protected route needs an
/// authenticated session (else 403); a redirection answers 301; a script
/// runs as CGI; any other file is served by the request's method (a `POST`
/// whose body asks for `_method=DELETE` deletes). No route: 404; a route
/// that does not take the method: 405.
pub open spec fn dispatch_of(
    method: HttpMethod,
    headers: Map<Seq<char>, Seq<char>>,
    authenticated: bool,
    session_id: Seq<char>,
    outcome: crate::router::MatchSpec,
) -> DispatchSpec {
    match outcome {
        crate::router::MatchSpec::Match(route, fp, redirect) => if route.protected && !authenticated {
            DispatchSpec::ErrorPage(403)
        } else {
            match redirect {
                Some(to) => DispatchSpec::Redirect(to),
                None => if is_cgi_path(fp) {
                    DispatchSpec::Cgi(fp)
                } else if method == HttpMethod::UNSUPPORTED {
                    DispatchSpec::Other
                } else {
                    DispatchSpec::Serve(method, route, fp, cookie_for(headers, session_id))
                },
            }
        },
        crate::router::MatchSpec::MethodNotAllowed(..) => DispatchSpec::ErrorPage(405),
        crate::router::MatchSpec::NotFound => DispatchSpec::ErrorPage(404),
    }
}

/// A protected route is answered 403 to a session that is not
/// authenticated, whatever the method, the headers and the redirect.
pub proof fn law_protected_route_needs_login(
    method: HttpMethod,
    headers: Map<Seq<char>, Seq<char>>,
    session_id: Seq<char>,
    route: crate::config::RouteSpec,
    file_path: Seq<char>,
    redirect: Option<Seq<char>>,
)
    requires
        route.protected,
    ensures
        dispatch_of(method, headers, false, session_id, crate::router::MatchSpec::Match(route, file_path, redirect))
            == DispatchSpec::ErrorPage(403),
{
}

/// The answer to `/login` and the sessions after it: a `POST` with the
/// right credentials adds one authenticated session, under a fresh random
/// 36-character identifier, and sends the client to `/` with its cookie; anything else
/// gets the login page and leaves the sessions as they were.
pub open spec fn login_answer(
    request: &HttpRequest,
    before: Map<Seq<char>, crate::session::Session>,
    after: Map<Seq<char>, crate::session::Session>,
    r: HttpResponse,
) -> bool {
    if request.method == HttpMethod::POST && credentials_ok(request.body@) {
        &&& r.status == 302
        &&& r.body matches ResponseBody::Whole(b) && b@.len() == 0
        &&& exists|id: Seq<char>|
            id.len() == 36 && after.dom() == before.dom().insert(id)
                && crate::session::authenticated_in(after, id) && r.headers@ == login_headers(id)
                && forall|k: Seq<char>| #![auto] k != id && before.contains_key(k) ==> after[k] == before[k]
    } else {
        &&& r.status == 200
        &&& r.body matches ResponseBody::Whole(b) && b@ == vstd::utf8::encode_utf8(LOGIN_FORM@)
        &&& r.headers@ == Map::<Seq<char>, Seq<char>>::empty().insert("Content-Type"@, "text/html"@).insert(
            "Content-Length"@,
            crate::text::decimal(vstd::utf8::encode_utf8(LOGIN_FORM@).len()),
        )
        &&& after == before
    }
}

/// `d` is what `dispatch_of` gives for the request, the sessions and the
/// routes, for some answers of the file system.
pub open spec fn routed_dispatch(
    d: DispatchSpec,
    request: &HttpRequest,
    sessions: Map<Seq<char>, crate::session::Session>,
    routes: Seq<crate::config::RouteSpec>,
) -> bool {
    let sid = session_id_of(request.headers@);
    exists|reports: Seq<crate::router::RouteProbe>|
        #[trigger] crate::router::probes_answered(routes, request.path@, reports)
        && d == dispatch_of(
            effective_method(request.method, request.body@),
            request.headers@,
            sessions.contains_key(sid) && sessions[sid].authenticated,
            sid,
            crate::router::match_from(routes, request.path@, request.method, crate::router::probes_of(reports), 0),
        )
}

/// The server's state apart from its sockets: the server blocks, a router
/// for each, the sessions, and the CGI and error-page handlers.
pub struct ServerCore {
    routing: Routing,
    error_handler: crate::error_handler::ErrorHandler,
    cgi_handler: crate::cgi::CGIHandler,
    session_manager: crate::session::SessionManager,
}

/// The server blocks and a router for each, over the block's routes.
struct Routing {
    configs: Vec<crate::config::ServerConfig>,
    routers: Vec<crate::router::Router>,
}

impl Routing {
    #[verifier::type_invariant]
    closed spec fn wf(self) -> bool {
        &&& self.routers@.len() == self.configs@.len()
        &&& forall|i: int|
            0 <= i < self.configs@.len() ==> #[trigger] self.routers@[i].routes()
                == self.configs@[i]@.routes
    }
}

impl ServerCore {
    pub closed spec fn configs(self) -> Seq<crate::config::ServerSpec> {
        crate::config::servers_view(self.routing.configs@)
    }

    pub closed spec fn sessions(self) -> Map<Seq<char>, crate::session::Session> {
        self.session_manager.sessions()
    }

    pub closed spec fn error_pages(self) -> Map<u16, String> {
        self.error_handler.pages()
    }

    pub closed spec fn cgi(self) -> crate::cgi::CGIHandler {
        self.cgi_handler
    }

    /// The state of a server with these blocks (at least one), sessions
    /// that last `session_duration`, PHP and Python at their usual paths,
    /// and the error pages of the first block.
    pub fn new(configs: Vec<crate::config::ServerConfig>, session_duration: std::time::Duration) -> (r: Result<ServerCore, crate::error::ServerError>)
        ensures
            match r {
                Ok(core) => configs@.len() > 0 && core.configs() == crate::config::servers_view(configs@)
                    && core.sessions() == Map::<Seq<char>, crate::session::Session>::empty()
                    && core.error_pages() == configs@[0].error_pages@
                    && core.cgi().php() == "/usr/bin/php"@ && core.cgi().python() == "/usr/bin/python3"@,
                Err(e) => configs@.len() == 0 && (e matches crate::error::ServerError::Internal(m)
                    && m@ == "No valid server configurations found"@),
            },
    {
        if configs.len() == 0 {
            return Err(crate::error::ServerError::Internal(String::from_str("No valid server configurations found")));
        }
        let mut routers: Vec<crate::router::Router> = Vec::new();
        let mut i: usize = 0;
        while i < configs.len()
            invariant
                i <= configs@.len(),
                routers@.len() == i,
                forall|j: int| 0 <= j < i ==> #[trigger] routers@[j].routes() == configs@[j]@.routes,
            decreases configs@.len() - i,
        {
            let r = crate::router::Router::new(crate::config::clone_routes(&configs[i].routes));
            routers.push(r);
            i = i + 1;
        }
        let error_handler = crate::error_handler::ErrorHandler::new(&configs[0]);
        let cgi_handler = crate::cgi::CGIHandler::new(String::from_str("/usr/bin/php"), String::from_str("/usr/bin/python3"));
        let session_manager = crate::session::SessionManager::new(session_duration);
        Ok(ServerCore { routing: Routing { configs, routers }, error_handler, cgi_handler, session_manager })
    }

    pub fn configs_ref(&self) -> (r: &Vec<crate::config::ServerConfig>)
        ensures
            crate::config::servers_view(r@) == self.configs(),
    {
        &self.routing.configs
    }

    pub fn cgi_handler(&self) -> (r: &crate::cgi::CGIHandler)
        ensures
            *r == self.cgi(),
    {
        &self.cgi_handler
    }

    /// The position of the block with identifier `server_id`.
    pub open spec fn config_index(cfgs: Seq<crate::config::ServerSpec>, server_id: Seq<char>) -> Option<int> {
        if exists|i: int| 0 <= i < cfgs.len() && cfgs[i].id == server_id {
            Some(choose|i: int| 0 <= i < cfgs.len() && cfgs[i].id == server_id && forall|j: int| 0 <= j < i ==> cfgs[j].id != server_id)
        } else {
            None
        }
    }

    fn find_config(&self, server_id: &str) -> (r: Option<usize>)
        ensures
            match r {
                Some(i) => i < self.configs().len() && self.configs()[i as int].id == server_id@
                    && forall|j: int| 0 <= j < i ==> self.configs()[j].id != server_id@,
                None => forall|j: int| 0 <= j < self.configs().len() ==> self.configs()[j].id != server_id@,
            },
    {
        let target = String::from_str(server_id);
        let mut i: usize = 0;
        while i < self.routing.configs.len()
            invariant
                i <= self.routing.configs@.len(),
                target@ == server_id@,
                forall|j: int| 0 <= j < i ==> self.configs()[j].id != server_id@,
            decreases self.routing.configs@.len() - i,
        {
            if self.routing.configs[i].id == target {
                return Some(i);
            }
            i = i + 1;
        }
        None
    }

    /// The server block with identifier `server_id`.
    pub fn config(&self, server_id: &str) -> (r: Option<&crate::config::ServerConfig>)
        ensures
            match r {
                Some(c) => exists|i: int| 0 <= i < self.configs().len() && self.configs()[i].id == server_id@ && c@ == self.configs()[i],
                None => forall|j: int| 0 <= j < self.configs().len() ==> self.configs()[j].id != server_id@,
            },
    {
        match self.find_config(server_id) {
            Some(i) => Some(&self.routing.configs[i]),
            None => None,
        }
    }

    /// The answer to `/login`: a `POST` with the right credentials starts an
    /// authenticated session and sends the client to `/` with its cookie;
    /// anything else gets the login page.
    pub fn handle_login(&mut self, request: &HttpRequest) -> (r: HttpResponse)
        ensures
            final(self).configs() == old(self).configs(),
            final(self).error_pages() == old(self).error_pages(),
            final(self).cgi() == old(self).cgi(),
            login_answer(request, old(self).sessions(), final(self).sessions(), r),
    {
        if request.method == HttpMethod::POST && check_credentials(request.body.as_slice()) {
            let ghost before = self.sessions();
            let id = self.session_manager.create_session();
            let ghost mid = self.sessions();
            self.session_manager.authenticate(id.as_str());
            proof {
                assert(self.sessions() == crate::session::with_authenticated(mid, id@));
                assert(self.sessions().dom() =~= before.dom().insert(id@));
                assert(crate::session::authenticated_in(self.sessions(), id@));
            }
            let mut response = redirect_response(302, String::from_str("/"));
            response.headers.insert(String::from_str("Set-Cookie"), session_cookie_for(id.as_str()));
            assert(response.headers@ =~= login_headers(id@));
            return response;
        }
        html_response(200, LOGIN_FORM)
    }

    /// What to do once routing has chosen: see `dispatch_of`.
    pub fn dispatch_with(&self, request: &HttpRequest, outcome: crate::router::RouteMatchResult) -> (r: Dispatch)
        requires
            request.method != HttpMethod::UNSUPPORTED,
        ensures
            dispatch_view(r) == dispatch_of(
                effective_method(request.method, request.body@),
                request.headers@,
                self.sessions().contains_key(session_id_of(request.headers@)) && self.sessions()[session_id_of(request.headers@)].authenticated,
                session_id_of(request.headers@),
                crate::router::match_view(outcome),
            ),
    {
        let session_id = get_session_id(request);
        let method = method_for(request);
        match outcome {
            crate::router::RouteMatchResult::Match(rm) => {
                if rm.route.protected && !self.session_manager.is_authenticated(session_id.as_str()) {
                    return Dispatch::ErrorPage(403);
                }
                match rm.redirect_to {
                    Some(to) => {
                        let resp = redirect_response(301, to);
                        assert(resp.headers@.contains_key("Location"@));
                        Dispatch::Respond(resp)
                    },
                    None => {
                        if is_cgi_request(rm.file_path.as_str()) {
                            return Dispatch::Cgi(rm.file_path);
                        }
                        let cookie = if request.headers.contains_key(&String::from_str("cookie")) {
                            None
                        } else {
                            Some(session_cookie_for(session_id.as_str()))
                        };
                        match method {
                            HttpMethod::GET => Dispatch::Get(rm, cookie),
                            HttpMethod::POST => Dispatch::Post(rm, cookie),
                            HttpMethod::DELETE => Dispatch::Delete(rm, cookie),
                            HttpMethod::UNSUPPORTED => Dispatch::ErrorPage(405),
                        }
                    },
                }
            },
            crate::router::RouteMatchResult::MethodNotAllowed(_) => Dispatch::ErrorPage(405),
            crate::router::RouteMatchResult::NotFound => Dispatch::ErrorPage(404),
        }
    }

    /// What to do with a request that reached the server block
    /// `server_id`: 405 for an unknown method, the login flow for `/login`,
    /// an internal error for an unknown block; otherwise the request is
    /// routed, asking the file system what the routes name, and dispatched.
    pub fn handle_request(&mut self, request: &HttpRequest, server_id: &str) -> (r: Result<Dispatch, crate::error::ServerError>)
        ensures
            final(self).configs() == old(self).configs(),
            final(self).error_pages() == old(self).error_pages(),
            final(self).cgi() == old(self).cgi(),
            request.method == HttpMethod::UNSUPPORTED ==> ((r matches Ok(Dispatch::ErrorPage(405)))
                && final(self).sessions() == old(self).sessions()),
            request.method != HttpMethod::UNSUPPORTED && request.path@ == "/login"@ ==> (r matches Ok(
                Dispatch::Respond(resp),
            ) && login_answer(request, old(self).sessions(), final(self).sessions(), resp)),
            request.method != HttpMethod::UNSUPPORTED && request.path@ != "/login"@ ==> {
                &&& final(self).sessions() == old(self).sessions()
                &&& match Self::config_index(old(self).configs(), server_id@) {
                    None => (r matches Err(crate::error::ServerError::Internal(m)) && m@ == "Server configuration not found"@),
                    Some(i) => (r matches Ok(d) && routed_dispatch(
                        dispatch_view(d),
                        request,
                        old(self).sessions(),
                        old(self).configs()[i].routes,
                    )),
                }
            },
    {
        proof {
            use_type_invariant(&self.routing);
        }
        if request.method == HttpMethod::UNSUPPORTED {
            return Ok(Dispatch::ErrorPage(405));
        }
        if request.path == String::from_str("/login") {
            let resp = self.handle_login(request);
            return Ok(Dispatch::Respond(resp));
        }
        match self.find_config(server_id) {
            None => {
                proof {
                    assert(Self::config_index(self.configs(), server_id@) is None);
                }
                Err(crate::error::ServerError::Internal(String::from_str("Server configuration not found")))
            },
            Some(i) => {
                proof {
                    let cfgs = self.configs();
                    assert(cfgs[i as int].id == server_id@);
                    let k = choose|k: int| 0 <= k < cfgs.len() && cfgs[k].id == server_id@ && forall|j: int| 0 <= j < k ==> cfgs[j].id != server_id@;
                    assert(k == i);
                    assert(self.routing.routers@[i as int].routes() == self.routing.configs@[i as int]@.routes);
                }
                let outcome = self.routing.routers[i].match_route(request);
                let ghost mv = crate::router::match_view(outcome);
                let ghost routes = self.configs()[i as int].routes;
                assert(self.routing.configs@[i as int]@.routes == routes);
                let ghost reports = choose|reports: Seq<crate::router::RouteProbe>|
                    crate::router::probes_answered(routes, request.path@, reports)
                    && mv == crate::router::match_from(routes, request.path@, request.method, crate::router::probes_of(reports), 0);
                let ghost probes = crate::router::probes_of(reports);
                let d = self.dispatch_with(request, outcome);
                proof {
                    assert(Self::config_index(self.configs(), server_id@) == Some(i as int));
                    assert(dispatch_view(d) == dispatch_of(
                        effective_method(request.method, request.body@),
                        request.headers@,
                        self.sessions().contains_key(session_id_of(request.headers@))
                            && self.sessions()[session_id_of(request.headers@)].authenticated,
                        session_id_of(request.headers@),
                        crate::router::match_from(routes, request.path@, request.method, probes, 0),
                    ));
                    assert(crate::router::probes_answered(routes, request.path@, reports));
                    assert(routed_dispatch(dispatch_view(d), request, self.sessions(), routes));
                }
                Ok(d)
            },
        }
    }
}


/// A request routed to a file, with no redirect, that is no CGI script,
/// on a route the session may use, is served with the request's own
/// effective method: a `DELETE` deletes that file, a `POST` writes it and a
/// `GET` reads it.
pub proof fn law_dispatch_keeps_method(
    method: HttpMethod,
    headers: Map<Seq<char>, Seq<char>>,
    authenticated: bool,
    session_id: Seq<char>,
    route: crate::config::RouteSpec,
    file_path: Seq<char>,
)
    requires
        !route.protected || authenticated,
        !is_cgi_path(file_path),
        method != HttpMethod::UNSUPPORTED,
    ensures
        dispatch_of(method, headers, authenticated, session_id, crate::router::MatchSpec::Match(route, file_path, None))
            == DispatchSpec::Serve(method, route, file_path, cookie_for(headers, session_id)),
{
}

/// A dispatch that serves a file serves it by the kind of the dispatch:
/// `Delete` is the `DELETE`, `Post` the `POST` and `Get` the `GET`.
pub proof fn law_dispatch_kind_is_method(d: Dispatch)
    ensures
        dispatch_view(d) matches DispatchSpec::Serve(m, _, _, _) ==> (m == HttpMethod::DELETE <==> d is Delete)
            && (m == HttpMethod::POST <==> d is Post) && (m == HttpMethod::GET <==> d is Get),
{
}

/// A `POST` whose body, read as UTF-8, holds `_method=DELETE` counts as a
/// `DELETE`; every other method counts as itself.
pub proof fn law_post_can_ask_for_delete(method: HttpMethod, body: Seq<u8>, text: Seq<char>)
    requires
        utf8_decoded(body) == Some(text),
        contains(text, "_method=DELETE"@),
    ensures
        method == HttpMethod::POST ==> effective_method(method, body) == HttpMethod::DELETE,
        method != HttpMethod::POST ==> effective_method(method, body) == method,
{
}

/// A `POST` whose body is longer than the server block allows is refused
/// as too large, whatever its content type; within the limit, a multipart
/// body is an upload and any other body is written.
pub proof fn law_oversized_post_refused(body_len: nat, headers: Map<Seq<char>, Seq<char>>, max: usize)
    ensures
        body_len > max ==> post_action_of(body_len, headers, max) == PostAction::TooLarge,
        post_action_of(body_len, headers, max) == PostAction::Upload ==> body_len <= max,
        body_len <= max ==> (post_action_of(body_len, headers, max) == PostAction::Upload <==> starts_with(
            post_content_type(headers),
            "multipart/form-data"@,
        )),
        body_len <= max ==> post_action_of(body_len, headers, max) != PostAction::TooLarge,
{
}

} // verus!
