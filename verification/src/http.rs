//! HTTP requests and responses: parsing a request from the bytes read off a
//! connection, decoding `Transfer-Encoding: chunked` bodies, and building
//! responses.
use vstd::prelude::*;
use vstd::slice::slice_subrange;
use vstd::slice::slice_to_vec;
use crate::strmap::StrMap;
use crate::text::{
    decimal, decimal_chars, dv, join, join_chars, lines, lines_of, lossy_chars, lower_chars, lowercase, opt_view, parse_unsigned,
    parse_unsigned_chars, split_once, split_once_chars, string_of, utf8_lossy, utf8_of, words,
    words_of,
};

verus! {

broadcast use vstd::slice::group_slice_axioms;

#[derive(Debug, PartialEq, Eq, Structural, Clone, Copy)]
pub enum HttpMethod {
    GET,
    POST,
    DELETE,
    UNSUPPORTED,
}

/// The method named by the first word of a request line.
pub open spec fn method_of(w: Seq<char>) -> HttpMethod {
    if w == "GET"@ {
        HttpMethod::GET
    } else if w == "POST"@ {
        HttpMethod::POST
    } else if w == "DELETE"@ {
        HttpMethod::DELETE
    } else {
        HttpMethod::UNSUPPORTED
    }
}

pub open spec fn method_name(m: HttpMethod) -> Seq<char> {
    match m {
        HttpMethod::GET => "GET"@,
        HttpMethod::POST => "POST"@,
        HttpMethod::DELETE => "DELETE"@,
        HttpMethod::UNSUPPORTED => "UNSUPPORTED"@,
    }
}

/// The name of each served method reads back as that method, and every
/// other word, `UNSUPPORTED` and lower-case names among them, reads as
/// `UNSUPPORTED`: matching is exact and never fails.
pub proof fn law_method_words(m: HttpMethod, w: Seq<char>)
    ensures
        m != HttpMethod::UNSUPPORTED ==> method_of(method_name(m)) == m,
        method_of(w) != HttpMethod::UNSUPPORTED ==> method_name(method_of(w)) == w,
        method_of(method_name(HttpMethod::UNSUPPORTED)) == HttpMethod::UNSUPPORTED,
{
    reveal_strlit("GET");
    reveal_strlit("POST");
    reveal_strlit("DELETE");
    reveal_strlit("UNSUPPORTED");
    assert("GET"@.len() == 3 && "POST"@.len() == 4 && "DELETE"@.len() == 6 && "UNSUPPORTED"@.len() == 11);
    assert("GET"@ != "POST"@);
    assert("GET"@ != "DELETE"@);
    assert("POST"@ != "DELETE"@);
    assert("UNSUPPORTED"@ != "GET"@);
    assert("UNSUPPORTED"@ != "POST"@);
    assert("UNSUPPORTED"@ != "DELETE"@);
}

// ---------------------------------------------------------------------
// A request line read back
// ---------------------------------------------------------------------
/// A word of a request line: not empty, with no whitespace in it.
pub open spec fn plain_word(w: Seq<char>) -> bool {
    w.len() > 0 && forall|i: int| 0 <= i < w.len() ==> !crate::text::is_ws(#[trigger] w[i])
}

/// The text of a request made of a request line `w p v` (single spaces)
/// and the empty line that ends the headers, with `\r\n` line ends.
pub open spec fn request_text(w: Seq<char>, p: Seq<char>, v: Seq<char>) -> Seq<char> {
    w + seq![' '] + p + seq![' '] + v + seq!['\r', '\n', '\r', '\n']
}

proof fn lemma_next_nl_at(s: Seq<char>, i: int, k: int)
    requires
        0 <= i <= k <= s.len(),
        forall|j: int| i <= j < k ==> s[j] != '\n',
        k == s.len() || s[k] == '\n',
    ensures
        crate::text::next_nl(s, i) == k,
    decreases k - i,
{
    if i < k {
        lemma_next_nl_at(s, i + 1, k);
    }
}

proof fn lemma_next_ws_at(s: Seq<char>, i: int, k: int)
    requires
        0 <= i <= k <= s.len(),
        forall|j: int| i <= j < k ==> !crate::text::is_ws(#[trigger] s[j]),
        k == s.len() || crate::text::is_ws(s[k]),
    ensures
        crate::text::next_ws(s, i) == k,
    decreases k - i,
{
    if i < k {
        lemma_next_ws_at(s, i + 1, k);
    }
}

proof fn lemma_words_of_line(w: Seq<char>, p: Seq<char>, v: Seq<char>)
    requires
        plain_word(w),
        plain_word(p),
        plain_word(v),
    ensures
        words(w + seq![' '] + p + seq![' '] + v) == seq![w, p, v],
{
    let t = w + seq![' '] + p + seq![' '] + v;
    let n1 = w.len() as int;
    let n2 = n1 + 1 + p.len();
    let n3 = n2 + 1 + v.len();
    assert(t.len() == n3);
    assert(crate::text::is_ws(' '));
    assert forall|j: int| 0 <= j < n1 implies !crate::text::is_ws(#[trigger] t[j]) by {
        assert(t[j] == w[j]);
    }
    assert forall|j: int| n1 + 1 <= j < n2 implies !crate::text::is_ws(#[trigger] t[j]) by {
        assert(t[j] == p[j - n1 - 1]);
    }
    assert forall|j: int| n2 + 1 <= j < n3 implies !crate::text::is_ws(#[trigger] t[j]) by {
        assert(t[j] == v[j - n2 - 1]);
    }
    assert(t[n1] == ' ');
    assert(t[n2] == ' ');
    assert(!crate::text::is_ws(t[0]));
    assert(!crate::text::is_ws(t[n1 + 1]));
    assert(!crate::text::is_ws(t[n2 + 1]));
    lemma_next_ws_at(t, 0, n1);
    lemma_next_ws_at(t, n1 + 1, n2);
    lemma_next_ws_at(t, n2 + 1, n3);
    assert(crate::text::skip_ws(t, 0) == 0);
    assert(crate::text::skip_ws(t, n1 + 1) == n1 + 1);
    assert(crate::text::skip_ws(t, n1) == n1 + 1);
    assert(crate::text::skip_ws(t, n2 + 1) == n2 + 1);
    assert(crate::text::skip_ws(t, n2) == n2 + 1);
    assert(crate::text::skip_ws(t, n3) == n3);
    assert(crate::text::words_from(t, n3) =~= Seq::<Seq<char>>::empty());
    assert(crate::text::words_from(t, n2) =~= seq![t.subrange(n2 + 1, n3)]);
    assert(crate::text::words_from(t, n1) =~= seq![t.subrange(n1 + 1, n2), t.subrange(n2 + 1, n3)]);
    assert(crate::text::words_from(t, 0) =~= seq![t.subrange(0, n1), t.subrange(n1 + 1, n2), t.subrange(n2 + 1, n3)]);
    assert(t.subrange(0, n1) =~= w);
    assert(t.subrange(n1 + 1, n2) =~= p);
    assert(t.subrange(n2 + 1, n3) =~= v);
}

proof fn lemma_request_text_lines(w: Seq<char>, p: Seq<char>, v: Seq<char>)
    requires
        plain_word(w),
        plain_word(p),
        plain_word(v),
    ensures
        lines(request_text(w, p, v)) == seq![w + seq![' '] + p + seq![' '] + v, Seq::<char>::empty()],
{
    let s = request_text(w, p, v);
    let t = w + seq![' '] + p + seq![' '] + v;
    let n3 = t.len() as int;
    assert(s.len() == n3 + 4);
    assert(crate::text::is_ws('\n'));
    assert forall|j: int| 0 <= j < n3 + 1 implies s[j] != '\n' by {
        if j < n3 {
            assert(s[j] == t[j]);
            let n1 = w.len() as int;
            let n2 = n1 + 1 + p.len();
            if j < n1 {
                assert(t[j] == w[j]);
            } else if j == n1 || j == n2 {
            } else if j < n2 {
                assert(t[j] == p[j - n1 - 1]);
            } else {
                assert(t[j] == v[j - n2 - 1]);
            }
        }
    }
    lemma_next_nl_at(s, 0, n3 + 1);
    lemma_next_nl_at(s, n3 + 2, n3 + 3);
    assert(s.subrange(0, n3 + 1).drop_last() =~= t);
    assert(s.subrange(n3 + 2, n3 + 3).drop_last() =~= Seq::<char>::empty());
    assert(crate::text::lines_from(s, n3 + 4) =~= Seq::<Seq<char>>::empty());
    assert(crate::text::lines_from(s, n3 + 2) =~= seq![Seq::<char>::empty()]);
    assert(crate::text::lines_from(s, 0) =~= seq![t, Seq::<char>::empty()]);
}

/// A request whose text (as `String::from_utf8_lossy` reads its bytes) is
/// a request line `w p v` and the empty line that ends the headers parses
/// without error, and its method is the one `w` names: for the name of a
/// method (`method_name(m)`), that method; any other word, lower-case
/// names among them, gives `UNSUPPORTED`.
pub proof fn law_request_line_method(raw: Seq<u8>, w: Seq<char>, p: Seq<char>, v: Seq<char>, m: HttpMethod)
    requires
        utf8_lossy(raw) == request_text(w, p, v),
        plain_word(w),
        plain_word(p),
        plain_word(v),
    ensures
        parse_error(raw) is None,
        forall|req: HttpRequest| #[trigger] req.parsed_from(raw) ==> req.method == method_of(w) && req.path@ == p
            && req.version@ == v,
        w == method_name(m) ==> method_of(w) == m,
{
    lemma_request_text_lines(w, p, v);
    lemma_words_of_line(w, p, v);
    law_method_words(m, w);
    let ls = request_lines(raw);
    assert(ls == seq![w + seq![' '] + p + seq![' '] + v, Seq::<char>::empty()]);
    assert(ls[1].len() == 0);
    assert(blank_from(ls, 1) == 1);
    assert(header_lines(ls) =~= Seq::<Seq<char>>::empty());
    assert(!chunked_of(header_lines(ls)));
}

impl HttpMethod {
    /// The method's name, as the server prints it.
    pub fn name(&self) -> (r: String)
        ensures
            r@ == method_name(*self),
    {
        match self {
            HttpMethod::GET => String::from_str("GET"),
            HttpMethod::POST => String::from_str("POST"),
            HttpMethod::DELETE => String::from_str("DELETE"),
            HttpMethod::UNSUPPORTED => String::from_str("UNSUPPORTED"),
        }
    }

    pub fn from_word(w: &[char]) -> (r: HttpMethod)
        ensures
            r == method_of(w@),
    {
        let s = string_of(w);
        if s == String::from_str("GET") {
            HttpMethod::GET
        } else if s == String::from_str("POST") {
            HttpMethod::POST
        } else if s == String::from_str("DELETE") {
            HttpMethod::DELETE
        } else {
            HttpMethod::UNSUPPORTED
        }
    }
}

/// Views of a vector of byte vectors.
pub open spec fn bdv(v: Seq<Vec<u8>>) -> Seq<Seq<u8>> {
    v.map_values(|x: Vec<u8>| x@)
}

pub proof fn lemma_bdv_push(v: Seq<Vec<u8>>, x: Vec<u8>)
    ensures
        bdv(v.push(x)) == bdv(v).push(x@),
{
    assert(bdv(v.push(x)) =~= bdv(v).push(x@));
}

// ---------------------------------------------------------------------
// Chunked transfer coding
// ---------------------------------------------------------------------
/// A carriage return and a line feed start at index `i` of `b`.
pub open spec fn crlf_at(b: Seq<u8>, i: int) -> bool {
    0 <= i && i + 1 < b.len() && b[i] == 13u8 && b[i + 1] == 10u8
}

/// The first index at or after `i` where `\r\n` starts.
pub open spec fn find_crlf_from(b: Seq<u8>, i: int) -> Option<int>
    decreases b.len() - i,
{
    if i < 0 || i + 1 >= b.len() {
        None
    } else if crlf_at(b, i) {
        Some(i)
    } else {
        find_crlf_from(b, i + 1)
    }
}

/// The characters of `b` when every byte is ASCII.
pub open spec fn ascii_chars(b: Seq<u8>) -> Option<Seq<char>> {
    if forall|i: int| 0 <= i < b.len() ==> #[trigger] b[i] < 128u8 {
        Some(b.map_values(|x: u8| x as char))
    } else {
        None
    }
}

/// The size written on a chunk-size line: the line read as text and parsed
/// with `usize::from_str_radix(_, 16)`. A byte outside ASCII never reads as
/// a hexadecimal digit, so such a line has no size.
pub open spec fn chunk_size(b: Seq<u8>) -> Option<nat> {
    match ascii_chars(b) {
        Some(cs) => parse_unsigned(cs, 16, usize::MAX as nat),
        None => None,
    }
}

/// How reading a sequence of chunks stopped.
#[derive(PartialEq, Eq, Structural, Clone, Copy)]
pub enum ChunkScanEnd {
    /// The data ran out.
    Exhausted,
    /// A chunk of size zero was read.
    LastChunk,
    /// A size line did not hold a hexadecimal size.
    InvalidSize,
    /// A chunk and its closing `\r\n` did not fit in the data.
    Incomplete,
}

/// The chunks of `b` read from index `p` on, and how reading stopped. Each
/// step reads the size written before the first `\r\n` (or an empty size
/// line when there is none), then that many bytes, then skips two bytes.
pub open spec fn scan_chunks(b: Seq<u8>, p: int) -> (Seq<Seq<u8>>, ChunkScanEnd)
    decreases b.len() - p,
{
    if p < 0 || p >= b.len() {
        (seq![], ChunkScanEnd::Exhausted)
    } else {
        let rem = b.subrange(p, b.len() as int);
        let cse = match find_crlf_from(rem, 0) {
            Some(i) => i,
            None => 0,
        };
        proof {
            lemma_find_crlf_bounds(rem, 0);
        }
        match chunk_size(rem.take(cse)) {
            None => (seq![], ChunkScanEnd::InvalidSize),
            Some(n) => if n == 0 {
                (seq![], ChunkScanEnd::LastChunk)
            } else if rem.len() < cse + 2 + n + 2 {
                (seq![], ChunkScanEnd::Incomplete)
            } else {
                let rest = scan_chunks(b, p + cse + n + 4);
                (seq![rem.subrange(cse + 2, cse + 2 + n)] + rest.0, rest.1)
            },
        }
    }
}

pub open spec fn scan_error(e: ChunkScanEnd) -> Option<Seq<char>> {
    match e {
        ChunkScanEnd::InvalidSize => Some("Invalid chunk size"@),
        ChunkScanEnd::Incomplete => Some("Incomplete chunk"@),
        _ => None,
    }
}

fn find_crlf(b: &[u8], from: usize) -> (r: Option<usize>)
    ensures
        r matches Some(i) ==> find_crlf_from(b@, from as int) == Some(i as int),
        r is None ==> find_crlf_from(b@, from as int) is None,
{
    let mut i = from;
    while i < b.len() && i + 1 < b.len()
        invariant
            from <= i,
            find_crlf_from(b@, i as int) == find_crlf_from(b@, from as int),
        decreases b@.len() - i,
    {
        if b[i] == 13u8 && b[i + 1] == 10u8 {
            return Some(i);
        }
        i = i + 1;
    }
    None
}

fn chunk_size_of(b: &[u8]) -> (r: Option<usize>)
    ensures
        r matches Some(n) ==> chunk_size(b@) == Some(n as nat),
        r is None ==> chunk_size(b@) is None,
{
    let mut cs: Vec<char> = Vec::new();
    let mut i: usize = 0;
    while i < b.len()
        invariant
            i <= b@.len(),
            cs@ == b@.take(i as int).map_values(|x: u8| x as char),
            forall|j: int| 0 <= j < i ==> #[trigger] b@[j] < 128u8,
        decreases b@.len() - i,
    {
        if b[i] >= 128u8 {
            assert(ascii_chars(b@) is None);
            return None;
        }
        cs.push(b[i] as char);
        assert(b@.take(i + 1).map_values(|x: u8| x as char) =~= b@.take(i as int).map_values(
            |x: u8| x as char,
        ).push(b@[i as int] as char));
        i = i + 1;
    }
    assert(b@.take(i as int) =~= b@);
    parse_unsigned_chars(cs.as_slice(), 16, usize::MAX)
}

/// Reads chunks from `data` and appends them to `out`.
fn read_chunks(data: &[u8], out: &mut Vec<Vec<u8>>) -> (r: ChunkScanEnd)
    ensures
        bdv(final(out)@) == bdv(old(out)@) + scan_chunks(data@, 0).0,
        r == scan_chunks(data@, 0).1,
{
    let mut p: usize = 0;
    loop
        invariant
            p <= data@.len(),
            bdv(out@) + scan_chunks(data@, p as int).0 == bdv(old(out)@) + scan_chunks(
                data@,
                0,
            ).0,
            scan_chunks(data@, p as int).1 == scan_chunks(data@, 0).1,
        decreases data@.len() - p,
    {
        if p >= data.len() {
            assert(bdv(out@) + Seq::<Seq<u8>>::empty() =~= bdv(out@));
            return ChunkScanEnd::Exhausted;
        }
        let rem = slice_subrange(data, p, data.len());
        let cse = match find_crlf(rem, 0) {
            Some(i) => i,
            None => 0,
        };
        proof {
            lemma_find_crlf_bounds(rem@, 0);
        }
        match chunk_size_of(slice_subrange(rem, 0, cse)) {
            None => {
                assert(bdv(out@) + Seq::<Seq<u8>>::empty() =~= bdv(out@));
                return ChunkScanEnd::InvalidSize;
            },
            Some(n) => {
                if n == 0 {
                    assert(bdv(out@) + Seq::<Seq<u8>>::empty() =~= bdv(out@));
                    return ChunkScanEnd::LastChunk;
                }
                if rem.len() - cse < 4 || n > rem.len() - cse - 4 {
                    assert(bdv(out@) + Seq::<Seq<u8>>::empty() =~= bdv(out@));
                    return ChunkScanEnd::Incomplete;
                }
                let chunk = slice_to_vec(slice_subrange(rem, cse + 2, cse + 2 + n));
                proof {
                    lemma_bdv_push(out@, chunk);
                    let rest = scan_chunks(data@, p + cse + n + 4);
                    assert(scan_chunks(data@, p as int).0 == seq![chunk@] + rest.0);
                    assert(bdv(out@.push(chunk)) + rest.0 =~= bdv(out@) + (seq![chunk@]
                        + rest.0));
                }
                out.push(chunk);
                p = p + cse + n + 4;
            },
        }
    }
}

pub proof fn lemma_find_crlf_bounds(b: Seq<u8>, i: int)
    requires
        0 <= i,
    ensures
        find_crlf_from(b, i) matches Some(k) ==> i <= k && k + 1 < b.len(),
    decreases b.len() - i,
{
    if i + 1 >= b.len() {
    } else if crlf_at(b, i) {
    } else {
        lemma_find_crlf_bounds(b, i + 1);
    }
}


/// The bytes of the chunks one after the other (`[Vec<u8>]::concat`).
pub fn concat_chunks(chunks: &[Vec<u8>]) -> (r: Vec<u8>)
    ensures
        r@ == bdv(chunks@).flatten(),
{
    let mut out: Vec<u8> = Vec::new();
    let mut i: usize = 0;
    while i < chunks.len()
        invariant
            i <= chunks@.len(),
            out@ == bdv(chunks@).take(i as int).flatten(),
        decreases chunks@.len() - i,
    {
        proof {
            bdv(chunks@).take(i as int).lemma_flatten_push(chunks@[i as int]@);
            assert(bdv(chunks@).take(i + 1) =~= bdv(chunks@).take(i as int).push(
                chunks@[i as int]@,
            ));
        }
        out.extend_from_slice(chunks[i].as_slice());
        i = i + 1;
    }
    assert(bdv(chunks@).take(chunks@.len() as int) =~= bdv(chunks@));
    out
}

// ---------------------------------------------------------------------
// Requests
// ---------------------------------------------------------------------
pub struct HttpRequest {
    pub method: HttpMethod,
    pub path: String,
    pub version: String,
    pub headers: StrMap,
    pub body: Vec<u8>,
    pub host: Option<String>,
    pub chunked: bool,
    pub chunks: Vec<Vec<u8>>,
}

/// The lines of a request: its bytes read as UTF-8, with invalid sequences
/// replaced, split into lines.
pub open spec fn request_lines(raw: Seq<u8>) -> Seq<Seq<char>> {
    lines(utf8_lossy(raw))
}

/// The first empty line at or after index `i`, or the number of lines.
pub open spec fn blank_from(ls: Seq<Seq<char>>, i: int) -> int
    decreases ls.len() - i,
{
    if 0 <= i < ls.len() && ls[i].len() != 0 {
        blank_from(ls, i + 1)
    } else {
        i
    }
}

pub proof fn lemma_blank_from_bounds(ls: Seq<Seq<char>>, i: int)
    requires
        0 <= i <= ls.len(),
    ensures
        i <= blank_from(ls, i) <= ls.len(),
        blank_from(ls, i) < ls.len() ==> ls[blank_from(ls, i)].len() == 0,
        forall|j: int| i <= j < blank_from(ls, i) ==> ls[j].len() != 0,
    decreases ls.len() - i,
{
    if i < ls.len() && ls[i].len() != 0 {
        lemma_blank_from_bounds(ls, i + 1);
    }
}

/// The header lines: those after the request line and before the first empty line.
pub open spec fn header_lines(ls: Seq<Seq<char>>) -> Seq<Seq<char>> {
    ls.subrange(1, blank_from(ls, 1))
}

/// The index of the first body line: the one after the first empty line
/// that follows the request line, or, when there is none, the request line
/// itself.
pub open spec fn body_start(ls: Seq<Seq<char>>) -> int {
    let e = blank_from(ls, 1);
    if e < ls.len() {
        e + 1
    } else {
        0
    }
}

/// The header a line declares: the text before the first `": "`, in lower
/// case, and the text after it.
pub open spec fn header_entry(line: Seq<char>) -> Option<(Seq<char>, Seq<char>)> {
    let parts = split_once(line, ": "@);
    if parts.len() == 2 {
        Some((lowercase(parts[0]), parts[1]))
    } else {
        None
    }
}

/// The headers that the lines `hl` declare; a later line overrides an earlier one.
pub open spec fn headers_of(hl: Seq<Seq<char>>) -> Map<Seq<char>, Seq<char>>
    decreases hl.len(),
{
    if hl.len() == 0 {
        Map::empty()
    } else {
        match header_entry(hl.last()) {
            Some(e) => headers_of(hl.drop_last()).insert(e.0, e.1),
            None => headers_of(hl.drop_last()),
        }
    }
}

/// The value of the last `host` header among `hl`.
pub open spec fn host_of(hl: Seq<Seq<char>>) -> Option<Seq<char>>
    decreases hl.len(),
{
    if hl.len() == 0 {
        None
    } else {
        match header_entry(hl.last()) {
            Some(e) => if e.0 == "host"@ {
                Some(e.1)
            } else {
                host_of(hl.drop_last())
            },
            None => host_of(hl.drop_last()),
        }
    }
}

/// Some line of `hl` declares `transfer-encoding` as `chunked`, in any case.
pub open spec fn chunked_of(hl: Seq<Seq<char>>) -> bool
    decreases hl.len(),
{
    if hl.len() == 0 {
        false
    } else {
        chunked_of(hl.drop_last()) || match header_entry(hl.last()) {
            Some(e) => e.0 == "transfer-encoding"@ && lowercase(e.1) == "chunked"@,
            None => false,
        }
    }
}

/// The body as written: the lines from `body_start` on, joined with `\n`,
/// in UTF-8.
pub open spec fn text_body(ls: Seq<Seq<char>>) -> Seq<u8> {
    let b = body_start(ls);
    if b < ls.len() {
        vstd::utf8::encode_utf8(join(ls.subrange(b, ls.len() as int), "\n"@))
    } else {
        seq![]
    }
}

/// Why parsing `raw` fails, if it does.
pub open spec fn parse_error(raw: Seq<u8>) -> Option<Seq<char>> {
    let ls = request_lines(raw);
    if ls.len() == 0 {
        Some("Empty request"@)
    } else if words(ls[0]).len() != 3 {
        Some("Invalid request line"@)
    } else if chunked_of(header_lines(ls)) {
        scan_error(scan_chunks(text_body(ls), 0).1)
    } else {
        None
    }
}

impl HttpRequest {
    /// `self` is what parsing the bytes `raw` yields.
    pub open spec fn parsed_from(&self, raw: Seq<u8>) -> bool {
        let ls = request_lines(raw);
        let first = words(ls[0]);
        let hl = header_lines(ls);
        let tb = text_body(ls);
        &&& self.method == method_of(first[0])
        &&& self.path@ == first[1]
        &&& self.version@ == first[2]
        &&& self.headers@ == headers_of(hl)
        &&& opt_view(self.host) == host_of(hl)
        &&& self.chunked == chunked_of(hl)
        &&& if self.chunked {
            &&& bdv(self.chunks@) == scan_chunks(tb, 0).0
            &&& self.body@ == scan_chunks(tb, 0).0.flatten()
        } else {
            &&& self.chunks@.len() == 0
            &&& self.body@ == tb
        }
    }

    /// Parses a request: the request line (method, path, version), the
    /// headers up to the first empty line, and the body after it, decoding
    /// a chunked body.
    pub fn parse(raw: &[u8]) -> (r: Result<Self, String>)
        ensures
            match r {
                Ok(req) => parse_error(raw@) is None && req.parsed_from(raw@),
                Err(e) => parse_error(raw@) == Some(e@),
            },
    {
        let text = lossy_chars(raw);
        let ls = lines_of(text.as_slice());
        let ghost lsv = dv(ls@);
        assert(lsv == request_lines(raw@));
        if ls.len() == 0 {
            return Err(String::from_str("Empty request"));
        }
        let first = words_of(ls[0].as_slice());
        if first.len() != 3 {
            return Err(String::from_str("Invalid request line"));
        }
        let method = HttpMethod::from_word(first[0].as_slice());
        let path = string_of(first[1].as_slice());
        let version = string_of(first[2].as_slice());
        let mut headers = StrMap::new();
        let mut host: Option<String> = None;
        let mut chunked = false;
        let mut i: usize = 1;
        let sep = vec![':', ' '];
        proof {
            reveal_strlit(": ");
            assert(sep@ =~= ": "@);
            lemma_blank_from_bounds(lsv, 1);
            assert(lsv.subrange(1, 1) =~= Seq::<Seq<char>>::empty());
        }
        while i < ls.len()
            invariant
                1 <= i <= ls@.len(),
                lsv == dv(ls@),
                sep@ == ": "@,
                blank_from(lsv, i as int) == blank_from(lsv, 1),
                headers@ == headers_of(lsv.subrange(1, i as int)),
                opt_view(host) == host_of(lsv.subrange(1, i as int)),
                chunked == chunked_of(lsv.subrange(1, i as int)),
            ensures
                i <= ls@.len(),
                blank_from(lsv, 1) == i,
                headers@ == headers_of(lsv.subrange(1, i as int)),
                opt_view(host) == host_of(lsv.subrange(1, i as int)),
                chunked == chunked_of(lsv.subrange(1, i as int)),
            decreases ls@.len() - i,
        {
            if ls[i].len() == 0 {
                break;
            }
            let ghost hl = lsv.subrange(1, i + 1);
            assert(hl.drop_last() =~= lsv.subrange(1, i as int));
            assert(hl.last() == ls@[i as int]@);
            let parts = split_once_chars(ls[i].as_slice(), sep.as_slice());
            if parts.len() == 2 {
                let key = lower_chars(parts[0].as_slice());
                let key_s = string_of(key.as_slice());
                let value_s = string_of(parts[1].as_slice());
                assert(header_entry(hl.last()) == Some((key@, parts@[1]@)));
                if key_s == String::from_str("host") {
                    proof {
                        reveal_strlit("host");
                        reveal_strlit("transfer-encoding");
                        assert("host"@.len() != "transfer-encoding"@.len());
                    }
                    host = Some(value_s.clone());
                } else if key_s == String::from_str("transfer-encoding") {
                    let low = lower_chars(parts[1].as_slice());
                    let low_s = string_of(low.as_slice());
                    if low_s == String::from_str("chunked") {
                        chunked = true;
                    }
                }
                headers.insert(key_s, value_s);
            } else {
                assert(header_entry(hl.last()) is None);
            }
            i = i + 1;
        }
        let ghost hl = header_lines(lsv);
        assert(lsv.subrange(1, i as int) == hl);
        let body_at: usize = if i < ls.len() {
            i + 1
        } else {
            0
        };
        assert(body_at == body_start(lsv));
        let mut body = if body_at < ls.len() {
            let nl = vec!['\n'];
            let joined = join_chars(slice_subrange(ls.as_slice(), body_at, ls.len()), nl.as_slice());
            proof {
                reveal_strlit("\n");
                assert(nl@ =~= "\n"@);
                assert(dv(ls@.subrange(body_at as int, ls@.len() as int)) =~= lsv.subrange(
                    body_at as int,
                    lsv.len() as int,
                ));
            }
            utf8_of(joined.as_slice())
        } else {
            Vec::new()
        };
        assert(body@ == text_body(lsv));
        let mut chunks: Vec<Vec<u8>> = Vec::new();
        if chunked {
            match Self::parse_chunks(body.as_slice()) {
                Ok(c) => {
                    chunks = c;
                },
                Err(e) => {
                    return Err(e);
                },
            }
            body = concat_chunks(chunks.as_slice());
        }
        Ok(HttpRequest { method, path, version, headers, body, host, chunked, chunks })
    }

    fn parse_chunks(body: &[u8]) -> (r: Result<Vec<Vec<u8>>, String>)
        ensures
            match r {
                Ok(c) => scan_error(scan_chunks(body@, 0).1) is None && bdv(c@) == scan_chunks(
                    body@,
                    0,
                ).0,
                Err(e) => scan_error(scan_chunks(body@, 0).1) == Some(e@),
            },
    {
        let mut chunks: Vec<Vec<u8>> = Vec::new();
        let end = read_chunks(body, &mut chunks);
        assert(bdv(Seq::<Vec<u8>>::empty()) + scan_chunks(body@, 0).0 =~= scan_chunks(body@, 0).0);
        match end {
            ChunkScanEnd::InvalidSize => Err(String::from_str("Invalid chunk size")),
            ChunkScanEnd::Incomplete => Err(String::from_str("Incomplete chunk")),
            _ => Ok(chunks),
        }
    }

    /// Adds the chunks that `data` holds to a chunked request. A chunk of
    /// size zero is recorded as an empty chunk and ends the reading.
    pub fn append_chunk(&mut self, data: &[u8]) -> (r: Result<(), String>)
        ensures
            !old(self).chunked ==> (r matches Err(e) && e@ == "Request is not chunked"@
                && *final(self) == *old(self)),
            old(self).chunked ==> {
                let scan = scan_chunks(data@, 0);
                &&& bdv(final(self).chunks@) == bdv(old(self).chunks@) + scan.0 + (if scan.1
                    == ChunkScanEnd::LastChunk {
                    seq![Seq::<u8>::empty()]
                } else {
                    seq![]
                })
                &&& match r {
                    Ok(_) => scan_error(scan.1) is None,
                    Err(e) => scan_error(scan.1) == Some(e@),
                }
                &&& final(self).method == old(self).method
                &&& final(self).path == old(self).path
                &&& final(self).version == old(self).version
                &&& final(self).headers == old(self).headers
                &&& final(self).body == old(self).body
                &&& final(self).host == old(self).host
                &&& final(self).chunked == old(self).chunked
            },
    {
        if !self.chunked {
            return Err(String::from_str("Request is not chunked"));
        }
        let end = read_chunks(data, &mut self.chunks);
        match end {
            ChunkScanEnd::InvalidSize => Err(String::from_str("Invalid chunk size")),
            ChunkScanEnd::Incomplete => Err(String::from_str("Incomplete chunk")),
            ChunkScanEnd::LastChunk => {
                let ghost before = self.chunks@;
                let empty: Vec<u8> = Vec::new();
                proof {
                    lemma_bdv_push(before, empty);
                }
                self.chunks.push(empty);
                Ok(())
            },
            ChunkScanEnd::Exhausted => {
                assert(bdv(self.chunks@) + Seq::<Seq<u8>>::empty() =~= bdv(self.chunks@));
                Ok(())
            },
        }
    }

    /// A chunked request is complete once its last chunk is empty; any
    /// other request is complete.
    pub fn is_chunked_request_complete(&self) -> (r: bool)
        ensures
            r == (!self.chunked || (self.chunks@.len() > 0 && self.chunks@.last()@.len() == 0)),
    {
        if !self.chunked {
            return true;
        }
        if self.chunks.len() == 0 {
            false
        } else {
            self.chunks[self.chunks.len() - 1].len() == 0
        }
    }
}


// ---------------------------------------------------------------------
// Responses
// ---------------------------------------------------------------------
pub enum ResponseBody {
    Whole(Vec<u8>),
    Chunked(Vec<Vec<u8>>),
}

pub struct HttpResponse {
    pub status: u16,
    pub headers: StrMap,
    pub body: ResponseBody,
}

impl HttpResponse {
    /// A response with the whole body at once, its content type and its length.
    pub fn new(status: u16, body: Vec<u8>, content_type: &str) -> (r: Self)
        ensures
            r.status == status,
            r.headers@ == Map::<Seq<char>, Seq<char>>::empty().insert(
                "Content-Type"@,
                content_type@,
            ).insert("Content-Length"@, decimal(body@.len())),
            r.body == ResponseBody::Whole(body),
    {
        let mut headers = StrMap::new();
        headers.insert(String::from_str("Content-Type"), String::from_str(content_type));
        let len = decimal_chars(body.len());
        headers.insert(String::from_str("Content-Length"), string_of(len.as_slice()));
        HttpResponse { status, headers, body: ResponseBody::Whole(body) }
    }

    /// A response whose body is sent in chunks; it has a content type and no length.
    pub fn new_chunked(status: u16, chunks: Vec<Vec<u8>>, content_type: &str) -> (r: Self)
        ensures
            r.status == status,
            r.headers@ == Map::<Seq<char>, Seq<char>>::empty().insert(
                "Content-Type"@,
                content_type@,
            ),
            r.body == ResponseBody::Chunked(chunks),
    {
        let mut headers = StrMap::new();
        headers.insert(String::from_str("Content-Type"), String::from_str(content_type));
        HttpResponse { status, headers, body: ResponseBody::Chunked(chunks) }
    }
}

} // verus!
