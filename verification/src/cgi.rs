//! CGI scripts: which interpreter runs a script, and the response built
//! from what the script printed.
use vstd::prelude::*;
use vstd::slice::slice_subrange;
use vstd::slice::slice_to_vec;
use crate::http::{bdv, lemma_bdv_push, HttpResponse};
use crate::text::{chars_of, ends_with, has_suffix};

verus! {

broadcast use vstd::slice::group_slice_axioms;

/// Outputs longer than this many bytes are sent in chunks.
pub const CHUNKED_THRESHOLD: usize = 1000000;

/// The size of the chunks an output is cut into.
pub const CHUNK_SIZE: usize = 8192;

pub struct CGIHandler {
    php_path: String,
    python_path: String,
}

/// `data` cut into pieces of `n` bytes, the last one possibly shorter
/// (`[u8]::chunks(n)`).
pub open spec fn chunk_split(data: Seq<u8>, n: nat) -> Seq<Seq<u8>>
    decreases data.len(),
{
    if data.len() == 0 || n == 0 {
        seq![]
    } else if data.len() <= n {
        seq![data]
    } else {
        seq![data.take(n as int)] + chunk_split(data.skip(n as int), n)
    }
}

/// Cutting a byte sequence into chunks and joining them again gives it back.
pub proof fn lemma_chunk_split_flatten(data: Seq<u8>, n: nat)
    requires
        n > 0,
    ensures
        chunk_split(data, n).flatten() == data,
        forall|i: int|
            0 <= i < chunk_split(data, n).len() ==> 0 < #[trigger] chunk_split(data, n)[i].len()
                <= n,
    decreases data.len(),
{
    if data.len() == 0 {
    } else if data.len() <= n {
        let cs = chunk_split(data, n);
        assert(cs.drop_first() =~= Seq::<Seq<u8>>::empty());
        assert(cs.first() == data);
        assert(cs.drop_first().flatten() =~= Seq::<u8>::empty());
        assert(cs.flatten() =~= data);
    } else {
        lemma_chunk_split_flatten(data.skip(n as int), n);
        let cs = chunk_split(data, n);
        assert(cs.drop_first() =~= chunk_split(data.skip(n as int), n));
        assert(data.take(n as int) + data.skip(n as int) =~= data);
        assert forall|i: int| 0 <= i < cs.len() implies 0 < #[trigger] cs[i].len() <= n by {
            if i > 0 {
                assert(cs[i] == chunk_split(data.skip(n as int), n)[i - 1]);
            }
        }
    }
}

/// Every chunk of a script's output but the last is exactly `n` bytes.
pub proof fn law_full_chunks_but_last(data: Seq<u8>, n: nat, i: int)
    requires
        n > 0,
        0 <= i < chunk_split(data, n).len() - 1,
    ensures
        chunk_split(data, n)[i].len() == n,
    decreases data.len(),
{
    if data.len() > n {
        assert(chunk_split(data, n) == seq![data.take(n as int)] + chunk_split(data.skip(n as int), n));
        if i > 0 {
            law_full_chunks_but_last(data.skip(n as int), n, i - 1);
        }
    }
}

/// The interpreter that runs a script, by its extension.
pub open spec fn interpreter_of(h: CGIHandler, script_path: Seq<char>) -> Option<Seq<char>> {
    if ends_with(script_path, ".php"@) {
        Some(h.php())
    } else if ends_with(script_path, ".py"@) {
        Some(h.python())
    } else {
        None
    }
}

impl CGIHandler {
    pub fn new(php_path: String, python_path: String) -> (r: Self)
        ensures
            r.php() == php_path@,
            r.python() == python_path@,
    {
        CGIHandler { php_path, python_path }
    }

    pub closed spec fn php(&self) -> Seq<char> {
        self.php_path@
    }

    pub closed spec fn python(&self) -> Seq<char> {
        self.python_path@
    }

    /// The interpreter for a `.php` or `.py` script; for any other script,
    /// the response `400 Unsupported CGI script type`.
    pub fn interpreter_for(&self, script_path: &str) -> (r: Result<String, HttpResponse>)
        ensures
            match r {
                Ok(i) => interpreter_of(*self, script_path@) == Some(i@),
                Err(resp) => interpreter_of(*self, script_path@) is None && resp.status == 400
                    && resp.headers@ == Map::<Seq<char>, Seq<char>>::empty().insert(
                    "Content-Type"@,
                    "text/plain"@,
                ).insert("Content-Length"@, crate::text::decimal(27))
                    && (resp.body matches crate::http::ResponseBody::Whole(b) && b@
                    == unsupported_body()),
            },
    {
        let p = chars_of(script_path);
        let php = chars_of(".php");
        let py = chars_of(".py");
        if has_suffix(p.as_slice(), php.as_slice()) {
            Ok(self.php_path.clone())
        } else if has_suffix(p.as_slice(), py.as_slice()) {
            Ok(self.python_path.clone())
        } else {
            let body = unsupported_body_bytes();
            Err(HttpResponse::new(400, body, "text/plain"))
        }
    }

    /// The response to a script that ran: its standard output as HTML when
    /// it succeeded (in chunks above `CHUNKED_THRESHOLD` bytes), its
    /// standard error with status 500 when it failed.
    pub fn response_for_output(&self, success: bool, stdout: Vec<u8>, stderr: Vec<u8>) -> (r:
        HttpResponse)
        ensures
            success && stdout@.len() > CHUNKED_THRESHOLD ==> (r.status == 200 && r.headers@
                == Map::<Seq<char>, Seq<char>>::empty().insert("Content-Type"@, "text/html"@)
                && (r.body matches crate::http::ResponseBody::Chunked(c) && bdv(c@) == chunk_split(
                stdout@,
                CHUNK_SIZE as nat,
            ))),
            success && stdout@.len() <= CHUNKED_THRESHOLD ==> r.status == 200 && r.headers@
                == Map::<Seq<char>, Seq<char>>::empty().insert("Content-Type"@, "text/html"@).insert(
                "Content-Length"@,
                crate::text::decimal(stdout@.len()),
            ) && r.body == crate::http::ResponseBody::Whole(stdout),
            !success ==> r.status == 500 && r.headers@ == Map::<Seq<char>, Seq<char>>::empty().insert(
                "Content-Type"@,
                "text/plain"@,
            ).insert("Content-Length"@, crate::text::decimal(stderr@.len()))
                && r.body == crate::http::ResponseBody::Whole(stderr),
    {
        if success {
            if stdout.len() > CHUNKED_THRESHOLD {
                let chunks = self.create_chunks(stdout.as_slice());
                HttpResponse::new_chunked(200, chunks, "text/html")
            } else {
                HttpResponse::new(200, stdout, "text/html")
            }
        } else {
            HttpResponse::new(500, stderr, "text/plain")
        }
    }

    /// `data` cut into chunks of `CHUNK_SIZE` bytes.
    pub fn create_chunks(&self, data: &[u8]) -> (r: Vec<Vec<u8>>)
        ensures
            bdv(r@) == chunk_split(data@, CHUNK_SIZE as nat),
    {
        let mut out: Vec<Vec<u8>> = Vec::new();
        let mut p: usize = 0;
        assert(data@.skip(0) =~= data@);
        assert(bdv(out@) + chunk_split(data@, CHUNK_SIZE as nat) =~= chunk_split(data@, CHUNK_SIZE as nat));
        while p < data.len()
            invariant
                p <= data@.len(),
                bdv(out@) + chunk_split(data@.skip(p as int), CHUNK_SIZE as nat) == chunk_split(
                    data@,
                    CHUNK_SIZE as nat,
                ),
            decreases data@.len() - p,
        {
            let ghost rest = data@.skip(p as int);
            let end = if data.len() - p <= CHUNK_SIZE {
                data.len()
            } else {
                p + CHUNK_SIZE
            };
            let chunk = slice_to_vec(slice_subrange(data, p, end));
            proof {
                lemma_bdv_push(out@, chunk);
                if rest.len() <= CHUNK_SIZE {
                    assert(chunk@ =~= rest);
                    assert(data@.skip(end as int) =~= Seq::<u8>::empty());
                } else {
                    assert(chunk@ =~= rest.take(CHUNK_SIZE as int));
                    assert(rest.skip(CHUNK_SIZE as int) =~= data@.skip(end as int));
                }
                assert(bdv(out@.push(chunk)) + chunk_split(data@.skip(end as int), CHUNK_SIZE as nat)
                    =~= bdv(out@) + chunk_split(rest, CHUNK_SIZE as nat));
            }
            out.push(chunk);
            p = end;
        }
        assert(data@.skip(p as int) =~= Seq::<u8>::empty());
        assert(bdv(out@) + Seq::<Seq<u8>>::empty() =~= bdv(out@));
        out
    }
}

pub open spec fn unsupported_body() -> Seq<u8> {
    "Unsupported CGI script type"@.map_values(|c: char| c as u8)
}

fn unsupported_body_bytes() -> (r: Vec<u8>)
    ensures
        r@ == unsupported_body(),
        r@.len() == 27,
{
    let s = chars_of("Unsupported CGI script type");
    let mut out: Vec<u8> = Vec::new();
    proof {
        reveal_strlit("Unsupported CGI script type");
    }
    let mut i: usize = 0;
    while i < s.len()
        invariant
            i <= s@.len(),
            s@ == "Unsupported CGI script type"@,
            out@ == s@.take(i as int).map_values(|c: char| c as u8),
        decreases s@.len() - i,
    {
        assert(s@.take(i + 1).map_values(|c: char| c as u8) =~= s@.take(i as int).map_values(
            |c: char| c as u8,
        ).push(s@[i as int] as u8));
        out.push(s[i] as u8);
        i = i + 1;
    }
    assert(s@.take(s@.len() as int) =~= s@);
    out
}

} // verus!
