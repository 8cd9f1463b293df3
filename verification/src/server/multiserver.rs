//! The multi-host server: what it reads from a raw request and what it
//! answers. Sockets, the file system and the event loop belong to the
//! caller, which reports what they gave back.
use vstd::prelude::*;
use vstd::slice::slice_subrange;
use crate::text::{
    chars_of, contains, contains_chars, dv, find, has_prefix, lines, lines_of, lower_chars, lowercase,
    rfind, split, split_chars, starts_with, string_of, trim, trim_char, trim_chars, trim_matches_char,
    upper_chars, uppercase, words, words_of,
};

verus! {

broadcast use vstd::slice::group_slice_axioms;

// ---------------------------------------------------------------------
// Reading a raw request
// ---------------------------------------------------------------------
/// The bytes hold the blank line that ends a request head.
pub open spec fn has_blank_line(b: Seq<u8>) -> bool {
    exists|i: int| 0 <= i && i + 4 <= b.len() && #[trigger] b.subrange(i, i + 4) == seq![13u8, 10u8, 13u8, 10u8]
}

/// Whether the buffer holds `\r\n\r\n` somewhere.
pub fn is_request_complete(buffer: &[u8]) -> (r: bool)
    ensures
        r == has_blank_line(buffer@),
{
    let n = buffer.len();
    if n < 4 {
        return false;
    }
    let mut i: usize = 0;
    while i <= n - 4
        invariant
            n >= 4,
            n == buffer@.len(),
            forall|j: int| 0 <= j < i ==> #[trigger] buffer@.subrange(j, j + 4) != seq![13u8, 10u8, 13u8, 10u8],
        decreases n - i,
    {
        if buffer[i] == 13 && buffer[i + 1] == 10 && buffer[i + 2] == 13 && buffer[i + 3] == 10 {
            assert(buffer@.subrange(i as int, i + 4) =~= seq![13u8, 10u8, 13u8, 10u8]);
            return true;
        }
        assert(buffer@.subrange(i as int, i + 4)[0] == buffer@[i as int]);
        assert(buffer@.subrange(i as int, i + 4)[1] == buffer@[i + 1]);
        assert(buffer@.subrange(i as int, i + 4)[2] == buffer@[i + 2]);
        assert(buffer@.subrange(i as int, i + 4)[3] == buffer@[i + 3]);
        i = i + 1;
    }
    false
}

/// The value of the first line whose lower-case form starts with `host:`:
/// the text between its first and second colon, trimmed.
pub open spec fn host_in(ls: Seq<Seq<char>>) -> Seq<char>
    decreases ls.len(),
{
    if ls.len() == 0 {
        seq![]
    } else if starts_with(lowercase(ls[0]), "host:"@) {
        let ps = split(ls[0], ":"@);
        if ps.len() > 1 {
            trim(ps[1])
        } else {
            seq![]
        }
    } else {
        host_in(ls.drop_first())
    }
}

/// The host named in the request, or empty.
pub fn get_hostname(request: &str) -> (r: String)
    ensures
        r@ == host_in(lines(request@)),
{
    let cs = chars_of(request);
    let ls = lines_of(cs.as_slice());
    let mut i: usize = 0;
    assert(dv(ls@).skip(0) =~= dv(ls@));
    while i < ls.len()
        invariant
            i <= ls@.len(),
            dv(ls@) == lines(request@),
            host_in(dv(ls@).skip(i as int)) == host_in(lines(request@)),
        decreases ls@.len() - i,
    {
        let low = lower_chars(ls[i].as_slice());
        assert(dv(ls@).skip(i as int)[0] == ls@[i as int]@);
        if has_prefix(low.as_slice(), chars_of("host:").as_slice()) {
            let colon = chars_of(":");
            proof {
                reveal_strlit(":");
            }
            let ps = split_chars(ls[i].as_slice(), colon.as_slice());
            if ps.len() > 1 {
                assert(dv(ps@)[1] == ps@[1]@);
                let t = trim_chars(ps[1].as_slice());
                return string_of(t.as_slice());
            }
            return String::new();
        }
        assert(dv(ls@).skip(i as int).drop_first() =~= dv(ls@).skip(i + 1));
        i = i + 1;
    }
    String::new()
}

/// The method word of the request line in upper case, or empty.
pub open spec fn request_method(request: Seq<char>) -> Seq<char> {
    let ls = lines(request);
    if ls.len() > 0 && words(ls[0]).len() > 0 {
        uppercase(words(ls[0])[0])
    } else {
        seq![]
    }
}

/// The method of the request line, upper-cased.
pub fn get_request_method(request: &str) -> (r: String)
    ensures
        r@ == request_method(request@),
{
    let cs = chars_of(request);
    let ls = lines_of(cs.as_slice());
    if ls.len() > 0 {
        assert(ls@[0]@ == lines(request@)[0]);
        let parts = words_of(ls[0].as_slice());
        if parts.len() > 0 {
            assert(parts@[0]@ == words(lines(request@)[0])[0]);
            let up = upper_chars(parts[0].as_slice());
            return string_of(up.as_slice());
        }
    }
    String::new()
}

/// The line that names the multipart boundary.
pub open spec fn boundary_prefix() -> Seq<char> {
    "Content-Type: multipart/form-data; boundary="@
}

/// What follows the last `boundary=` in the first line that starts with
/// the multipart content type, or empty.
pub open spec fn boundary_in(ls: Seq<Seq<char>>) -> Seq<char>
    decreases ls.len(),
{
    if ls.len() == 0 {
        seq![]
    } else if starts_with(ls[0], boundary_prefix()) {
        split(ls[0], "boundary="@).last()
    } else {
        boundary_in(ls.drop_first())
    }
}

/// The multipart boundary named in the request.
pub fn get_boundary(request: &str) -> (r: String)
    ensures
        r@ == boundary_in(lines(request@)),
{
    let cs = chars_of(request);
    let ls = lines_of(cs.as_slice());
    let prefix = chars_of("Content-Type: multipart/form-data; boundary=");
    let mut i: usize = 0;
    assert(dv(ls@).skip(0) =~= dv(ls@));
    while i < ls.len()
        invariant
            i <= ls@.len(),
            dv(ls@) == lines(request@),
            prefix@ == boundary_prefix(),
            boundary_in(dv(ls@).skip(i as int)) == boundary_in(lines(request@)),
        decreases ls@.len() - i,
    {
        assert(dv(ls@).skip(i as int)[0] == ls@[i as int]@);
        if has_prefix(ls[i].as_slice(), prefix.as_slice()) {
            let key = chars_of("boundary=");
            proof {
                reveal_strlit("boundary=");
            }
            let ps = split_chars(ls[i].as_slice(), key.as_slice());
            proof {
                crate::text::lemma_split_from_nonempty(ls@[i as int]@, "boundary="@, 0);
            }
            let last = ps.len() - 1;
            assert(dv(ps@)[last as int] == ps@[last as int]@);
            return string_of(ps[last].as_slice());
        }
        assert(dv(ls@).skip(i as int).drop_first() =~= dv(ls@).skip(i + 1));
        i = i + 1;
    }
    String::new()
}

/// The file name in the first line of a part that holds `filename=`:
/// what follows its last `filename=`, without surrounding quotes.
pub open spec fn filename_in(ls: Seq<Seq<char>>) -> Seq<char>
    decreases ls.len(),
{
    if ls.len() == 0 {
        seq![]
    } else if contains(ls[0], "filename="@) {
        trim_char(split(ls[0], "filename="@).last(), '"')
    } else {
        filename_in(ls.drop_first())
    }
}

/// The name of the file that a multipart part carries.
pub fn extract_filename(part: &str) -> (r: String)
    ensures
        r@ == filename_in(lines(part@)),
{
    let cs = chars_of(part);
    let ls = lines_of(cs.as_slice());
    let key = chars_of("filename=");
    proof {
        reveal_strlit("filename=");
    }
    let mut i: usize = 0;
    assert(dv(ls@).skip(0) =~= dv(ls@));
    while i < ls.len()
        invariant
            i <= ls@.len(),
            dv(ls@) == lines(part@),
            key@ == "filename="@,
            key@.len() > 0,
            filename_in(dv(ls@).skip(i as int)) == filename_in(lines(part@)),
        decreases ls@.len() - i,
    {
        assert(dv(ls@).skip(i as int)[0] == ls@[i as int]@);
        if contains_chars(ls[i].as_slice(), key.as_slice()) {
            let ps = split_chars(ls[i].as_slice(), key.as_slice());
            proof {
                crate::text::lemma_split_from_nonempty(ls@[i as int]@, "filename="@, 0);
            }
            let last = ps.len() - 1;
            assert(dv(ps@)[last as int] == ps@[last as int]@);
            let t = trim_matches_char(ps[last].as_slice(), '"');
            return string_of(t.as_slice());
        }
        assert(dv(ls@).skip(i as int).drop_first() =~= dv(ls@).skip(i + 1));
        i = i + 1;
    }
    String::new()
}

/// Where the content of a part starts: after its first blank line, or at 0.
pub open spec fn content_start(part: Seq<char>) -> int {
    match find(part, "\r\n\r\n"@) {
        Some(i) => i + 4,
        None => 0,
    }
}

/// Where the content of a part ends: at its last line break, or at its end.
pub open spec fn content_end(part: Seq<char>) -> int {
    match rfind(part, "\r\n"@) {
        Some(i) => i,
        None => part.len() as int,
    }
}

/// The content of a part, between its first blank line and its last line
/// break; `None` when the blank line ends after that break: a malformed
/// part.
pub fn extract_content(part: &str) -> (r: Option<String>)
    ensures
        match r {
            Some(c) => content_start(part@) <= content_end(part@) && c@ == part@.subrange(
                content_start(part@),
                content_end(part@),
            ),
            None => content_start(part@) > content_end(part@),
        },
{
    let cs = chars_of(part);
    proof {
        reveal_strlit("\r\n\r\n");
        reveal_strlit("\r\n");
    }
    let blank = chars_of("\r\n\r\n");
    assert(blank@.len() == 4);
    let start = match crate::text::find_chars(cs.as_slice(), blank.as_slice()) {
        Some(i) => {
            proof {
                crate::text::lemma_find_from_props(part@, "\r\n\r\n"@, 0);
                assert(find(part@, "\r\n\r\n"@) == Some(i as int));
                assert(i + 4 <= cs@.len());
                assert(cs@.len() == cs.len());
            }
            i + 4
        },
        None => 0,
    };
    let end = match crate::text::rfind_chars(cs.as_slice(), chars_of("\r\n").as_slice()) {
        Some(i) => {
            proof {
                crate::text::lemma_rfind_from_props(part@, "\r\n"@, part@.len() - 2);
            }
            i
        },
        None => cs.len(),
    };
    if start > end {
        return None;
    }
    Some(string_of(slice_subrange(cs.as_slice(), start, end)))
}

// ---------------------------------------------------------------------
// Deciding what to do
// ---------------------------------------------------------------------
/// The content type of a file by its extension.
pub open spec fn content_type_for_ext(ext: Option<Seq<char>>) -> Seq<char> {
    match ext {
        Some(e) => if e == "html"@ {
            "text/html"@
        } else if e == "css"@ {
            "text/css"@
        } else if e == "js"@ {
            "application/javascript"@
        } else if e == "png"@ {
            "image/png"@
        } else if e == "jpg"@ || e == "jpeg"@ {
            "image/jpeg"@
        } else if e == "gif"@ {
            "image/gif"@
        } else {
            "application/octet-stream"@
        },
        None => "application/octet-stream"@,
    }
}

/// The content type of the file at `path`.
pub fn get_content_type(path: &str) -> (r: &'static str)
    ensures
        r@ == content_type_for_ext(crate::server::path_extension(path@)),
{
    proof {
        reveal_strlit("html");
        reveal_strlit("css");
        reveal_strlit("js");
        reveal_strlit("png");
        reveal_strlit("jpg");
        reveal_strlit("jpeg");
        reveal_strlit("gif");
    }
    match crate::server::extension_of(path) {
        Some(e) => {
            let c = chars_of(e.as_str());
            if crate::text::eq_lit(c.as_slice(), "html") {
                "text/html"
            } else if crate::text::eq_lit(c.as_slice(), "css") {
                "text/css"
            } else if crate::text::eq_lit(c.as_slice(), "js") {
                "application/javascript"
            } else if crate::text::eq_lit(c.as_slice(), "png") {
                "image/png"
            } else if crate::text::eq_lit(c.as_slice(), "jpg") || crate::text::eq_lit(c.as_slice(), "jpeg") {
                "image/jpeg"
            } else if crate::text::eq_lit(c.as_slice(), "gif") {
                "image/gif"
            } else {
                "application/octet-stream"
            }
        },
        None => "application/octet-stream",
    }
}

/// Where uploads of the server on `port` are stored.
pub open spec fn upload_dir_spec(port: u16) -> Seq<char> {
    if port == 8080 {
        "src/www/upload/server1"@
    } else {
        "src/www/upload/server2"@
    }
}

pub fn upload_dir(port: u16) -> (r: &'static str)
    ensures
        r@ == upload_dir_spec(port),
{
    if port == 8080 {
        "src/www/upload/server1"
    } else {
        "src/www/upload/server2"
    }
}

/// Where the server on `port` deletes files from.
pub open spec fn deletion_dir_spec(port: u16) -> Seq<char> {
    if port == 8080 {
        "www/upload/server1"@
    } else {
        "www/upload/server2"@
    }
}

pub fn deletion_dir(port: u16) -> (r: &'static str)
    ensures
        r@ == deletion_dir_spec(port),
{
    if port == 8080 {
        "www/upload/server1"
    } else {
        "www/upload/server2"
    }
}

/// The first piece at or after index `i` that holds `filename=`.
pub open spec fn file_part(parts: Seq<Seq<char>>, i: int) -> Option<Seq<char>>
    decreases parts.len() - i,
{
    if i < 0 || i >= parts.len() {
        None
    } else if contains(parts[i], "filename="@) {
        Some(parts[i])
    } else {
        file_part(parts, i + 1)
    }
}

/// The part of a multipart request that carries a file: the first piece,
/// after the one before the first boundary, that holds `filename=`. With
/// no boundary every piece is a single character, so there is none.
pub open spec fn upload_part(request: Seq<char>) -> Option<Seq<char>> {
    let b = boundary_in(lines(request));
    if b.len() == 0 {
        None
    } else {
        file_part(split(request, b), 1)
    }
}

/// The file of an upload: where it goes, and its text.
pub enum MultipartUpload {
    NoFile,
    /// The part's blank line ends after its last line break.
    Malformed,
    File { dir: String, path: String, content: String },
}

pub enum UploadSpec {
    NoFile,
    Malformed,
    File(Seq<char>, Seq<char>, Seq<char>),
}

pub open spec fn upload_view(u: MultipartUpload) -> UploadSpec {
    match u {
        MultipartUpload::NoFile => UploadSpec::NoFile,
        MultipartUpload::Malformed => UploadSpec::Malformed,
        MultipartUpload::File { dir, path, content } => UploadSpec::File(dir@, path@, content@),
    }
}

/// What an upload to the server on `port` stores.
pub open spec fn upload_for(port: u16, request: Seq<char>) -> UploadSpec {
    match upload_part(request) {
        None => UploadSpec::NoFile,
        Some(p) => if content_start(p) > content_end(p) {
            UploadSpec::Malformed
        } else {
            UploadSpec::File(
                upload_dir_spec(port),
                upload_dir_spec(port) + "/"@ + filename_in(lines(p)),
                p.subrange(content_start(p), content_end(p)),
            )
        },
    }
}

/// The file carried by a multipart upload to the server on `port`.
pub fn plan_multipart_upload(port: u16, request: &str) -> (r: MultipartUpload)
    ensures
        upload_view(r) == upload_for(port, request@),
{
    let boundary = get_boundary(request);
    if boundary.as_str().unicode_len() == 0 {
        return MultipartUpload::NoFile;
    }
    let cs = chars_of(request);
    let b = chars_of(boundary.as_str());
    let parts = split_chars(cs.as_slice(), b.as_slice());
    let key = chars_of("filename=");
    let mut i: usize = 1;
    while i < parts.len()
        invariant
            1 <= i,
            i <= parts@.len() || parts@.len() == 0,
            dv(parts@) == split(request@, boundary@),
            key@ == "filename="@,
            file_part(dv(parts@), i as int) == upload_part(request@),
        decreases parts@.len() - i,
    {
        assert(dv(parts@)[i as int] == parts@[i as int]@);
        if contains_chars(parts[i].as_slice(), key.as_slice()) {
            let part = string_of(parts[i].as_slice());
            let filename = extract_filename(part.as_str());
            match extract_content(part.as_str()) {
                None => {
                    return MultipartUpload::Malformed;
                },
                Some(content) => {
                    let dir = upload_dir(port);
                    let mut path = String::from_str(dir);
                    path.append("/");
                    path.append(filename.as_str());
                    return MultipartUpload::File { dir: String::from_str(dir), path, content };
                },
            }
        }
        i = i + 1;
    }
    MultipartUpload::NoFile
}

/// What a request to the multi-host server asks for.
pub enum MultiRoute {
    /// The method is not one the server serves, or not on this path.
    NotAllowed,
    Upload(MultipartUpload),
    /// List the files of this directory.
    ListFiles(String),
    /// Delete the file at this path.
    Delete(String),
    /// Serve the index page.
    Index,
    /// Serve this file with this content type.
    Static(String, String),
}

pub enum RouteSpecM {
    NotAllowed,
    Upload(UploadSpec),
    ListFiles(Seq<char>),
    Delete(Seq<char>),
    Index,
    Static(Seq<char>, Seq<char>),
}

pub open spec fn route_view(r: MultiRoute) -> RouteSpecM {
    match r {
        MultiRoute::NotAllowed => RouteSpecM::NotAllowed,
        MultiRoute::Upload(u) => RouteSpecM::Upload(upload_view(u)),
        MultiRoute::ListFiles(d) => RouteSpecM::ListFiles(d@),
        MultiRoute::Delete(p) => RouteSpecM::Delete(p@),
        MultiRoute::Index => RouteSpecM::Index,
        MultiRoute::Static(p, t) => RouteSpecM::Static(p@, t@),
    }
}

/// What the server on `port` does with a request, by its method and path.
pub open spec fn route_for(port: u16, request: Seq<char>) -> RouteSpecM {
    let method = request_method(request);
    let path = crate::server::config::requested_path(request);
    if !(method == "GET"@ || method == "POST"@ || method == "DELETE"@) {
        RouteSpecM::NotAllowed
    } else if method == "POST"@ && path == "upload"@ {
        RouteSpecM::Upload(upload_for(port, request))
    } else if method == "GET"@ && path == "list_files"@ {
        RouteSpecM::ListFiles(upload_dir_spec(port))
    } else if method == "DELETE"@ && starts_with(path, "delete/"@) {
        RouteSpecM::Delete(crate::router::join_path(deletion_dir_spec(port), path.skip(7)))
    } else if method == "GET"@ && (path == ""@ || path == "index.html"@) {
        RouteSpecM::Index
    } else if method == "GET"@ {
        RouteSpecM::Static("src/www/"@ + path, content_type_for_ext(crate::server::path_extension(path)))
    } else {
        RouteSpecM::NotAllowed
    }
}

/// A request whose method is not `GET`, `POST` or `DELETE` is refused,
/// whatever its path.
pub proof fn law_unknown_method_refused(port: u16, request: Seq<char>)
    requires
        request_method(request) != "GET"@,
        request_method(request) != "POST"@,
        request_method(request) != "DELETE"@,
    ensures
        route_for(port, request) == RouteSpecM::NotAllowed,
{
}

/// Reads the request in `buffer` (as lossy UTF-8) and decides what the
/// server on `port` does with it.
pub fn route_request(port: u16, buffer: &[u8]) -> (r: MultiRoute)
    ensures
        route_view(r) == route_for(port, crate::text::utf8_lossy(buffer@)),
{
    let text = string_of(crate::text::lossy_chars(buffer).as_slice());
    let method = get_request_method(text.as_str());
    let path = crate::server::config::get_requested_path(text.as_str());
    let m = chars_of(method.as_str());
    let p = chars_of(path.as_str());
    proof {
        reveal_strlit("delete/");
        reveal_strlit("");
    }
    let is_get = crate::text::eq_lit(m.as_slice(), "GET");
    let is_post = crate::text::eq_lit(m.as_slice(), "POST");
    let is_delete = crate::text::eq_lit(m.as_slice(), "DELETE");

    if !(is_get || is_post || is_delete) {
        MultiRoute::NotAllowed
    } else if is_post && crate::text::eq_lit(p.as_slice(), "upload") {
        MultiRoute::Upload(plan_multipart_upload(port, text.as_str()))
    } else if is_get && crate::text::eq_lit(p.as_slice(), "list_files") {
        MultiRoute::ListFiles(String::from_str(upload_dir(port)))
    } else if is_delete && has_prefix(p.as_slice(), chars_of("delete/").as_slice()) {
        let name = string_of(slice_subrange(p.as_slice(), 7, p.len()));
        assert(name@ =~= path@.skip(7));
        MultiRoute::Delete(crate::router::join_path_str(deletion_dir(port), name.as_str()))
    } else if is_get && (p.len() == 0 || crate::text::eq_lit(p.as_slice(), "index.html")) {
        assert(p@.len() == 0 ==> p@ =~= ""@);
        MultiRoute::Index
    } else if is_get {
        let mut file_path = String::from_str("src/www/");
        file_path.append(path.as_str());
        MultiRoute::Static(file_path, String::from_str(get_content_type(path.as_str())))
    } else {
        MultiRoute::NotAllowed
    }
}

// ---------------------------------------------------------------------
// Answers
// ---------------------------------------------------------------------
/// The bytes of a response with this status line text, type and body.
pub open spec fn reply(status: Seq<char>, content_type: Seq<char>, text: Seq<char>) -> Seq<u8> {
    vstd::utf8::encode_utf8(crate::utils::file_ops::response_text(status, content_type, text))
}

/// A page read from disk, as HTML, or the plain fallback text when it
/// could not be read.
pub open spec fn page_or_text(status: Seq<char>, page: Option<Seq<char>>, fallback: Seq<char>) -> Seq<u8> {
    match page {
        Some(c) => reply(status, "text/html"@, c),
        None => reply(status, "text/plain"@, fallback),
    }
}

fn page_or_text_reply(status: &str, page: Option<String>, fallback: &str) -> (r: Vec<u8>)
    ensures
        r@ == page_or_text(status@, crate::text::opt_view(page), fallback@),
{
    match page {
        Some(c) => crate::utils::file_ops::generate_response(status, "text/html", c.as_str()),
        None => crate::utils::file_ops::generate_response(status, "text/plain", fallback),
    }
}

/// The answer to a method the server does not serve: the 405 page as
/// read, or a plain message.
pub fn not_allowed_reply(page: Option<String>) -> (r: Vec<u8>)
    ensures
        r@ == page_or_text("405 METHOD NOT ALLOWED"@, crate::text::opt_view(page), "405 Method Not Allowed"@),
{
    page_or_text_reply("405 METHOD NOT ALLOWED", page, "405 Method Not Allowed")
}

/// The answer for the index page, as read from disk.
pub fn index_reply(page: Option<String>) -> (r: Vec<u8>)
    ensures
        r@ == match crate::text::opt_view(page) {
            Some(c) => reply("200 OK"@, "text/html"@, c),
            None => reply("404 NOT FOUND"@, "text/plain"@, "Index page not found"@),
        },
{
    match page {
        Some(c) => crate::utils::file_ops::generate_response("200 OK", "text/html", c.as_str()),
        None => crate::utils::file_ops::generate_response("404 NOT FOUND", "text/plain", "Index page not found"),
    }
}

/// The answer for a file: its text with its type, or the 404 page as
/// read, or a plain message.
pub fn static_reply(content_type: &str, file: Option<String>, not_found_page: Option<String>) -> (r: Vec<u8>)
    ensures
        r@ == match crate::text::opt_view(file) {
            Some(c) => reply("200 OK"@, content_type@, c),
            None => page_or_text("404 NOT FOUND"@, crate::text::opt_view(not_found_page), "404 Not Found"@),
        },
{
    match file {
        Some(c) => crate::utils::file_ops::generate_response("200 OK", content_type, c.as_str()),
        None => page_or_text_reply("404 NOT FOUND", not_found_page, "404 Not Found"),
    }
}

/// The answer to a deletion, by whether the path named a file and
/// whether removing it worked.
pub fn deletion_reply(is_file: bool, removed: bool) -> (r: Vec<u8>)
    ensures
        r@ == if !is_file {
            reply("404 NOT FOUND"@, "text/plain"@, "File not found"@)
        } else if removed {
            reply("200 OK"@, "text/plain"@, "File deleted successfully"@)
        } else {
            reply("500 INTERNAL SERVER ERROR"@, "text/plain"@, "Failed to delete file"@)
        },
{
    if !is_file {
        crate::utils::file_ops::generate_response("404 NOT FOUND", "text/plain", "File not found")
    } else if removed {
        crate::utils::file_ops::generate_response("200 OK", "text/plain", "File deleted successfully")
    } else {
        crate::utils::file_ops::generate_response("500 INTERNAL SERVER ERROR", "text/plain", "Failed to delete file")
    }
}

/// How storing an upload went.
pub enum UploadOutcome {
    /// The request carried no file.
    NoFile,
    /// The upload directory could not be created.
    DirFailed,
    /// The file could not be created.
    CreateFailed,
    /// The file could not be written.
    WriteFailed,
    /// The file part was malformed.
    Malformed,
    Stored,
}

/// The answer to an upload.
pub fn upload_reply(outcome: UploadOutcome) -> (r: Vec<u8>)
    ensures
        r@ == match outcome {
            UploadOutcome::NoFile => reply("400 BAD REQUEST"@, "text/plain"@, "No file found in the request"@),
            UploadOutcome::DirFailed => reply(
                "500 INTERNAL SERVER ERROR"@,
                "text/plain"@,
                "Failed to create upload directory"@,
            ),
            UploadOutcome::CreateFailed => reply("500 INTERNAL SERVER ERROR"@, "text/plain"@, "Failed to create file"@),
            UploadOutcome::WriteFailed => reply("500 INTERNAL SERVER ERROR"@, "text/plain"@, "Failed to write file"@),
            UploadOutcome::Malformed => reply("400 BAD REQUEST"@, "text/plain"@, "Malformed file upload"@),
            UploadOutcome::Stored => reply("200 OK"@, "text/plain"@, "File uploaded successfully"@),
        },
{
    match outcome {
        UploadOutcome::NoFile => crate::utils::file_ops::generate_response(
            "400 BAD REQUEST",
            "text/plain",
            "No file found in the request",
        ),
        UploadOutcome::DirFailed => crate::utils::file_ops::generate_response(
            "500 INTERNAL SERVER ERROR",
            "text/plain",
            "Failed to create upload directory",
        ),
        UploadOutcome::CreateFailed => crate::utils::file_ops::generate_response(
            "500 INTERNAL SERVER ERROR",
            "text/plain",
            "Failed to create file",
        ),
        UploadOutcome::WriteFailed => crate::utils::file_ops::generate_response(
            "500 INTERNAL SERVER ERROR",
            "text/plain",
            "Failed to write file",
        ),
        UploadOutcome::Malformed => crate::utils::file_ops::generate_response(
            "400 BAD REQUEST",
            "text/plain",
            "Malformed file upload",
        ),
        UploadOutcome::Stored => crate::utils::file_ops::generate_response(
            "200 OK",
            "text/plain",
            "File uploaded successfully",
        ),
    }
}

/// A lowercase hexadecimal digit.
pub open spec fn hex_digit(d: u32) -> char {
    if d < 10 {
        (48 + d) as char
    } else {
        (87 + d) as char
    }
}

/// How one character stands inside a JSON string: `"` and `\` behind a
/// backslash; backspace, tab, line feed, form feed and carriage return as
/// `\b`, `\t`, `\n`, `\f`, `\r`; the other control characters below
/// 0x20 as `\u00` and two lowercase hexadecimal digits; any other
/// character as itself.
pub open spec fn json_char(c: char) -> Seq<char> {
    let n = c as u32;
    if c == '"' {
        seq!['\\', '"']
    } else if c == '\\' {
        seq!['\\', '\\']
    } else if n == 8 {
        seq!['\\', 'b']
    } else if n == 9 {
        seq!['\\', 't']
    } else if n == 10 {
        seq!['\\', 'n']
    } else if n == 12 {
        seq!['\\', 'f']
    } else if n == 13 {
        seq!['\\', 'r']
    } else if n < 32 {
        seq!['\\', 'u', '0', '0', hex_digit(n / 16), hex_digit(n % 16)]
    } else {
        seq![c]
    }
}

/// The characters of a string as they stand inside a JSON string.
pub open spec fn json_chars(s: Seq<char>) -> Seq<char>
    decreases s.len(),
{
    if s.len() == 0 {
        seq![]
    } else {
        json_chars(s.drop_last()) + json_char(s.last())
    }
}

/// A string as a JSON string: its escaped characters between quotes.
pub open spec fn json_string(s: Seq<char>) -> Seq<char> {
    seq!['"'] + json_chars(s) + seq!['"']
}

/// The JSON strings of the names, separated by commas.
pub open spec fn json_items(names: Seq<Seq<char>>) -> Seq<char>
    decreases names.len(),
{
    if names.len() == 0 {
        seq![]
    } else if names.len() == 1 {
        json_string(names[0])
    } else {
        json_items(names.drop_last()) + seq![','] + json_string(names.last())
    }
}

/// A list of names as a compact JSON array of strings.
pub open spec fn json_array(names: Seq<Seq<char>>) -> Seq<char> {
    seq!['['] + json_items(names) + seq![']']
}

/// Calls `serde_json::to_string` on the names. For a list of strings it
/// writes, with no spaces, `[`, the strings separated by `,`, and `]`, each
/// string between quotes with the escapes of `json_char`; serializing
/// strings into memory does not fail.
#[verifier::external_body]
fn names_to_json(names: &Vec<String>) -> (r: Option<String>)
    ensures
        crate::text::opt_view(r) == Some(json_array(crate::text::strs(names@))),
{
    serde_json::to_string(names).ok()
}

/// The listing answer for the JSON text of the names (`[]` when there is
/// none).
pub fn listing_reply_with(json: Option<String>) -> (r: Vec<u8>)
    ensures
        r@ == reply(
            "200 OK"@,
            "application/json"@,
            match crate::text::opt_view(json) {
                Some(j) => j,
                None => "[]"@,
            },
        ),
{
    let text = match json {
        Some(j) => j,
        None => String::from_str("[]"),
    };
    crate::utils::file_ops::generate_response("200 OK", "application/json", text.as_str())
}

/// The answer to a listing: the names as a JSON array, or an error when
/// the directory could not be read.
pub fn listing_reply(names: Option<Vec<String>>) -> (r: Vec<u8>)
    ensures
        r@ == match names {
            Some(ns) => reply(
                "200 OK"@,
                "application/json"@,
                json_array(crate::text::strs(ns@)),
            ),
            None => reply("500 INTERNAL SERVER ERROR"@, "text/plain"@, "Failed to list files"@),
        },
{
    match names {
        Some(ns) => listing_reply_with(names_to_json(&ns)),
        None => crate::utils::file_ops::generate_response(
            "500 INTERNAL SERVER ERROR",
            "text/plain",
            "Failed to list files",
        ),
    }
}


/// The content type of a file follows its extension: `html` is
/// `text/html`, `css` is `text/css`, `js` is `application/javascript`,
/// `png` is `image/png`, `jpg` and `jpeg` are `image/jpeg`, `gif` is
/// `image/gif`; any other extension, or none, is
/// `application/octet-stream`.
pub proof fn law_content_type_by_extension(path: Seq<char>)
    ensures
        ({
            let t = content_type_for_ext(crate::server::path_extension(path));
            let e = crate::server::path_extension(path);
            &&& e == Some("html"@) ==> t == "text/html"@
            &&& e == Some("css"@) ==> t == "text/css"@
            &&& e == Some("js"@) ==> t == "application/javascript"@
            &&& e == Some("png"@) ==> t == "image/png"@
            &&& (e == Some("jpg"@) || e == Some("jpeg"@)) ==> t == "image/jpeg"@
            &&& e == Some("gif"@) ==> t == "image/gif"@
            &&& (e is None || !(e == Some("html"@) || e == Some("css"@) || e == Some("js"@) || e == Some("png"@)
                || e == Some("jpg"@) || e == Some("jpeg"@) || e == Some("gif"@))) ==> t
                == "application/octet-stream"@
        }),
{
    reveal_strlit("html");
    reveal_strlit("css");
    reveal_strlit("js");
    reveal_strlit("png");
    reveal_strlit("jpg");
    reveal_strlit("jpeg");
    reveal_strlit("gif");
    assert("html"@.len() == 4 && "html"@[0] == 'h');
    assert("css"@.len() == 3 && "css"@[0] == 'c');
    assert("js"@.len() == 2);
    assert("png"@.len() == 3 && "png"@[0] == 'p');
    assert("jpg"@.len() == 3 && "jpg"@[0] == 'j');
    assert("jpeg"@.len() == 4 && "jpeg"@[0] == 'j');
    assert("gif"@.len() == 3 && "gif"@[0] == 'g');
}


/// A `GET` of a page (a path other than the index, `index.html` and
/// `list_files`) whose extension is `html` is served from `src/www/` as
/// `text/html`.
pub proof fn law_html_page_served_as_html(port: u16, request: Seq<char>)
    requires
        request_method(request) == "GET"@,
        crate::server::config::requested_path(request) != ""@,
        crate::server::config::requested_path(request) != "index.html"@,
        crate::server::config::requested_path(request) != "list_files"@,
        crate::server::path_extension(crate::server::config::requested_path(request)) == Some("html"@),
    ensures
        route_for(port, request) == RouteSpecM::Static(
            "src/www/"@ + crate::server::config::requested_path(request),
            "text/html"@,
        ),
{
    reveal_strlit("GET");
    reveal_strlit("POST");
    reveal_strlit("DELETE");
    assert("GET"@.len() == 3 && "POST"@.len() == 4 && "DELETE"@.len() == 6);
    law_content_type_by_extension(crate::server::config::requested_path(request));
}

} // verus!
