//! The page that lists a directory, with a delete button for each file
//! and an upload form.
use vstd::prelude::*;
use crate::http::{HttpResponse, ResponseBody};
use crate::text::{chars_of, string_of};

verus! {

/// The earliest second (-262143-01-02 00:00:00 UTC) and the latest
/// (262142-12-30 23:59:59 UTC) whose time the listing shows: the range of
/// `chrono`'s dates less one day at each end, so that moving to the local
/// time zone stays within it.
pub const EARLIEST_SHOWN: i64 = -8334601228800;

pub const LATEST_SHOWN: i64 = 8210266790399;

/// Calls `chrono::DateTime::from_timestamp(secs, nanos)`, converts the time
/// to the machine's time zone (`with_timezone(&Local)`) and formats it as
/// `%Y-%m-%d %H:%M:%S`. The seconds are kept a day inside `chrono`'s
/// range of dates, where `from_timestamp` returns `Some` and neither the
/// time-zone lookup nor the shift to local time overflows. The text
/// depends on the machine's time zone, so nothing is stated of it.
#[verifier::external_body]
fn format_local_time(secs: i64, nanos: u32) -> Option<String>
    requires
        EARLIEST_SHOWN <= secs <= LATEST_SHOWN,
        nanos < 1000000000,
{
    chrono::DateTime::from_timestamp(secs, nanos).map(
        |t| t.with_timezone(&chrono::Local).format("%Y-%m-%d %H:%M:%S").to_string(),
    )
}

/// What `Path::parent` gives for this path, as text.
pub uninterp spec fn path_parent(p: Seq<char>) -> Option<Seq<char>>;

/// Calls `Path::parent`; the result is named `path_parent`.
#[verifier::external_body]
fn parent_of(p: &str) -> (r: Option<String>)
    ensures
        crate::text::opt_view(r) == path_parent(p@),
{
    std::path::Path::new(p).parent().and_then(|q| q.to_str()).map(|q| q.to_string())
}

pub const LISTING_HEAD: &'static str = "<!DOCTYPE html>\n    <html>\n    <head>\n        <title>Directory Listing</title>\n        <style>\n            body { font-family: Arial, sans-serif; margin: 0; padding: 20px; background-color: #f0f0f0; }\n            h1 { color: #333; }\n            table { width: 100%; border-collapse: collapse; margin-bottom: 20px; background-color: white; }\n            th, td { padding: 10px; text-align: left; border-bottom: 1px solid #ddd; }\n            th { background-color: #4CAF50; color: white; }\n            tr:hover { background-color: #f5f5f5; }\n            a { color: #1a73e8; text-decoration: none; }\n            a:hover { text-decoration: underline; }\n            .upload-form { background-color: white; padding: 20px; border-radius: 5px; }\n            .upload-form input[type=\"file\"] { margin-right: 10px; }\n            .upload-form input[type=\"submit\"], .delete-btn { \n                background-color: #4CAF50; \n                color: white; \n                border: none; \n                padding: 5px 10px; \n                cursor: pointer; \n                border-radius: 3px;\n            }\n            .delete-btn { background-color: #f44336; }\n        </style>\n    </head>\n    <body>";
pub const DELETE_FORM_START: &'static str = "<td>\n                    <form action=\"";
pub const DELETE_FORM_END: &'static str = "\" method=\"post\" style=\"display:inline;\">\n                        <input type=\"hidden\" name=\"_method\" value=\"DELETE\" />\n                        <input type=\"submit\" value=\"Delete\" class=\"delete-btn\" />\n                    </form>\n                </td>";
pub const UPLOAD_FORM_START: &'static str = "<div class=\"upload-form\">\n                <h2>Upload File</h2>\n                <form action=\"";
pub const UPLOAD_FORM_END: &'static str = "\" method=\"post\" enctype=\"multipart/form-data\">\n                    <input type=\"file\" name=\"file\" required/>\n                    <input type=\"submit\" value=\"Upload\"  />\n                </form>\n            </div>";

/// One line of the listing: the entry's name, whether it is a directory,
/// the size as shown and the time of its last change as shown.
pub struct ListingEntry {
    pub name: String,
    pub is_dir: bool,
    pub size_text: String,
    pub modified_text: String,
}

pub open spec fn entry_view(e: ListingEntry) -> (Seq<char>, bool, Seq<char>, Seq<char>) {
    (e.name@, e.is_dir, e.size_text@, e.modified_text@)
}

pub open spec fn entries_view(v: Seq<ListingEntry>) -> Seq<(Seq<char>, bool, Seq<char>, Seq<char>)> {
    v.map_values(|e: ListingEntry| entry_view(e))
}

/// The text shown for a time the listing does not show.
pub const NO_TIME: &'static str = "-";

/// A line of the listing for an entry that the file system describes; the
/// time of its last change (`secs` seconds and `nanos` nanoseconds after
/// 1970-01-01 00:00:00 UTC) is shown in the machine's time zone, by
/// `chrono`, or as `-` when it lies outside `EARLIEST_SHOWN` to
/// `LATEST_SHOWN` (there `chrono` has no date for it, and the conversion
/// from a file time panics).
pub fn listing_entry(name: String, is_dir: bool, size_text: String, secs: i64, nanos: u32) -> (r: ListingEntry)
    ensures
        r.name@ == name@,
        r.is_dir == is_dir,
        r.size_text@ == size_text@,
        !(EARLIEST_SHOWN <= secs <= LATEST_SHOWN && nanos < 1000000000) ==> r.modified_text@ == NO_TIME@,
{
    let modified_text = if EARLIEST_SHOWN <= secs && secs <= LATEST_SHOWN && nanos < 1000000000 {
        match format_local_time(secs, nanos) {
            Some(t) => t,
            None => String::from_str(NO_TIME),
        }
    } else {
        String::from_str(NO_TIME)
    };
    ListingEntry { name, is_dir, size_text, modified_text }
}

/// `a` comes before `b` in the order of `str::cmp`: code point by code
/// point, a prefix first.
pub open spec fn name_lt(a: Seq<char>, b: Seq<char>) -> bool
    decreases a.len(),
{
    if b.len() == 0 {
        false
    } else if a.len() == 0 {
        true
    } else if a[0] != b[0] {
        (a[0] as u32) < (b[0] as u32)
    } else {
        name_lt(a.drop_first(), b.drop_first())
    }
}

pub fn name_less(a: &[char], b: &[char]) -> (r: bool)
    ensures
        r == name_lt(a@, b@),
{
    let mut i: usize = 0;
    assert(a@.skip(0) =~= a@);
    assert(b@.skip(0) =~= b@);
    while i < a.len() && i < b.len() && a[i] == b[i]
        invariant
            i <= a@.len(),
            i <= b@.len(),
            name_lt(a@.skip(i as int), b@.skip(i as int)) == name_lt(a@, b@),
        decreases a@.len() - i,
    {
        assert(a@.skip(i as int).drop_first() =~= a@.skip(i + 1));
        assert(b@.skip(i as int).drop_first() =~= b@.skip(i + 1));
        i = i + 1;
    }
    if i == b.len() {
        false
    } else if i == a.len() {
        true
    } else {
        (a[i] as u32) < (b[i] as u32)
    }
}

/// `s` (sorted) with `e` placed after every entry that does not come after it.
pub open spec fn insert_sorted(
    s: Seq<(Seq<char>, bool, Seq<char>, Seq<char>)>,
    e: (Seq<char>, bool, Seq<char>, Seq<char>),
) -> Seq<(Seq<char>, bool, Seq<char>, Seq<char>)>
    decreases s.len(),
{
    if s.len() == 0 {
        seq![e]
    } else if name_lt(e.0, s.last().0) {
        insert_sorted(s.drop_last(), e).push(s.last())
    } else {
        s.push(e)
    }
}

/// The entries in the order of their names (a stable sort, as `sort_by`).
pub open spec fn sort_entries(s: Seq<(Seq<char>, bool, Seq<char>, Seq<char>)>) -> Seq<(Seq<char>, bool, Seq<char>, Seq<char>)>
    decreases s.len(),
{
    if s.len() == 0 {
        seq![]
    } else {
        insert_sorted(sort_entries(s.drop_last()), s.last())
    }
}

/// The link to an entry: the request path, a `/` unless it ends with one, the name.
pub open spec fn entry_path(request_path: Seq<char>, name: Seq<char>) -> Seq<char> {
    if crate::text::ends_with(request_path, "/"@) {
        request_path + name
    } else {
        request_path + "/"@ + name
    }
}

/// The table row of an entry.
pub open spec fn entry_row(request_path: Seq<char>, e: (Seq<char>, bool, Seq<char>, Seq<char>)) -> Seq<char> {
    let full = entry_path(request_path, e.0);
    "<tr>"@ + "<td><a href='"@ + full + "'>"@ + e.0 + "</a></td>"@ + "<td>"@ + (if e.1 {
        "Directory"@
    } else {
        "File"@
    }) + "</td>"@ + "<td>"@ + (if e.1 {
        "-"@
    } else {
        e.2
    }) + "</td>"@ + "<td>"@ + e.3 + "</td>"@ + (if !e.1 {
        DELETE_FORM_START@ + full + DELETE_FORM_END@
    } else {
        "<td></td>"@
    }) + "</tr>"@
}

pub open spec fn rows(request_path: Seq<char>, es: Seq<(Seq<char>, bool, Seq<char>, Seq<char>)>) -> Seq<char>
    decreases es.len(),
{
    if es.len() == 0 {
        seq![]
    } else {
        rows(request_path, es.drop_last()) + entry_row(request_path, es.last())
    }
}

/// The link to the parent directory, shown for any path but `/`.
pub open spec fn parent_row(request_path: Seq<char>) -> Seq<char> {
    if request_path == "/"@ {
        seq![]
    } else {
        let parent = match path_parent(request_path) {
            Some(p) => p,
            None => "/"@,
        };
        "<tr><td colspan='5'><a href='"@ + parent + "'>..</a> (Parent Directory)</td></tr>"@
    }
}

/// The listing page.
pub open spec fn listing_html(request_path: Seq<char>, es: Seq<(Seq<char>, bool, Seq<char>, Seq<char>)>) -> Seq<char> {
    LISTING_HEAD@ + "<h1>Directory Listing:  "@ + request_path + "</h1>"@
        + "<table><tr><th>Name</th><th>Type</th><th>Size</th><th>Last Modified</th><th>Actions</th></tr>"@
        + parent_row(request_path) + rows(request_path, sort_entries(es)) + "</table>"@
        + UPLOAD_FORM_START@ + request_path + UPLOAD_FORM_END@ + "</body></html>"@
}

fn push_str(out: &mut Vec<char>, s: &str)
    ensures
        final(out)@ == old(out)@ + s@,
{
    let c = chars_of(s);
    out.extend_from_slice(c.as_slice());
}

/// Where `insert_sorted` puts `e`, looking back from index `j`.
pub open spec fn ins_pos(
    s: Seq<(Seq<char>, bool, Seq<char>, Seq<char>)>,
    e: (Seq<char>, bool, Seq<char>, Seq<char>),
    j: int,
) -> int
    decreases j,
{
    if j > 0 && j <= s.len() && name_lt(e.0, s[j - 1].0) {
        ins_pos(s, e, j - 1)
    } else {
        j
    }
}

proof fn lemma_ins_pos_bounds(
    s: Seq<(Seq<char>, bool, Seq<char>, Seq<char>)>,
    e: (Seq<char>, bool, Seq<char>, Seq<char>),
    j: int,
)
    requires
        0 <= j <= s.len(),
    ensures
        0 <= ins_pos(s, e, j) <= j,
    decreases j,
{
    if j > 0 && name_lt(e.0, s[j - 1].0) {
        lemma_ins_pos_bounds(s, e, j - 1);
    }
}

proof fn lemma_insert_sorted(
    s: Seq<(Seq<char>, bool, Seq<char>, Seq<char>)>,
    e: (Seq<char>, bool, Seq<char>, Seq<char>),
)
    ensures
        ({
            let p = ins_pos(s, e, s.len() as int);
            insert_sorted(s, e) == s.take(p) + seq![e] + s.skip(p)
        }),
    decreases s.len(),
{
    lemma_ins_pos_bounds(s, e, s.len() as int);
    if s.len() == 0 {
        assert(s.take(0) + seq![e] + s.skip(0) =~= seq![e]);
    } else if name_lt(e.0, s.last().0) {
        let t = s.drop_last();
        lemma_insert_sorted(t, e);
        lemma_ins_pos_bounds(t, e, t.len() as int);
        lemma_ins_pos_same(s, e, t.len() as int);
        let p = ins_pos(t, e, t.len() as int);
        assert(ins_pos(s, e, s.len() as int) == p);
        assert((t.take(p) + seq![e] + t.skip(p)).push(s.last()) =~= s.take(p) + seq![e] + s.skip(p));
    } else {
        assert(s.take(s.len() as int) + seq![e] + s.skip(s.len() as int) =~= s.push(e));
    }
}

/// Looking back from `j` below the last entry, `s` and `s` without its
/// last entry agree.
proof fn lemma_ins_pos_same(
    s: Seq<(Seq<char>, bool, Seq<char>, Seq<char>)>,
    e: (Seq<char>, bool, Seq<char>, Seq<char>),
    j: int,
)
    requires
        0 <= j < s.len(),
    ensures
        ins_pos(s, e, j) == ins_pos(s.drop_last(), e, j),
    decreases j,
{
    if j > 0 {
        lemma_ins_pos_same(s, e, j - 1);
    }
}

fn sort_listing(entries: Vec<ListingEntry>) -> (r: Vec<ListingEntry>)
    ensures
        entries_view(r@) == sort_entries(entries_view(entries@)),
{
    let ghost ev = entries_view(entries@);
    let mut rest = entries;
    let mut out: Vec<ListingEntry> = Vec::new();
    let ghost mut k: int = 0;
    assert(ev.take(0) =~= Seq::<(Seq<char>, bool, Seq<char>, Seq<char>)>::empty());
    while rest.len() > 0
        invariant
            0 <= k <= ev.len(),
            entries_view(rest@) == ev.skip(k),
            entries_view(out@) == sort_entries(ev.take(k)),
        decreases rest@.len(),
    {
        let ghost before = entries_view(out@);
        let ghost r0 = rest@;
        assert(entries_view(r0)[0] == ev.skip(k)[0]);
        let e = rest.remove(0);
        proof {
            assert(e == r0[0]);
            assert(entries_view(r0).len() == r0.len());
            assert(ev.skip(k).len() == ev.len() - k);
            assert(k < ev.len());
            assert(rest@ =~= r0.subrange(1, r0.len() as int));
            assert(entries_view(r0)[0] == entry_view(r0[0]));
            assert(ev.skip(k)[0] == ev[k]);
            assert(entry_view(e) == ev[k]);
            assert(entries_view(rest@).len() == rest@.len());
            assert forall|i: int| 0 <= i < entries_view(rest@).len() implies #[trigger] entries_view(rest@)[i] == ev.skip(k + 1)[i] by {
                assert(entries_view(rest@)[i] == entry_view(rest@[i]));
                assert(rest@[i] == r0[i + 1]);
                assert(entries_view(r0)[i + 1] == entry_view(r0[i + 1]));
                assert(entries_view(r0)[i + 1] == ev.skip(k)[i + 1]);
                assert(ev.skip(k)[i + 1] == ev[k + i + 1]);
                assert(ev.skip(k + 1)[i] == ev[k + 1 + i]);
            }
            assert(entries_view(rest@) =~= ev.skip(k + 1));
        }
        let mut j = out.len();
        while j > 0 && name_less(chars_of(e.name.as_str()).as_slice(), chars_of(out[j - 1].name.as_str()).as_slice())
            invariant
                j <= out@.len(),
                entries_view(out@) == before,
                ins_pos(before, entry_view(e), j as int) == ins_pos(before, entry_view(e), before.len() as int),
            decreases j,
        {
            j = j - 1;
        }
        proof {
            lemma_insert_sorted(before, entry_view(e));
            assert(ev.take(k + 1).drop_last() =~= ev.take(k));
            assert(ev.take(k + 1).last() == entry_view(e));
        }
        out.insert(j, e);
        proof {
            assert(entries_view(out@) =~= before.take(j as int) + seq![entry_view(e)] + before.skip(j as int));
            k = k + 1;
        }
    }
    assert(ev.take(k) =~= ev);
    out
}

/// Appends the row of an entry.
fn push_row(html: &mut Vec<char>, rp: &[char], ends_slash: bool, e: &ListingEntry)
    requires
        ends_slash == crate::text::ends_with(rp@, "/"@),
    ensures
        final(html)@ == old(html)@ + entry_row(rp@, entry_view(*e)),
{
    let mut full: Vec<char> = vstd::slice::slice_to_vec(rp);
    if !ends_slash {
        full.push('/');
    }
    full.extend_from_slice(chars_of(e.name.as_str()).as_slice());
    proof {
        reveal_strlit("/");
        assert(full@ =~= entry_path(rp@, e.name@));
    }
    let full_s = string_of(full.as_slice());
    let mut row: Vec<char> = Vec::new();
    push_str(&mut row, "<tr>");
    assert(row@ =~= "<tr>"@);
    push_str(&mut row, "<td><a href='");
    push_str(&mut row, full_s.as_str());
    push_str(&mut row, "'>");
    push_str(&mut row, e.name.as_str());
    push_str(&mut row, "</a></td>");
    push_str(&mut row, "<td>");
    push_str(&mut row, if e.is_dir { "Directory" } else { "File" });
    push_str(&mut row, "</td>");
    push_str(&mut row, "<td>");
    push_str(&mut row, if e.is_dir { "-" } else { e.size_text.as_str() });
    push_str(&mut row, "</td>");
    push_str(&mut row, "<td>");
    push_str(&mut row, e.modified_text.as_str());
    push_str(&mut row, "</td>");
    let mut action: Vec<char> = Vec::new();
    if !e.is_dir {
        push_str(&mut action, DELETE_FORM_START);
        push_str(&mut action, full_s.as_str());
        push_str(&mut action, DELETE_FORM_END);
        assert(action@ =~= DELETE_FORM_START@ + full@ + DELETE_FORM_END@);
    } else {
        push_str(&mut action, "<td></td>");
        assert(action@ =~= "<td></td>"@);
    }
    row.extend_from_slice(action.as_slice());
    push_str(&mut row, "</tr>");
    assert(row@ == entry_row(rp@, entry_view(*e)));
    html.extend_from_slice(row.as_slice());
}

/// The listing page for `request_path`, answered with status 200.
pub fn directory_listing(request_path: &str, entries: Vec<ListingEntry>) -> (r: HttpResponse)
    ensures
        r.status == 200,
        r.body matches ResponseBody::Whole(b) && b@ == vstd::utf8::encode_utf8(
            listing_html(request_path@, entries_view(entries@)),
        ),
        r.headers@ == Map::<Seq<char>, Seq<char>>::empty().insert("Content-Type"@, "text/html"@).insert(
            "Content-Length"@,
            crate::text::decimal(vstd::utf8::encode_utf8(listing_html(request_path@, entries_view(entries@))).len()),
        ),
{
    let sorted = sort_listing(entries);
    let ghost es = entries_view(sorted@);
    let rp = chars_of(request_path);
    let mut html: Vec<char> = Vec::new();
    push_str(&mut html, LISTING_HEAD);
    push_str(&mut html, "<h1>Directory Listing:  ");
    push_str(&mut html, request_path);
    push_str(&mut html, "</h1>");
    push_str(
        &mut html,
        "<table><tr><th>Name</th><th>Type</th><th>Size</th><th>Last Modified</th><th>Actions</th></tr>",
    );
    let ghost prefix = html@;
    if !crate::text::eq_lit(rp.as_slice(), "/") {
        let parent = match parent_of(request_path) {
            Some(p) => p,
            None => String::from_str("/"),
        };
        push_str(&mut html, "<tr><td colspan='5'><a href='");
        push_str(&mut html, parent.as_str());
        push_str(&mut html, "'>..</a> (Parent Directory)</td></tr>");
    }
    assert(html@ =~= prefix + parent_row(request_path@));
    let ghost base = html@;
    let ends_slash = crate::text::has_suffix(rp.as_slice(), chars_of("/").as_slice());
    let mut i: usize = 0;
    assert(es.take(0) =~= Seq::<(Seq<char>, bool, Seq<char>, Seq<char>)>::empty());
    assert(base + rows(request_path@, es.take(0)) =~= base);
    while i < sorted.len()
        invariant
            i <= sorted@.len(),
            es == entries_view(sorted@),
            rp@ == request_path@,
            ends_slash == crate::text::ends_with(request_path@, "/"@),
            html@ == base + rows(request_path@, es.take(i as int)),
        decreases sorted@.len() - i,
    {
        let ghost before = html@;
        push_row(&mut html, rp.as_slice(), ends_slash, &sorted[i]);
        proof {
            let t = es.take(i + 1);
            assert(t.drop_last() =~= es.take(i as int));
            assert(t.last() == entry_view(sorted@[i as int]));
            assert(html@ =~= base + rows(request_path@, t));
        }
        i = i + 1;
    }
    assert(es.take(sorted@.len() as int) =~= es);
    push_str(&mut html, "</table>");
    push_str(&mut html, UPLOAD_FORM_START);
    push_str(&mut html, request_path);
    push_str(&mut html, UPLOAD_FORM_END);
    push_str(&mut html, "</body></html>");
    assert(html@ =~= listing_html(request_path@, entries_view(entries@)));
    let page = string_of(html.as_slice());
    crate::server::html_response(200, page.as_str())
}

// ---------------------------------------------------------------------
// The order of names
// ---------------------------------------------------------------------
proof fn lemma_name_lt_irreflexive(a: Seq<char>)
    ensures
        !name_lt(a, a),
    decreases a.len(),
{
    if a.len() > 0 {
        lemma_name_lt_irreflexive(a.drop_first());
    }
}

proof fn lemma_name_lt_asymmetric(a: Seq<char>, b: Seq<char>)
    ensures
        name_lt(a, b) ==> !name_lt(b, a),
    decreases a.len(),
{
    if a.len() > 0 && b.len() > 0 && a[0] == b[0] {
        lemma_name_lt_asymmetric(a.drop_first(), b.drop_first());
    }
}

proof fn lemma_name_lt_transitive(a: Seq<char>, b: Seq<char>, c: Seq<char>)
    requires
        name_lt(a, b),
        name_lt(b, c),
    ensures
        name_lt(a, c),
    decreases a.len(),
{
    if a.len() > 0 && a[0] == b[0] && b[0] == c[0] {
        lemma_name_lt_transitive(a.drop_first(), b.drop_first(), c.drop_first());
    } else if a.len() > 0 && a[0] != c[0] {
    } else if a.len() > 0 {
        assert((a[0] as u32) == (c[0] as u32));
    }
}

proof fn lemma_name_lt_total(a: Seq<char>, b: Seq<char>)
    requires
        a != b,
    ensures
        name_lt(a, b) || name_lt(b, a),
    decreases a.len(),
{
    if a.len() > 0 && b.len() > 0 {
        if a[0] == b[0] {
            if a.drop_first() == b.drop_first() {
                assert(a =~= seq![a[0]] + a.drop_first());
                assert(b =~= seq![b[0]] + b.drop_first());
            }
            lemma_name_lt_total(a.drop_first(), b.drop_first());
        } else {
            vstd::utf8::char_u32_cast(a[0], a[0] as u32);
            vstd::utf8::char_u32_cast(b[0], b[0] as u32);
        }
    } else if a.len() == 0 && b.len() == 0 {
        assert(a =~= b);
    }
}

/// "Does not come after": `a` is not after `b`, and `b` not after `c`,
/// so `a` is not after `c`.
proof fn lemma_not_after_transitive(a: Seq<char>, b: Seq<char>, c: Seq<char>)
    requires
        !name_lt(b, a),
        !name_lt(c, b),
    ensures
        !name_lt(c, a),
{
    if name_lt(c, a) {
        if a == b {
        } else if b == c {
        } else {
            lemma_name_lt_total(a, b);
            lemma_name_lt_total(b, c);
            lemma_name_lt_transitive(a, b, c);
            lemma_name_lt_asymmetric(a, c);
        }
    }
}

/// No entry comes after one that follows it.
pub open spec fn sorted_by_name(s: Seq<(Seq<char>, bool, Seq<char>, Seq<char>)>) -> bool {
    forall|i: int, j: int| 0 <= i < j < s.len() ==> !name_lt(#[trigger] s[j].0, #[trigger] s[i].0)
}

proof fn lemma_insert_sorted_keeps(
    s: Seq<(Seq<char>, bool, Seq<char>, Seq<char>)>,
    e: (Seq<char>, bool, Seq<char>, Seq<char>),
)
    requires
        sorted_by_name(s),
    ensures
        sorted_by_name(insert_sorted(s, e)),
        insert_sorted(s, e).to_multiset() == s.to_multiset().insert(e),
    decreases s.len(),
{
    broadcast use vstd::seq_lib::group_to_multiset_ensures;

    let r = insert_sorted(s, e);
    if s.len() == 0 {
        assert(r =~= Seq::<(Seq<char>, bool, Seq<char>, Seq<char>)>::empty().push(e));
    } else if name_lt(e.0, s.last().0) {
        let d = s.drop_last();
        let last = s.last();
        assert forall|i: int, j: int| 0 <= i < j < d.len() implies !name_lt(#[trigger] d[j].0, #[trigger] d[i].0) by {
            assert(d[i] == s[i] && d[j] == s[j]);
        }
        lemma_insert_sorted_keeps(d, e);
        let t = insert_sorted(d, e);
        assert(r == t.push(last));
        assert(d.push(last) =~= s);
        assert(r.to_multiset() =~= s.to_multiset().insert(e));
        assert forall|i: int, j: int| 0 <= i < j < r.len() implies !name_lt(#[trigger] r[j].0, #[trigger] r[i].0) by {
            if j < t.len() {
                assert(r[i] == t[i] && r[j] == t[j]);
            } else {
                assert(r[j] == last);
                assert(r[i] == t[i]);
                assert(t.to_multiset().count(t[i]) > 0);
                assert(t.contains(t[i]));
                if t[i] == e {
                    lemma_name_lt_asymmetric(e.0, last.0);
                } else {
                    assert(d.to_multiset().count(t[i]) > 0);
                    assert(d.contains(t[i]));
                    let k = choose|k: int| 0 <= k < d.len() && d[k] == t[i];
                    assert(s[k] == d[k]);
                    assert(s[s.len() - 1] == last);
                }
            }
        }
    } else {
        assert(r == s.push(e));
        assert forall|i: int, j: int| 0 <= i < j < r.len() implies !name_lt(#[trigger] r[j].0, #[trigger] r[i].0) by {
            if j < s.len() {
                assert(r[i] == s[i] && r[j] == s[j]);
            } else {
                assert(r[j] == e);
                assert(r[i] == s[i]);
                let last = s.last();
                assert(s[s.len() - 1] == last);
                if i < s.len() - 1 {
                    lemma_not_after_transitive(s[i].0, last.0, e.0);
                }
            }
        }
    }
}

/// The entries named `n`, in order.
pub open spec fn with_name(
    s: Seq<(Seq<char>, bool, Seq<char>, Seq<char>)>,
    n: Seq<char>,
) -> Seq<(Seq<char>, bool, Seq<char>, Seq<char>)>
    decreases s.len(),
{
    if s.len() == 0 {
        seq![]
    } else if s.last().0 == n {
        with_name(s.drop_last(), n).push(s.last())
    } else {
        with_name(s.drop_last(), n)
    }
}

proof fn lemma_with_name_push(
    s: Seq<(Seq<char>, bool, Seq<char>, Seq<char>)>,
    x: (Seq<char>, bool, Seq<char>, Seq<char>),
    n: Seq<char>,
)
    ensures
        with_name(s.push(x), n) == if x.0 == n {
            with_name(s, n).push(x)
        } else {
            with_name(s, n)
        },
{
    assert(s.push(x).drop_last() =~= s);
}

proof fn lemma_insert_sorted_with_name(
    s: Seq<(Seq<char>, bool, Seq<char>, Seq<char>)>,
    e: (Seq<char>, bool, Seq<char>, Seq<char>),
    n: Seq<char>,
)
    ensures
        with_name(insert_sorted(s, e), n) == if e.0 == n {
            with_name(s, n).push(e)
        } else {
            with_name(s, n)
        },
    decreases s.len(),
{
    if s.len() == 0 {
        lemma_with_name_push(s, e, n);
        assert(insert_sorted(s, e) =~= s.push(e));
    } else if name_lt(e.0, s.last().0) {
        let d = s.drop_last();
        let last = s.last();
        assert(insert_sorted(s, e) == insert_sorted(d, e).push(last));
        lemma_insert_sorted_with_name(d, e, n);
        lemma_with_name_push(insert_sorted(d, e), last, n);
        lemma_with_name_push(d, last, n);
        assert(d.push(last) =~= s);
        if e.0 == n {
            lemma_name_lt_asymmetric(e.0, last.0);
            assert(last.0 != n);
        }
    } else {
        lemma_with_name_push(s, e, n);
        assert(insert_sorted(s, e) == s.push(e));
    }
}

/// The entries of a listing are shown each once, in the order of their
/// names; entries of the same name keep the order in which they were read.
pub proof fn law_listing_sorted(es: Seq<(Seq<char>, bool, Seq<char>, Seq<char>)>)
    ensures
        sorted_by_name(sort_entries(es)),
        sort_entries(es).to_multiset() == es.to_multiset(),
        forall|n: Seq<char>| #[trigger] with_name(sort_entries(es), n) == with_name(es, n),
    decreases es.len(),
{
    broadcast use vstd::seq_lib::group_to_multiset_ensures;

    if es.len() == 0 {
        assert(sort_entries(es) =~= es);
    } else {
        let d = es.drop_last();
        law_listing_sorted(d);
        lemma_insert_sorted_keeps(sort_entries(d), es.last());
        assert(d.push(es.last()) =~= es);
        assert forall|n: Seq<char>| #[trigger] with_name(sort_entries(es), n) == with_name(es, n) by {
            lemma_insert_sorted_with_name(sort_entries(d), es.last(), n);
            lemma_with_name_push(d, es.last(), n);
        }
    }
}

} // verus!
