use http_server::http::ResponseBody;
use http_server::server::listing::{directory_listing, listing_entry, name_less, ListingEntry, LISTING_HEAD};

fn entry(name: &str, is_dir: bool, size: &str) -> ListingEntry {
    ListingEntry {
        name: name.to_string(),
        is_dir,
        size_text: size.to_string(),
        modified_text: "2024-01-02 03:04:05".to_string(),
    }
}

fn body_text(entries: Vec<ListingEntry>, path: &str) -> (String, String) {
    let resp = directory_listing(path, entries);
    assert_eq!(resp.status, 200);
    let len = resp.headers.get(&"Content-Length".to_string()).unwrap().clone();
    match resp.body {
        ResponseBody::Whole(b) => {
            assert_eq!(len, b.len().to_string());
            (String::from_utf8(b).unwrap(), len)
        }
        ResponseBody::Chunked(_) => panic!("expected a whole body"),
    }
}

#[test]
fn names_compare_by_code_point() {
    let a: Vec<char> = "B".chars().collect();
    let b: Vec<char> = "a".chars().collect();
    assert!(name_less(&a, &b));
    assert!(!name_less(&b, &a));
    let p: Vec<char> = "ab".chars().collect();
    assert!(name_less(&b, &p));
    assert!(!name_less(&p, &p));
}

#[test]
fn listing_is_sorted_and_complete() {
    let (html, _) = body_text(
        vec![entry("zeta.txt", false, "1.00 KB"), entry("alpha", true, "4.00 KB"), entry("Mid.md", false, "10 B")],
        "/files",
    );
    assert!(html.starts_with(LISTING_HEAD));
    assert!(html.ends_with("</body></html>"));
    assert!(html.contains("<h1>Directory Listing:  /files</h1>"));
    assert!(html.contains("<tr><td colspan='5'><a href='/'>..</a> (Parent Directory)</td></tr>"));
    let m = html.find("<a href='/files/Mid.md'>Mid.md</a>").unwrap();
    let a = html.find("<a href='/files/alpha'>alpha</a>").unwrap();
    let z = html.find("<a href='/files/zeta.txt'>zeta.txt</a>").unwrap();
    assert!(m < a && a < z);
    assert!(html.contains("<td>Directory</td><td>-</td><td>2024-01-02 03:04:05</td><td></td></tr>"));
    assert!(html.contains("<td>File</td><td>1.00 KB</td>"));
    assert!(html.contains("<form action=\"/files/zeta.txt\" method=\"post\""));
    assert!(html.contains("<form action=\"/files\" method=\"post\" enctype=\"multipart/form-data\">"));
}

#[test]
fn root_listing_has_no_parent_link() {
    let (html, _) = body_text(vec![entry("a", false, "1 B")], "/");
    assert!(!html.contains("(Parent Directory)"));
    assert!(html.contains("<a href='/a'>a</a>"));
}

#[test]
fn nested_listing_links_to_its_parent() {
    let (html, _) = body_text(Vec::new(), "/a/b/");
    assert!(html.contains("<a href='/a'>..</a>"));
}

#[test]
fn listing_entry_formats_the_time() {
    let e = listing_entry("x".to_string(), false, "1 B".to_string(), 0, 0);
    assert_eq!(e.name, "x");
    assert_eq!(e.modified_text.len(), 19);
    assert_eq!(&e.modified_text[4..5], "-");
    let far = listing_entry("y".to_string(), true, "-".to_string(), i64::MAX, 0);
    assert_eq!(far.modified_text, "-");
    let early = listing_entry("z".to_string(), true, "-".to_string(), i64::MIN, 5);
    assert_eq!(early.modified_text, "-");
}

#[test]
fn listing_entry_shows_years_after_9999() {
    let e = listing_entry("x".to_string(), false, "1 B".to_string(), 253416643200, 0);
    assert!(e.modified_text.contains("10000-06-1"), "{}", e.modified_text);
    let last = listing_entry("x".to_string(), false, "1 B".to_string(), 8210266790399, 0);
    assert_ne!(last.modified_text, "-");
    let past = listing_entry("x".to_string(), false, "1 B".to_string(), 8210266790400, 0);
    assert_eq!(past.modified_text, "-");
}
