use http_server::server::config::get_requested_path;
use http_server::server::multiserver::{
    deletion_reply, extract_content, extract_filename, get_boundary, get_content_type, get_hostname,
    get_request_method, index_reply, is_request_complete, listing_reply, listing_reply_with,
    not_allowed_reply, plan_multipart_upload, route_request, static_reply, upload_reply, MultiRoute,
    MultipartUpload, UploadOutcome,
};
use http_server::utils::file_ops::generate_response;

const UPLOAD: &str = "POST /upload HTTP/1.1\r\nHost: localhost\r\nContent-Type: multipart/form-data; boundary=XYZ\r\n\r\n--XYZ\r\nContent-Disposition: form-data; name=\"file\"; filename=\"notes.txt\"\r\nContent-Type: text/plain\r\n\r\nhello world\r\n--XYZ--\r\n";

fn text(b: Vec<u8>) -> String {
    String::from_utf8(b).unwrap()
}

#[test]
fn generate_response_counts_bytes() {
    assert_eq!(
        text(generate_response("200 OK", "text/plain", "h\u{e9}")),
        "HTTP/1.1 200 OK\r\nContent-Type: text/plain\r\nContent-Length: 3\r\n\r\nh\u{e9}"
    );
    assert_eq!(
        text(generate_response("404 NOT FOUND", "text/html", "")),
        "HTTP/1.1 404 NOT FOUND\r\nContent-Type: text/html\r\nContent-Length: 0\r\n\r\n"
    );
}

#[test]
fn complete_once_blank_line_arrives() {
    assert!(is_request_complete(b"GET / HTTP/1.1\r\nHost: a\r\n\r\n"));
    assert!(!is_request_complete(b"GET / HTTP/1.1\r\nHost: a\r\n"));
    assert!(!is_request_complete(b"\r\n\r"));
    assert!(is_request_complete(b"\r\n\r\n"));
}

#[test]
fn request_line_parts() {
    assert_eq!(get_request_method("get /x HTTP/1.1\r\n"), "GET");
    assert_eq!(get_request_method(""), "");
    assert_eq!(get_requested_path("GET //a/b HTTP/1.1\r\n"), "a/b");
    assert_eq!(get_requested_path("GET\r\n"), "");
    assert_eq!(get_requested_path("GET / HTTP/1.1"), "");
}

#[test]
fn hostname_is_between_the_colons() {
    assert_eq!(get_hostname("GET / HTTP/1.1\r\nHOST: example.com:8080\r\n\r\n"), "example.com");
    assert_eq!(get_hostname("GET / HTTP/1.1\r\nAccept: */*\r\n\r\n"), "");
}

#[test]
fn multipart_pieces() {
    assert_eq!(get_boundary(UPLOAD), "XYZ");
    assert_eq!(get_boundary("GET / HTTP/1.1\r\n\r\n"), "");
    assert_eq!(extract_filename("\r\nContent-Disposition: form-data; filename=\"n.txt\"\r\n"), "n.txt");
    assert_eq!(extract_filename("no name"), "");
    assert_eq!(extract_content("\r\nH: v\r\n\r\nhello\r\n--"), Some("hello".to_string()));
    assert_eq!(extract_content("plain"), Some("plain".to_string()));
    assert_eq!(extract_content("head\r\n\r\nbody"), None);
}

#[test]
fn content_types_by_extension() {
    assert_eq!(get_content_type("a/b.css"), "text/css");
    assert_eq!(get_content_type("x.jpeg"), "image/jpeg");
    assert_eq!(get_content_type("x.JPG"), "application/octet-stream");
    assert_eq!(get_content_type("noext"), "application/octet-stream");
}

#[test]
fn upload_plan_finds_the_file_part() {
    match plan_multipart_upload(8080, UPLOAD) {
        MultipartUpload::File { dir, path, content } => {
            assert_eq!(dir, "src/www/upload/server1");
            assert_eq!(path, "src/www/upload/server1/notes.txt");
            assert_eq!(content, "hello world");
        }
        _ => panic!("expected a file"),
    }
    assert!(matches!(plan_multipart_upload(8080, "POST /upload HTTP/1.1\r\n\r\nfilename=x"), MultipartUpload::NoFile));
    let cut = "POST /upload HTTP/1.1\r\nContent-Type: multipart/form-data; boundary=B\r\n\r\nB\r\nfilename=\"z\"\r\n\r\ntail";
    assert!(matches!(plan_multipart_upload(9000, cut), MultipartUpload::Malformed));
}

#[test]
fn routes_of_the_multi_host_server() {
    assert!(matches!(route_request(8080, b"PUT /x HTTP/1.1\r\n\r\n"), MultiRoute::NotAllowed));
    assert!(matches!(route_request(8080, b"POST /other HTTP/1.1\r\n\r\n"), MultiRoute::NotAllowed));
    assert!(matches!(route_request(8080, b"GET / HTTP/1.1\r\n\r\n"), MultiRoute::Index));
    assert!(matches!(route_request(8080, b"GET /index.html HTTP/1.1\r\n\r\n"), MultiRoute::Index));
    assert!(matches!(route_request(8080, b"GET /list_files HTTP/1.1\r\n\r\n"), MultiRoute::ListFiles(ref d) if d == "src/www/upload/server1"));
    assert!(matches!(route_request(9000, b"DELETE /delete/a.txt HTTP/1.1\r\n\r\n"), MultiRoute::Delete(ref p) if p == "www/upload/server2/a.txt"));
    assert!(matches!(route_request(8080, b"DELETE /a.txt HTTP/1.1\r\n\r\n"), MultiRoute::NotAllowed));
    assert!(matches!(route_request(8080, b"get /css/site.css HTTP/1.1\r\n\r\n"), MultiRoute::Static(ref p, ref t) if p == "src/www/css/site.css" && t == "text/css"));
    assert!(matches!(route_request(8080, UPLOAD.as_bytes()), MultiRoute::Upload(MultipartUpload::File { .. })));
}

#[test]
fn replies() {
    assert_eq!(
        text(not_allowed_reply(None)),
        "HTTP/1.1 405 METHOD NOT ALLOWED\r\nContent-Type: text/plain\r\nContent-Length: 22\r\n\r\n405 Method Not Allowed"
    );
    assert_eq!(
        text(not_allowed_reply(Some("<p>no</p>".to_string()))),
        "HTTP/1.1 405 METHOD NOT ALLOWED\r\nContent-Type: text/html\r\nContent-Length: 9\r\n\r\n<p>no</p>"
    );
    assert_eq!(text(index_reply(None)), "HTTP/1.1 404 NOT FOUND\r\nContent-Type: text/plain\r\nContent-Length: 20\r\n\r\nIndex page not found");
    assert_eq!(text(static_reply("text/css", Some("a{}".to_string()), None)), "HTTP/1.1 200 OK\r\nContent-Type: text/css\r\nContent-Length: 3\r\n\r\na{}");
    assert_eq!(text(static_reply("text/css", None, None)), "HTTP/1.1 404 NOT FOUND\r\nContent-Type: text/plain\r\nContent-Length: 13\r\n\r\n404 Not Found");
    assert_eq!(text(deletion_reply(false, false)), "HTTP/1.1 404 NOT FOUND\r\nContent-Type: text/plain\r\nContent-Length: 14\r\n\r\nFile not found");
    assert_eq!(text(deletion_reply(true, true)), "HTTP/1.1 200 OK\r\nContent-Type: text/plain\r\nContent-Length: 25\r\n\r\nFile deleted successfully");
    assert_eq!(text(upload_reply(UploadOutcome::NoFile)), "HTTP/1.1 400 BAD REQUEST\r\nContent-Type: text/plain\r\nContent-Length: 28\r\n\r\nNo file found in the request");
    assert_eq!(text(upload_reply(UploadOutcome::Stored)), "HTTP/1.1 200 OK\r\nContent-Type: text/plain\r\nContent-Length: 26\r\n\r\nFile uploaded successfully");
}

#[test]
fn listing_replies_with_json() {
    let names = vec!["a.txt".to_string(), "say \"hi\".txt".to_string()];
    assert_eq!(
        text(listing_reply(Some(names))),
        "HTTP/1.1 200 OK\r\nContent-Type: application/json\r\nContent-Length: 26\r\n\r\n[\"a.txt\",\"say \\\"hi\\\".txt\"]"
    );
    assert_eq!(text(listing_reply(Some(Vec::new()))), "HTTP/1.1 200 OK\r\nContent-Type: application/json\r\nContent-Length: 2\r\n\r\n[]");
    assert_eq!(text(listing_reply_with(None)), "HTTP/1.1 200 OK\r\nContent-Type: application/json\r\nContent-Length: 2\r\n\r\n[]");
    assert_eq!(
        text(listing_reply(None)),
        "HTTP/1.1 500 INTERNAL SERVER ERROR\r\nContent-Type: text/plain\r\nContent-Length: 20\r\n\r\nFailed to list files"
    );
}

#[test]
fn malformed_upload_is_refused() {
    assert_eq!(
        text(upload_reply(UploadOutcome::Malformed)),
        "HTTP/1.1 400 BAD REQUEST\r\nContent-Type: text/plain\r\nContent-Length: 21\r\n\r\nMalformed file upload"
    );
}

#[test]
fn listing_escapes_control_characters() {
    let names = vec![
        "t\tb\\".to_string(),
        "\u{1}\u{1f}\n\r\u{8}\u{c}".to_string(),
        "é".to_string(),
        "\u{7f}".to_string(),
    ];
    let reply = text(listing_reply(Some(names)));
    let body = reply.split("\r\n\r\n").nth(1).unwrap();
    assert_eq!(body, "[\"t\\tb\\\\\",\"\\u0001\\u001f\\n\\r\\b\\f\",\"é\",\"\u{7f}\"]");
}
