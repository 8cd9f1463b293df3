use http_server::config::ServerConfig;
use http_server::http::{HttpMethod, HttpRequest, HttpResponse, ResponseBody};
use http_server::server::{
    add_cookie, check_credentials, choose_upload_name, custom_error_pages, default_error_page,
    extract_file_content, extract_filename_from_body, extract_filename_from_headers, failure_status,
    fallback_error_page, first_free_path, get_session_id, get_unique_filename, is_cgi_request, keep_alive, method_for,
    numbered_filename, plan_upload, post_action, read_outcome, redirect_response, sanitize_filename,
    session_cookie_for, set_connection, status_text_of, unique_name_parts, Dispatch, FailureKind,
    PostAction, ReadOutcome, ServerCore, StoreOutcome, UploadPlan, UploadTarget, store_reply, upload_target,
    upload_target_with,
};
use http_server::strmap::StrMap;
use std::time::Duration;

fn request(method: HttpMethod, path: &str, headers: &[(&str, &str)], body: &[u8]) -> HttpRequest {
    let mut h = StrMap::new();
    for (k, v) in headers {
        h.insert(k.to_string(), v.to_string());
    }
    HttpRequest {
        method,
        path: path.to_string(),
        version: "HTTP/1.1".to_string(),
        headers: h,
        body: body.to_vec(),
        host: None,
        chunked: false,
        chunks: Vec::new(),
    }
}

fn whole(resp: &HttpResponse) -> Vec<u8> {
    match &resp.body {
        ResponseBody::Whole(b) => b.clone(),
        ResponseBody::Chunked(_) => panic!("expected a whole body"),
    }
}

const MULTIPART: &[u8] = b"------B\r\nContent-Disposition: form-data; name=\"file\"; filename=\"a.txt\"\r\nContent-Type: text/plain\r\n\r\nhello\r\nworld\r\n------B--\r\n";

#[test]
fn session_id_from_cookie() {
    let req = request(HttpMethod::GET, "/", &[("cookie", "theme=dark; session_id=abc123; x=y")], b"");
    assert_eq!(get_session_id(&req), "abc123");
    let none = request(HttpMethod::GET, "/", &[], b"");
    assert_eq!(get_session_id(&none), "");
    let other = request(HttpMethod::GET, "/", &[("cookie", "a=b")], b"");
    assert_eq!(get_session_id(&other), "");
}

#[test]
fn credentials_are_user_and_123() {
    assert!(check_credentials(b"username=user&password=123"));
    assert!(check_credentials(b"password=123&username=user&x=1"));
    assert!(!check_credentials(b"username=user&password=124"));
    assert!(!check_credentials(b"username=user"));
    assert!(check_credentials(b"username=admin&username=user&password=123"));
}

#[test]
fn post_with_delete_override_is_a_delete() {
    let r = request(HttpMethod::POST, "/f", &[], b"_method=DELETE");
    assert_eq!(method_for(&r), HttpMethod::DELETE);
    let p = request(HttpMethod::POST, "/f", &[], b"a=b");
    assert_eq!(method_for(&p), HttpMethod::POST);
    let g = request(HttpMethod::GET, "/f", &[], b"_method=DELETE");
    assert_eq!(method_for(&g), HttpMethod::GET);
}

#[test]
fn cgi_paths() {
    assert!(is_cgi_request("./cgi/run.php"));
    assert!(is_cgi_request("./cgi/run.py"));
    assert!(!is_cgi_request("./cgi/run.pyc"));
}

#[test]
fn keep_alive_header() {
    assert!(keep_alive(&request(HttpMethod::GET, "/", &[("connection", "Keep-Alive")], b"")));
    assert!(!keep_alive(&request(HttpMethod::GET, "/", &[("connection", "close")], b"")));
    assert!(!keep_alive(&request(HttpMethod::GET, "/", &[], b"")));
}

#[test]
fn file_content_between_type_line_and_last_line() {
    assert_eq!(extract_file_content(MULTIPART), Some(b"hello\r\nworld".to_vec()));
    let body = b"--b\r\nContent-Disposition: form-data; name=\"file\"; filename=\"a.txt\"\r\nContent-Type: text/plain\r\n\r\nhello\r\nworld\r\n--b--\r\n";
    assert_eq!(extract_file_content(body), Some(b"hello\r\nworld".to_vec()));
    let mut binary = b"--b\r\nContent-Type: application/octet-stream\r\n\r\n".to_vec();
    binary.extend_from_slice(&[0xff, 0x00, 0x0d, 0x80]);
    binary.extend_from_slice(b"\r\n--b--");
    assert_eq!(extract_file_content(&binary), Some(vec![0xff, 0x00, 0x0d, 0x80]));
    assert_eq!(extract_file_content(b"raw bytes"), Some(b"raw bytes".to_vec()));
    // The type line is the last line: there is no content to take.
    assert_eq!(extract_file_content(b"x\r\nContent-Type: a"), None);
}

#[test]
fn filename_from_body_and_headers() {
    assert_eq!(extract_filename_from_body(MULTIPART), Some("a.txt".to_string()));
    assert_eq!(extract_filename_from_body(b"no name here"), None);
    assert_eq!(extract_filename_from_body(&[0xff, 0xfe]), None);
    let mut h = StrMap::new();
    h.insert("content-disposition".to_string(), "attachment; filename=\"report.pdf\"".to_string());
    assert_eq!(extract_filename_from_headers(&h), Some("report.pdf".to_string()));
    assert_eq!(extract_filename_from_headers(&StrMap::new()), None);
}

#[test]
fn upload_name_falls_back_to_default() {
    let r = request(HttpMethod::POST, "/", &[], b"plain");
    assert_eq!(choose_upload_name(&r), "uploaded_file");
    let m = request(HttpMethod::POST, "/", &[], MULTIPART);
    assert_eq!(choose_upload_name(&m), "a.txt");
}

#[test]
fn sanitize_keeps_safe_characters() {
    assert_eq!(sanitize_filename("../etc/pa ss*wd.txt"), "..etcpasswd.txt");
    assert_eq!(sanitize_filename("my-file_1.tar.gz"), "my-file_1.tar.gz");
    let once = sanitize_filename("a/b\\c?.d");
    assert_eq!(sanitize_filename(&once), once);
}

#[test]
fn numbered_copies() {
    assert_eq!(numbered_filename("photo", 3, "jpg"), "photo_3.jpg");
    assert_eq!(numbered_filename("README", 1, ""), "README_1.");
    assert_eq!(unique_name_parts("archive.tar.gz"), Some(("archive.tar".to_string(), "gz".to_string())));
    assert_eq!(unique_name_parts("README"), Some(("README".to_string(), "".to_string())));
    assert_eq!(unique_name_parts(""), None);
}

#[test]
fn unique_filename_in_missing_directory_is_the_name() {
    let dir = "/nonexistent-directory-for-upload-tests";
    assert_eq!(get_unique_filename(dir, "a.txt"), Some(format!("{}/a.txt", dir)));
    assert_eq!(get_unique_filename(dir, ""), None);
}

#[test]
fn status_texts() {
    assert_eq!(status_text_of(200), "OK");
    assert_eq!(status_text_of(301), "Redirection");
    assert_eq!(status_text_of(413), "Payload Too Large");
    assert_eq!(status_text_of(405), "Unknown");
}

#[test]
fn error_pages() {
    let page = fallback_error_page(418);
    assert_eq!(page.status, 418);
    assert_eq!(whole(&page), b"<html><body><h1>Error 418</h1></body></html>".to_vec());
    assert_eq!(default_error_page(404), "error_pages/404.html");
    let configs = ServerConfig::parse("server: a\nerror_page: 404 nf.html\nserver: b\nserver: c\nerror_page: 404 /abs.html\n").unwrap();
    assert_eq!(custom_error_pages(&configs, 404), vec!["custom_error_pages/nf.html".to_string(), "/abs.html".to_string()]);
    assert!(custom_error_pages(&configs, 500).is_empty());
}

#[test]
fn cookies_and_redirects() {
    assert_eq!(session_cookie_for("abc"), "session_id=abc; HttpOnly");
    let mut r = redirect_response(302, "/".to_string());
    assert_eq!(r.status, 302);
    assert_eq!(r.headers.get(&"Location".to_string()), Some(&"/".to_string()));
    assert_eq!(r.headers.get(&"Content-Length".to_string()), Some(&"0".to_string()));
    add_cookie(&mut r, Some("session_id=x; HttpOnly".to_string()));
    assert_eq!(r.headers.get(&"Set-Cookie".to_string()), Some(&"session_id=x; HttpOnly".to_string()));
    set_connection(&mut r, true);
    assert_eq!(r.headers.get(&"Connection".to_string()), Some(&"keep-alive".to_string()));
    set_connection(&mut r, false);
    assert_eq!(r.headers.get(&"Connection".to_string()), Some(&"close".to_string()));
}

#[test]
fn reading_a_request() {
    assert!(matches!(read_outcome(b"GET / HTTP/1.1\r\n\r\n", false), ReadOutcome::Request(ref r) if r.path == "/"));
    assert!(matches!(read_outcome(b"", false), ReadOutcome::Invalid(ref e) if e == "Empty request"));
    assert!(matches!(read_outcome(b"GARBAGE", true), ReadOutcome::Wait));
    assert_eq!(failure_status(FailureKind::InvalidData), 400);
    assert_eq!(failure_status(FailureKind::TimedOut), 408);
    assert_eq!(failure_status(FailureKind::Other), 500);
}

#[test]
fn post_actions() {
    let big = request(HttpMethod::POST, "/", &[("content-type", "text/plain")], b"0123456789");
    assert_eq!(post_action(&big, 5), PostAction::TooLarge);
    let mp = request(HttpMethod::POST, "/", &[("content-type", "Multipart/Form-Data; boundary=x")], b"x");
    assert_eq!(post_action(&mp, 100), PostAction::Upload);
    let plain = request(HttpMethod::POST, "/", &[], b"x");
    assert_eq!(post_action(&plain, 100), PostAction::Write);
}

#[test]
fn upload_plans() {
    let no_type = request(HttpMethod::POST, "/", &[], MULTIPART);
    let resp = plan_upload(&no_type, "./www").err().unwrap();
    assert_eq!(resp.status, 400);
    assert_eq!(whole(&resp), b"Bad Request: Missing Content-Type".to_vec());
    let wrong = request(HttpMethod::POST, "/", &[("content-type", "text/plain")], MULTIPART);
    assert_eq!(whole(&plan_upload(&wrong, "./www").err().unwrap()), b"Bad Request: Content-Type must be multipart/form-data".to_vec());
    let ok = request(HttpMethod::POST, "/", &[("content-type", "multipart/form-data; boundary=----B")], MULTIPART);
    let plan = plan_upload(&ok, "./www").ok().unwrap();
    assert_eq!(plan.dir, "./www/uploads");
    assert_eq!(plan.name, "a.txt");
    assert_eq!(plan.name_parts, Some(("a".to_string(), "txt".to_string())));
    assert_eq!(plan.content, Some(b"hello\r\nworld".to_vec()));
}

fn sample_core() -> ServerCore {
    let text = "server: main\nport: 8080\nroute: /secret\nmethods: POST\nroot: ./vault\nprotected: true\nroute: /\nmethods: GET POST\nroot: ./www\nredirect: /old /new\n";
    let configs = ServerConfig::parse(text).unwrap();
    ServerCore::new(configs, Duration::from_secs(3600)).ok().unwrap()
}

#[test]
fn core_needs_a_server() {
    let r = ServerCore::new(Vec::new(), Duration::from_secs(1));
    assert!(matches!(r, Err(ref e) if e.message() == "Internal error: No valid server configurations found"));
}

#[test]
fn unknown_method_is_405() {
    let mut c = sample_core();
    let r = c.handle_request(&request(HttpMethod::UNSUPPORTED, "/", &[], b""), "server_0");
    assert!(matches!(r, Ok(Dispatch::ErrorPage(405))));
}

#[test]
fn unknown_server_is_an_internal_error() {
    let mut c = sample_core();
    let r = c.handle_request(&request(HttpMethod::GET, "/", &[], b""), "server_9");
    assert!(matches!(r, Err(ref e) if e.message() == "Internal error: Server configuration not found"));
}

#[test]
fn login_page_then_login_then_protected_route() {
    let mut c = sample_core();
    let page = c.handle_request(&request(HttpMethod::GET, "/login", &[], b""), "server_0");
    match page {
        Ok(Dispatch::Respond(resp)) => {
            assert_eq!(resp.status, 200);
            assert!(String::from_utf8(whole(&resp)).unwrap().contains("<form method=\"post\" action=\"/login\">"));
        }
        _ => panic!("expected the login page"),
    }
    let refused = c.handle_request(&request(HttpMethod::POST, "/secret/x", &[], b"data"), "server_0");
    assert!(matches!(refused, Ok(Dispatch::ErrorPage(403))));
    let login = c.handle_request(&request(HttpMethod::POST, "/login", &[], b"username=user&password=123"), "server_0");
    let cookie = match login {
        Ok(Dispatch::Respond(resp)) => {
            assert_eq!(resp.status, 302);
            assert_eq!(resp.headers.get(&"Location".to_string()), Some(&"/".to_string()));
            resp.headers.get(&"Set-Cookie".to_string()).unwrap().clone()
        }
        _ => panic!("expected a redirect"),
    };
    let id = cookie.trim_start_matches("session_id=").trim_end_matches("; HttpOnly").to_string();
    let header = format!("session_id={}", id);
    let allowed = c.handle_request(&request(HttpMethod::POST, "/secret/x", &[("cookie", header.as_str())], b"data"), "server_0");
    match allowed {
        Ok(Dispatch::Post(m, cookie)) => {
            assert_eq!(m.file_path, "./vault/x");
            assert_eq!(cookie, None);
        }
        _ => panic!("expected the post to be handled"),
    }
}

#[test]
fn wrong_login_shows_the_form_again() {
    let mut c = sample_core();
    let r = c.handle_request(&request(HttpMethod::POST, "/login", &[], b"username=user&password=0"), "server_0");
    assert!(matches!(r, Ok(Dispatch::Respond(ref resp)) if resp.status == 200));
}

#[test]
fn redirect_dispatch() {
    let mut c = sample_core();
    let r = c.handle_request(&request(HttpMethod::GET, "/old", &[], b""), "server_0");
    match r {
        Ok(Dispatch::Respond(resp)) => {
            assert_eq!(resp.status, 301);
            assert_eq!(resp.headers.get(&"Location".to_string()), Some(&"/new".to_string()));
        }
        _ => panic!("expected a redirect"),
    }
}

#[test]
fn first_free_path_takes_the_first_free_name() {
    assert_eq!(first_free_path("up", "a.txt", &vec![false]), Some("up/a.txt".to_string()));
    assert_eq!(first_free_path("up", "a.txt", &vec![true, true, false]), Some("up/a_2.txt".to_string()));
    assert_eq!(first_free_path("up", "a.txt", &vec![true, true]), None);
    assert_eq!(first_free_path("up", "", &vec![false]), None);
}

fn plan(name: &str, content: Option<&[u8]>) -> UploadPlan {
    UploadPlan {
        dir: "/nonexistent-directory-for-upload-tests/uploads".to_string(),
        name: name.to_string(),
        name_parts: unique_name_parts(name),
        content: content.map(|c| c.to_vec()),
    }
}

fn status_of(t: UploadTarget) -> Option<u16> {
    match t {
        UploadTarget::ErrorPage(s) => Some(s),
        UploadTarget::Store(..) => None,
    }
}

#[test]
fn upload_targets_follow_name_free_name_and_body() {
    assert_eq!(status_of(upload_target_with(plan("", Some(b"x")), Some("p".to_string()))), Some(400));
    assert_eq!(status_of(upload_target_with(plan("a.txt", Some(b"x")), None)), Some(500));
    assert_eq!(status_of(upload_target_with(plan("a.txt", None), Some("p".to_string()))), Some(400));
    match upload_target_with(plan("a.txt", Some(b"x\r\ny")), Some("/d/a_1.txt".to_string())) {
        UploadTarget::Store(p, c) => {
            assert_eq!(p, "/d/a_1.txt");
            assert_eq!(c, b"x\r\ny".to_vec());
        }
        UploadTarget::ErrorPage(_) => panic!("expected a store"),
    }
    assert_eq!(status_of(upload_target(plan("", Some(b"x")))), Some(400));
    match upload_target(plan("a.txt", Some(b"hi"))) {
        UploadTarget::Store(p, c) => {
            assert_eq!(p, "/nonexistent-directory-for-upload-tests/uploads/a.txt");
            assert_eq!(c, b"hi".to_vec());
        }
        UploadTarget::ErrorPage(_) => panic!("expected a store"),
    }
}

#[test]
fn store_replies() {
    let r = store_reply(StoreOutcome::Saved);
    assert_eq!(r.status, 200);
    assert!(matches!(r.body, ResponseBody::Whole(ref b) if b == b"File uploaded successfully"));
    let r = store_reply(StoreOutcome::WriteFailed);
    assert_eq!(r.status, 500);
    assert!(matches!(r.body, ResponseBody::Whole(ref b) if b == b"Failed to save file"));
    let r = store_reply(StoreOutcome::DirFailed);
    assert_eq!(r.status, 500);
    assert!(matches!(r.body, ResponseBody::Whole(ref b) if b == b"Internal Server Error"));
}
