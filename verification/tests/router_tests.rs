use http_server::config::RouteConfig;
use http_server::http::{HttpMethod, HttpRequest};
use http_server::router::{join_path_str, Probe, RouteMatchResult, Router};
use http_server::strmap::StrMap;

fn route(path: &str, methods: &[&str], root: &str) -> RouteConfig {
    RouteConfig {
        path: path.to_string(),
        methods: methods.iter().map(|m| m.to_string()).collect(),
        root: root.to_string(),
        index: None,
        cgi_extensions: StrMap::new(),
        directory_listing: false,
        redirections: StrMap::new(),
        protected: false,
    }
}

fn request(method: HttpMethod, path: &str) -> HttpRequest {
    HttpRequest {
        method,
        path: path.to_string(),
        version: "HTTP/1.1".to_string(),
        headers: StrMap::new(),
        body: Vec::new(),
        host: None,
        chunked: false,
        chunks: Vec::new(),
    }
}

fn probe(is_dir: bool, index_exists: bool, exists: bool) -> Probe {
    Probe { is_dir, index_exists, exists }
}

#[test]
fn join_path_follows_path_join() {
    assert_eq!(join_path_str("./www", "a.txt"), "./www/a.txt");
    assert_eq!(join_path_str("./www/", "a.txt"), "./www/a.txt");
    assert_eq!(join_path_str("./www", "/etc/passwd"), "/etc/passwd");
    assert_eq!(join_path_str("", "a"), "a");
}

#[test]
fn get_matches_existing_file() {
    let router = Router::new(vec![route("/", &["GET"], "./www")]);
    let req = request(HttpMethod::GET, "/docs/a.txt");
    match router.match_route_with(&req, &vec![probe(false, false, true)]) {
        RouteMatchResult::Match(m) => {
            assert_eq!(m.file_path, "./www/docs/a.txt");
            assert_eq!(m.redirect_to, None);
            assert_eq!(m.route.path, "/");
        }
        _ => panic!("expected a match"),
    }
}

#[test]
fn get_missing_file_is_not_found() {
    let router = Router::new(vec![route("/", &["GET"], "./www")]);
    let req = request(HttpMethod::GET, "/missing.txt");
    assert!(matches!(
        router.match_route_with(&req, &vec![probe(false, false, false)]),
        RouteMatchResult::NotFound
    ));
}

#[test]
fn get_directory_uses_index_when_present() {
    let mut r = route("/", &["GET"], "./www");
    r.index = Some("index.html".to_string());
    let router = Router::new(vec![r]);
    let req = request(HttpMethod::GET, "/site");
    match router.match_route_with(&req, &vec![probe(true, true, false)]) {
        RouteMatchResult::Match(m) => assert_eq!(m.file_path, "./www/site/index.html"),
        _ => panic!("expected a match"),
    }
}

#[test]
fn get_directory_lists_when_enabled() {
    let mut r = route("/files", &["GET"], "./data");
    r.directory_listing = true;
    let router = Router::new(vec![r]);
    let req = request(HttpMethod::GET, "/files/sub");
    match router.match_route_with(&req, &vec![probe(true, false, false)]) {
        RouteMatchResult::Match(m) => assert_eq!(m.file_path, "./data/sub"),
        _ => panic!("expected a match"),
    }
}

#[test]
fn directory_without_index_or_listing_falls_through() {
    let first = route("/a", &["GET"], "./one");
    let second = route("/", &["GET"], "./two");
    let router = Router::new(vec![first, second]);
    let req = request(HttpMethod::GET, "/a/b");
    match router.match_route_with(&req, &vec![probe(true, false, false), probe(false, false, true)]) {
        RouteMatchResult::Match(m) => {
            assert_eq!(m.route.path, "/");
            assert_eq!(m.file_path, "./two/a/b");
        }
        _ => panic!("expected the second route"),
    }
}

#[test]
fn method_not_in_route_is_refused() {
    let router = Router::new(vec![route("/", &["GET"], "./www")]);
    let req = request(HttpMethod::DELETE, "/a.txt");
    match router.match_route_with(&req, &vec![probe(false, false, true)]) {
        RouteMatchResult::MethodNotAllowed(m) => {
            assert_eq!(m.file_path, "");
            assert_eq!(m.route.path, "/");
        }
        _ => panic!("expected method not allowed"),
    }
}

#[test]
fn post_matches_without_the_file_system() {
    let router = Router::new(vec![route("/up", &["POST"], "./store")]);
    let req = request(HttpMethod::POST, "/up/new.bin");
    match router.match_route(&req) {
        RouteMatchResult::Match(m) => assert_eq!(m.file_path, "./store/new.bin"),
        _ => panic!("expected a match"),
    }
}

#[test]
fn redirect_wins_over_method() {
    let mut r = route("/", &["GET"], "./www");
    r.redirections.insert("/old".to_string(), "/new".to_string());
    let router = Router::new(vec![r]);
    let req = request(HttpMethod::POST, "/old");
    match router.match_route_with(&req, &vec![probe(false, false, false)]) {
        RouteMatchResult::Match(m) => {
            assert_eq!(m.redirect_to, Some("/new".to_string()));
            assert_eq!(m.file_path, "");
        }
        _ => panic!("expected a redirect"),
    }
}

#[test]
fn unsupported_method_is_not_found() {
    let router = Router::new(vec![route("/", &["GET"], "./www")]);
    let req = request(HttpMethod::UNSUPPORTED, "/a");
    assert!(matches!(router.match_route_with(&req, &vec![probe(false, false, true)]), RouteMatchResult::NotFound));
}

#[test]
fn path_outside_every_route_is_not_found() {
    let router = Router::new(vec![route("/api", &["GET"], "./api")]);
    let req = request(HttpMethod::GET, "/web");
    assert!(matches!(router.match_route(&req), RouteMatchResult::NotFound));
}

#[test]
fn route_prefix_is_removed_repeatedly() {
    let router = Router::new(vec![route("/a", &["POST"], "./r")]);
    let req = request(HttpMethod::POST, "/a/a/x");
    match router.match_route_with(&req, &vec![probe(false, false, false)]) {
        RouteMatchResult::Match(m) => assert_eq!(m.file_path, "./r/x"),
        _ => panic!("expected a match"),
    }
}

#[test]
fn parent_segments_are_not_found() {
    let router = Router::new(vec![route("/", &["GET", "POST", "DELETE"], "www")]);
    let req = HttpRequest::parse(b"DELETE /../secret.txt HTTP/1.1\r\n\r\n").unwrap();
    assert!(matches!(router.match_route(&req), RouteMatchResult::NotFound));
    let deep = request(HttpMethod::GET, "/a/../../b");
    assert!(matches!(router.match_route_with(&deep, &vec![probe(false, false, true)]), RouteMatchResult::NotFound));
    let dots = request(HttpMethod::GET, "/a..b/..c");
    match router.match_route_with(&dots, &vec![probe(false, false, true)]) {
        RouteMatchResult::Match(m) => assert_eq!(m.file_path, "www/a..b/..c"),
        _ => panic!("expected a match"),
    }
}

#[test]
fn absolute_remainder_stays_under_the_root() {
    let router = Router::new(vec![route("/files", &["GET"], "./data")]);
    let req = request(HttpMethod::GET, "/files//etc/passwd");
    match router.match_route_with(&req, &vec![probe(false, false, true)]) {
        RouteMatchResult::Match(m) => assert_eq!(m.file_path, "./data/etc/passwd"),
        _ => panic!("expected a match"),
    }
}

#[test]
fn probes_ask_about_the_routed_file() {
    let mut with_index = route("/", &["GET"], "/nonexistent-root-for-tests");
    with_index.index = Some("index.html".to_string());
    let router = Router::new(vec![with_index, route("/static", &["GET"], "/nowhere")]);
    let req = request(HttpMethod::GET, "/static/a.txt");
    let reports = router.probe_routes(&req);
    assert_eq!(reports.len(), 2);
    assert_eq!(reports[0].answers[0].path, "/nonexistent-root-for-tests/static/a.txt");
    assert!(!reports[0].probe.is_dir);
    assert_eq!(reports[0].answers.len(), 2);
    assert_eq!(reports[0].answers[1].path, "/nonexistent-root-for-tests/static/a.txt");
    assert!(!reports[0].probe.exists);
    assert_eq!(reports[1].answers[0].path, "/nowhere/a.txt");
}
